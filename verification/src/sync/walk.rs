//! The mathematical model of a traversal: what one step does to the queue.

use vstd::prelude::*;

use crate::sync::queue::QueueView;
use crate::sync::Keyed;

verus! {

/// The depth from which on nodes are emitted without being expanded. A
/// traversal without a bound stops expanding at the largest depth a `usize`
/// can hold.
pub open spec fn bound(max_depth: Option<usize>) -> usize {
    match max_depth {
        Some(limit) => limit,
        None => usize::MAX,
    }
}

/// Whether a node recorded at `depth` is emitted without being expanded.
pub fn at_bound(max_depth: Option<usize>, depth: usize) -> (stop: bool)
    ensures
        stop == (depth >= bound(max_depth)),
{
    match max_depth {
        Some(limit) => depth >= limit,
        None => depth == usize::MAX,
    }
}

/// The queue after the entry that was just taken from it is dealt with.
///
/// A failure adds nothing. A node at or beyond the bound adds nothing. Any
/// other node has its outcomes offered one level deeper.
pub open spec fn grown<I: Keyed, E>(
    rest: QueueView<I, E>,
    max_depth: Option<usize>,
    entry: (usize, Result<I, E>),
    expand: spec_fn(I, usize) -> Seq<Result<I, E>>,
) -> QueueView<I, E> {
    match entry.1 {
        Ok(node) => if entry.0 < bound(max_depth) {
            rest.offer_all((entry.0 + 1) as usize, expand(node, (entry.0 + 1) as usize))
        } else {
            rest
        },
        Err(_) => rest,
    }
}

/// The end of the queue from which a traversal takes its next entry.
pub enum Strategy {
    /// The first entry is taken: nodes are emitted level by level.
    Breadth,
    /// The last entry is taken: a node's children come before its siblings.
    Depth,
}

/// The mathematical content of a traversal: its queue and its depth bound.
pub ghost struct WalkView<I, E> {
    pub queue: QueueView<I, E>,
    pub max_depth: Option<usize>,
}

impl<I: Keyed, E> WalkView<I, E> {
    /// Whether nothing is left to emit.
    pub open spec fn exhausted(self) -> bool {
        self.queue.entries.len() == 0
    }

    /// The entry that the next step takes: the first for breadth-first, the
    /// last for depth-first.
    pub open spec fn taken(self, strategy: Strategy) -> (usize, Result<I, E>) {
        match strategy {
            Strategy::Breadth => self.queue.entries.first(),
            Strategy::Depth => self.queue.entries.last(),
        }
    }

    /// The queue without the entry that the next step takes.
    pub open spec fn rest(self, strategy: Strategy) -> QueueView<I, E> {
        match strategy {
            Strategy::Breadth => self.queue.without_front(),
            Strategy::Depth => self.queue.without_back(),
        }
    }

    /// What the next step emits, if the traversal is not exhausted.
    pub open spec fn emits(self, strategy: Strategy) -> Option<Result<I, E>> {
        if self.exhausted() {
            None
        } else {
            Some(self.taken(strategy).1)
        }
    }

    /// The traversal after one step.
    pub open spec fn step(
        self,
        strategy: Strategy,
        expand: spec_fn(I, usize) -> Seq<Result<I, E>>,
    ) -> Self {
        if self.exhausted() {
            self
        } else {
            WalkView {
                queue: grown(self.rest(strategy), self.max_depth, self.taken(strategy), expand),
                ..self
            }
        }
    }

    /// The traversal after `steps` steps.
    pub open spec fn run(
        self,
        strategy: Strategy,
        expand: spec_fn(I, usize) -> Seq<Result<I, E>>,
        steps: nat,
    ) -> Self
        decreases steps,
    {
        if steps == 0 {
            self
        } else {
            self.step(strategy, expand).run(strategy, expand, (steps - 1) as nat)
        }
    }

    /// The entries that the first `steps` steps emit, in order, each with the
    /// depth at which it was recorded.
    pub open spec fn trace(
        self,
        strategy: Strategy,
        expand: spec_fn(I, usize) -> Seq<Result<I, E>>,
        steps: nat,
    ) -> Seq<(usize, Result<I, E>)>
        decreases steps,
    {
        if steps == 0 || self.exhausted() {
            Seq::empty()
        } else {
            seq![self.taken(strategy)] + self.step(strategy, expand).trace(
                strategy,
                expand,
                (steps - 1) as nat,
            )
        }
    }
}

impl<I, E> WalkView<I, E> {
    /// The traversal that keeps the first half of the buffered entries after a
    /// split. The middle is at half the length, rounded down.
    pub open spec fn kept_half(self) -> Self {
        WalkView {
            queue: QueueView::detached(
                self.queue.entries.subrange(0, self.queue.entries.len() as int / 2),
            ),
            ..self
        }
    }

    /// The traversal that is given the second half of the buffered entries.
    pub open spec fn given_half(self) -> Self {
        WalkView {
            queue: QueueView::detached(
                self.queue.entries.subrange(
                    self.queue.entries.len() as int / 2,
                    self.queue.entries.len() as int,
                ),
            ),
            ..self
        }
    }

    /// The two parts that a split leaves, the kept one first, or `None` where
    /// fewer than two entries are buffered.
    pub open spec fn halves(self) -> Option<(Self, Self)> {
        if self.queue.entries.len() >= 2 {
            Some((self.kept_half(), self.given_half()))
        } else {
            None
        }
    }
}

} // verus!
