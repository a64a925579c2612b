//! Breadth-first traversal.

use vstd::prelude::*;

use crate::sync::children_of;
use crate::sync::fast_children_of;
use crate::sync::laws::lemma_breadth_step_leveled;
use crate::sync::laws::lemma_start_below_root;
use crate::sync::laws::lemma_step_tidy;
use crate::sync::laws::leveled;
use crate::sync::laws::tidy;
use crate::sync::par::SplittableIterator;
use crate::sync::queue::Queue;
use crate::sync::queue::QueueView;
use crate::sync::walk::at_bound;
use crate::sync::walk::Strategy;
use crate::sync::walk::WalkView;
use crate::sync::Keyed;
use crate::sync::FastNode;
use crate::sync::Node;

verus! {

/// Breadth-first traversal of the nodes below a root, level by level.
#[derive(Debug)]
pub struct Bfs<N: Node> {
    queue: Queue<N, N::Error>,
    max_depth: Option<usize>,
}

impl<N: Node> View for Bfs<N> {
    type V = WalkView<N, N::Error>;

    closed spec fn view(&self) -> WalkView<N, N::Error> {
        WalkView { queue: self.queue@, max_depth: self.max_depth }
    }
}

impl<N: Node> Bfs<N> {
    /// The traversal that [`Bfs::new`] sets up: the children of the root are
    /// buffered at depth 1, and the root itself counts as seen.
    pub open spec fn start(root: N, max_depth: Option<usize>, allow_circles: bool) -> WalkView<
        N,
        N::Error,
    > {
        WalkView {
            queue: QueueView::fresh(allow_circles).seed(root.key_spec()).offer_all(
                1,
                children_of::<N>()(root, 1),
            ),
            max_depth,
        }
    }

    /// Sets up the traversal below `root`.
    ///
    /// Nodes at depth `max_depth` or deeper are emitted but not expanded. With
    /// `allow_circles` every child is followed; without it a node whose key was
    /// seen before is dropped.
    pub fn new(root: N, max_depth: Option<usize>, allow_circles: bool) -> (bfs: Self)
        ensures
            bfs@ == Self::start(root, max_depth, allow_circles),
            leveled(bfs@.queue.entries),
            !allow_circles ==> tidy(bfs@.queue),
    {
        proof {
            lemma_start_below_root(allow_circles, root.key_spec(), children_of::<N>()(root, 1));
        }
        let mut queue = Queue::new(allow_circles);
        queue.mark(root.key());
        let found = root.children(1);
        queue.expand(1, found);
        Bfs { queue, max_depth }
    }

    /// Emits the next outcome, or `None` once the traversal is exhausted.
    pub fn next(&mut self) -> (item: Option<Result<N, N::Error>>)
        ensures
            final(self)@ == old(self)@.step(Strategy::Breadth, children_of::<N>()),
            item == old(self)@.emits(Strategy::Breadth),
            leveled(old(self)@.queue.entries) ==> leveled(final(self)@.queue.entries),
            !old(self)@.queue.allow_circles && tidy(old(self)@.queue) ==> tidy(final(self)@.queue),
    {
        proof {
            if !self@.exhausted() && leveled(self@.queue.entries) {
                lemma_breadth_step_leveled(self@, children_of::<N>());
            }
            if !self@.queue.allow_circles && tidy(self@.queue) {
                lemma_step_tidy(self@, Strategy::Breadth, children_of::<N>());
            }
        }
        match self.queue.pop_front() {
            Some((_, Err(err))) => Some(Err(err)),
            Some((depth, Ok(node))) => {
                if at_bound(self.max_depth, depth) {
                    return Some(Ok(node));
                }
                let found = node.children(depth + 1);
                self.queue.expand(depth + 1, found);
                Some(Ok(node))
            },
            None => None,
        }
    }
}

/// Breadth-first traversal over nodes that add their children in place.
#[derive(Debug)]
pub struct FastBfs<N: FastNode> {
    queue: Queue<N, N::Error>,
    max_depth: Option<usize>,
}

impl<N: FastNode> View for FastBfs<N> {
    type V = WalkView<N, N::Error>;

    closed spec fn view(&self) -> WalkView<N, N::Error> {
        WalkView { queue: self.queue@, max_depth: self.max_depth }
    }
}

impl<N: FastNode> FastBfs<N> {
    /// The traversal that [`FastBfs::new`] sets up: the children of the root
    /// are buffered at depth 1, and the root itself counts as seen.
    pub open spec fn start(root: N, max_depth: Option<usize>, allow_circles: bool) -> WalkView<
        N,
        N::Error,
    > {
        WalkView {
            queue: QueueView::fresh(allow_circles).seed(root.key_spec()).offer_all(
                1,
                fast_children_of::<N>()(root, 1),
            ),
            max_depth,
        }
    }

    /// Sets up the traversal below `root`, as [`Bfs::new`] does.
    pub fn new(root: N, max_depth: Option<usize>, allow_circles: bool) -> (bfs: Self)
        ensures
            bfs@ == Self::start(root, max_depth, allow_circles),
            leveled(bfs@.queue.entries),
            !allow_circles ==> tidy(bfs@.queue),
    {
        proof {
            lemma_start_below_root(allow_circles, root.key_spec(), fast_children_of::<N>()(root, 1));
        }
        let mut queue = Queue::new(allow_circles);
        queue.mark(root.key());
        queue.expand_in_place(&root, 1);
        FastBfs { queue, max_depth }
    }

    /// Emits the next outcome, or `None` once the traversal is exhausted.
    pub fn next(&mut self) -> (item: Option<Result<N, N::Error>>)
        ensures
            final(self)@ == old(self)@.step(Strategy::Breadth, fast_children_of::<N>()),
            item == old(self)@.emits(Strategy::Breadth),
            leveled(old(self)@.queue.entries) ==> leveled(final(self)@.queue.entries),
            !old(self)@.queue.allow_circles && tidy(old(self)@.queue) ==> tidy(final(self)@.queue),
    {
        proof {
            if !self@.exhausted() && leveled(self@.queue.entries) {
                lemma_breadth_step_leveled(self@, fast_children_of::<N>());
            }
            if !self@.queue.allow_circles && tidy(self@.queue) {
                lemma_step_tidy(self@, Strategy::Breadth, fast_children_of::<N>());
            }
        }
        match self.queue.pop_front() {
            Some((_, Err(err))) => Some(Err(err)),
            Some((depth, Ok(node))) => {
                if at_bound(self.max_depth, depth) {
                    return Some(Ok(node));
                }
                self.queue.expand_in_place(&node, depth + 1);
                Some(Ok(node))
            },
            None => None,
        }
    }
}

impl<N: Node> Bfs<N> {
    /// Moves the second half of the buffered entries into a new traversal, if
    /// at least two are buffered. Both halves follow repeats from then on.
    pub fn split(&mut self) -> (half: Option<Self>)
        ensures
            match old(self)@.halves() {
                Some((kept, given)) => half is Some && final(self)@ == kept && half->0@ == given,
                None => half is None && final(self)@ == old(self)@,
            },
    {
        let len = self.queue.len();
        if len >= 2 {
            let split = self.queue.split_off(len / 2);
            Some(Bfs { queue: split, max_depth: self.max_depth })
        } else {
            None
        }
    }
}

impl<N: Node> SplittableIterator for Bfs<N> {
    type Item = Result<N, N::Error>;

    type State = WalkView<N, N::Error>;

    open spec fn state(&self) -> WalkView<N, N::Error> {
        self@
    }

    open spec fn advanced(state: WalkView<N, N::Error>) -> (
        WalkView<N, N::Error>,
        Option<Result<N, N::Error>>,
    ) {
        (
            state.step(Strategy::Breadth, children_of::<N>()),
            state.emits(Strategy::Breadth),
        )
    }

    open spec fn parts(state: WalkView<N, N::Error>) -> Option<
        (WalkView<N, N::Error>, WalkView<N, N::Error>),
    > {
        state.halves()
    }

    fn next(&mut self) -> (item: Option<Result<N, N::Error>>) {
        Bfs::next(self)
    }

    fn split(&mut self) -> (half: Option<Self>) {
        Bfs::split(self)
    }
}

impl<N: FastNode> FastBfs<N> {
    /// Moves the second half of the buffered entries into a new traversal, if
    /// at least two are buffered. Both halves follow repeats from then on.
    pub fn split(&mut self) -> (half: Option<Self>)
        ensures
            match old(self)@.halves() {
                Some((kept, given)) => half is Some && final(self)@ == kept && half->0@ == given,
                None => half is None && final(self)@ == old(self)@,
            },
    {
        let len = self.queue.len();
        if len >= 2 {
            let split = self.queue.split_off(len / 2);
            Some(FastBfs { queue: split, max_depth: self.max_depth })
        } else {
            None
        }
    }
}

impl<N: FastNode> SplittableIterator for FastBfs<N> {
    type Item = Result<N, N::Error>;

    type State = WalkView<N, N::Error>;

    open spec fn state(&self) -> WalkView<N, N::Error> {
        self@
    }

    open spec fn advanced(state: WalkView<N, N::Error>) -> (
        WalkView<N, N::Error>,
        Option<Result<N, N::Error>>,
    ) {
        (
            state.step(Strategy::Breadth, fast_children_of::<N>()),
            state.emits(Strategy::Breadth),
        )
    }

    open spec fn parts(state: WalkView<N, N::Error>) -> Option<
        (WalkView<N, N::Error>, WalkView<N, N::Error>),
    > {
        state.halves()
    }

    fn next(&mut self) -> (item: Option<Result<N, N::Error>>) {
        FastBfs::next(self)
    }

    fn split(&mut self) -> (half: Option<Self>) {
        FastBfs::split(self)
    }
}

} // verus!
