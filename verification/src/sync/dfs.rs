//! Depth-first traversal.

use vstd::prelude::*;

use crate::sync::children_of;
use crate::sync::fast_children_of;
use crate::sync::laws::lemma_start_below_root;
use crate::sync::laws::lemma_step_tidy;
use crate::sync::laws::tidy;
use crate::sync::par::SplittableIterator;
use crate::sync::queue::Queue;
use crate::sync::queue::QueueView;
use crate::sync::walk::at_bound;
use crate::sync::walk::Strategy;
use crate::sync::walk::WalkView;
use crate::sync::Keyed;
use crate::sync::FastNode;
use crate::sync::Node;

verus! {

/// Depth-first traversal of the nodes below a root in pre-order: a node is
/// emitted before everything below it, and all of that before its next sibling.
/// Among siblings the one offered last is emitted first.
#[derive(Debug)]
pub struct Dfs<N: Node> {
    queue: Queue<N, N::Error>,
    max_depth: Option<usize>,
}

impl<N: Node> View for Dfs<N> {
    type V = WalkView<N, N::Error>;

    closed spec fn view(&self) -> WalkView<N, N::Error> {
        WalkView { queue: self.queue@, max_depth: self.max_depth }
    }
}

impl<N: Node> Dfs<N> {
    /// The traversal that [`Dfs::new`] sets up: the children of the root are
    /// buffered at depth 1, and the root itself counts as seen.
    pub open spec fn start(root: N, max_depth: Option<usize>, allow_circles: bool) -> WalkView<
        N,
        N::Error,
    > {
        WalkView {
            queue: QueueView::fresh(allow_circles).seed(root.key_spec()).offer_all(
                1,
                children_of::<N>()(root, 1),
            ),
            max_depth,
        }
    }

    /// Sets up the traversal below `root`.
    ///
    /// Nodes at depth `max_depth` or deeper are emitted but not expanded. With
    /// `allow_circles` every child is followed; without it a node whose key was
    /// seen before is dropped.
    pub fn new(root: N, max_depth: Option<usize>, allow_circles: bool) -> (dfs: Self)
        ensures
            dfs@ == Self::start(root, max_depth, allow_circles),
            !allow_circles ==> tidy(dfs@.queue),
    {
        proof {
            lemma_start_below_root(allow_circles, root.key_spec(), children_of::<N>()(root, 1));
        }
        let mut queue = Queue::new(allow_circles);
        queue.mark(root.key());
        let found = root.children(1);
        queue.expand(1, found);
        Dfs { queue, max_depth }
    }

    /// Emits the next outcome, or `None` once the traversal is exhausted.
    pub fn next(&mut self) -> (item: Option<Result<N, N::Error>>)
        ensures
            final(self)@ == old(self)@.step(Strategy::Depth, children_of::<N>()),
            item == old(self)@.emits(Strategy::Depth),
            !old(self)@.queue.allow_circles && tidy(old(self)@.queue) ==> tidy(final(self)@.queue),
    {
        proof {
            if !self@.queue.allow_circles && tidy(self@.queue) {
                lemma_step_tidy(self@, Strategy::Depth, children_of::<N>());
            }
        }
        match self.queue.pop_back() {
            Some((_, Err(err))) => Some(Err(err)),
            Some((depth, Ok(node))) => {
                if at_bound(self.max_depth, depth) {
                    return Some(Ok(node));
                }
                let found = node.children(depth + 1);
                self.queue.expand(depth + 1, found);
                Some(Ok(node))
            },
            None => None,
        }
    }
}

/// Depth-first traversal over nodes that add their children in place.
#[derive(Debug)]
pub struct FastDfs<N: FastNode> {
    queue: Queue<N, N::Error>,
    max_depth: Option<usize>,
}

impl<N: FastNode> View for FastDfs<N> {
    type V = WalkView<N, N::Error>;

    closed spec fn view(&self) -> WalkView<N, N::Error> {
        WalkView { queue: self.queue@, max_depth: self.max_depth }
    }
}

impl<N: FastNode> FastDfs<N> {
    /// The traversal that [`FastDfs::new`] sets up: the children of the root
    /// are buffered at depth 1, and the root itself counts as seen.
    pub open spec fn start(root: N, max_depth: Option<usize>, allow_circles: bool) -> WalkView<
        N,
        N::Error,
    > {
        WalkView {
            queue: QueueView::fresh(allow_circles).seed(root.key_spec()).offer_all(
                1,
                fast_children_of::<N>()(root, 1),
            ),
            max_depth,
        }
    }

    /// Sets up the traversal below `root`, as [`Dfs::new`] does.
    pub fn new(root: N, max_depth: Option<usize>, allow_circles: bool) -> (dfs: Self)
        ensures
            dfs@ == Self::start(root, max_depth, allow_circles),
            !allow_circles ==> tidy(dfs@.queue),
    {
        proof {
            lemma_start_below_root(allow_circles, root.key_spec(), fast_children_of::<N>()(root, 1));
        }
        let mut queue = Queue::new(allow_circles);
        queue.mark(root.key());
        queue.expand_in_place(&root, 1);
        FastDfs { queue, max_depth }
    }

    /// Emits the next outcome, or `None` once the traversal is exhausted.
    pub fn next(&mut self) -> (item: Option<Result<N, N::Error>>)
        ensures
            final(self)@ == old(self)@.step(Strategy::Depth, fast_children_of::<N>()),
            item == old(self)@.emits(Strategy::Depth),
            !old(self)@.queue.allow_circles && tidy(old(self)@.queue) ==> tidy(final(self)@.queue),
    {
        proof {
            if !self@.queue.allow_circles && tidy(self@.queue) {
                lemma_step_tidy(self@, Strategy::Depth, fast_children_of::<N>());
            }
        }
        match self.queue.pop_back() {
            Some((_, Err(err))) => Some(Err(err)),
            Some((depth, Ok(node))) => {
                if at_bound(self.max_depth, depth) {
                    return Some(Ok(node));
                }
                self.queue.expand_in_place(&node, depth + 1);
                Some(Ok(node))
            },
            None => None,
        }
    }
}

impl<N: Node> Dfs<N> {
    /// Moves the second half of the buffered entries into a new traversal, if
    /// at least two are buffered. Both halves follow repeats from then on.
    pub fn split(&mut self) -> (half: Option<Self>)
        ensures
            match old(self)@.halves() {
                Some((kept, given)) => half is Some && final(self)@ == kept && half->0@ == given,
                None => half is None && final(self)@ == old(self)@,
            },
    {
        let len = self.queue.len();
        if len >= 2 {
            let split = self.queue.split_off(len / 2);
            Some(Dfs { queue: split, max_depth: self.max_depth })
        } else {
            None
        }
    }
}

impl<N: Node> SplittableIterator for Dfs<N> {
    type Item = Result<N, N::Error>;

    type State = WalkView<N, N::Error>;

    open spec fn state(&self) -> WalkView<N, N::Error> {
        self@
    }

    open spec fn advanced(state: WalkView<N, N::Error>) -> (
        WalkView<N, N::Error>,
        Option<Result<N, N::Error>>,
    ) {
        (
            state.step(Strategy::Depth, children_of::<N>()),
            state.emits(Strategy::Depth),
        )
    }

    open spec fn parts(state: WalkView<N, N::Error>) -> Option<
        (WalkView<N, N::Error>, WalkView<N, N::Error>),
    > {
        state.halves()
    }

    fn next(&mut self) -> (item: Option<Result<N, N::Error>>) {
        Dfs::next(self)
    }

    fn split(&mut self) -> (half: Option<Self>) {
        Dfs::split(self)
    }
}

impl<N: FastNode> FastDfs<N> {
    /// Moves the second half of the buffered entries into a new traversal, if
    /// at least two are buffered. Both halves follow repeats from then on.
    pub fn split(&mut self) -> (half: Option<Self>)
        ensures
            match old(self)@.halves() {
                Some((kept, given)) => half is Some && final(self)@ == kept && half->0@ == given,
                None => half is None && final(self)@ == old(self)@,
            },
    {
        let len = self.queue.len();
        if len >= 2 {
            let split = self.queue.split_off(len / 2);
            Some(FastDfs { queue: split, max_depth: self.max_depth })
        } else {
            None
        }
    }
}

impl<N: FastNode> SplittableIterator for FastDfs<N> {
    type Item = Result<N, N::Error>;

    type State = WalkView<N, N::Error>;

    open spec fn state(&self) -> WalkView<N, N::Error> {
        self@
    }

    open spec fn advanced(state: WalkView<N, N::Error>) -> (
        WalkView<N, N::Error>,
        Option<Result<N, N::Error>>,
    ) {
        (
            state.step(Strategy::Depth, fast_children_of::<N>()),
            state.emits(Strategy::Depth),
        )
    }

    open spec fn parts(state: WalkView<N, N::Error>) -> Option<
        (WalkView<N, N::Error>, WalkView<N, N::Error>),
    > {
        state.halves()
    }

    fn next(&mut self) -> (item: Option<Result<N, N::Error>>) {
        FastDfs::next(self)
    }

    fn split(&mut self) -> (half: Option<Self>) {
        FastDfs::split(self)
    }
}

} // verus!
