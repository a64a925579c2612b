//! Depth-first traversal with lookups that complete later.

use std::collections::HashSet;
use std::collections::VecDeque;
use vstd::prelude::*;

use crate::stream::Action;
use crate::stream::Event;
use crate::stream::Phase;
use crate::sync::queue::unvisited;
use crate::sync::walk::at_bound;
use crate::sync::walk::bound;
use crate::sync::Keyed;

verus! {

/// The mathematical content of a [`Dfs`].
pub ghost struct DfsView {
    /// The depths of the branches that are open, the active one last.
    pub stack: Seq<usize>,
    /// The depths of the lookups in flight, the next to be awaited first.
    pub pending: Seq<usize>,
    pub visited: Set<u64>,
    pub allow_circles: bool,
    pub max_depth: Option<usize>,
    pub phase: Phase,
}

impl DfsView {
    /// Turns to the active branch, or to the lookups where no branch is open.
    pub open spec fn pull<N, E>(self) -> (Self, Action<N, E>) {
        if self.stack.len() > 0 {
            (DfsView { phase: Phase::Emitting, ..self }, Action::PullBranch)
        } else if self.pending.len() > 0 {
            (DfsView { phase: Phase::AwaitingFetch, ..self }, Action::AwaitFetch)
        } else {
            (DfsView { phase: Phase::Idle, ..self }, Action::Finish)
        }
    }

    /// The traversal after `event`, and what the driver is told.
    ///
    /// A poll awaits the newest lookup before anything else, so that the
    /// children of the node emitted last come before its siblings. A node whose
    /// key was seen is passed over. A node below the bound has its lookup put
    /// first in line as it is emitted.
    pub open spec fn react<N: Keyed, E>(self, event: Event<N, E>) -> (Self, Action<N, E>) {
        match event {
            Event::Polled => if self.pending.len() > 0 {
                (DfsView { phase: Phase::AwaitingFetch, ..self }, Action::AwaitFetch)
            } else {
                self.pull()
            },
            Event::Fetched => if self.phase == Phase::AwaitingFetch && self.pending.len() > 0 {
                (DfsView {
                    stack: self.stack.push(self.pending.first()),
                    pending: self.pending.drop_first(),
                    ..self
                }).pull()
            } else {
                (self, Action::Unexpected)
            },
            Event::Item(item) => if self.phase == Phase::Emitting && self.stack.len() > 0 {
                match item {
                    Ok(node) => if !self.allow_circles && self.visited.contains(node.key_spec()) {
                        (self, Action::PullBranch)
                    } else {
                        let visited = if self.allow_circles {
                            self.visited
                        } else {
                            self.visited.insert(node.key_spec())
                        };
                        if self.stack.last() < bound(self.max_depth) {
                            let depth = (self.stack.last() + 1) as usize;
                            (
                                DfsView {
                                    pending: seq![depth] + self.pending,
                                    visited,
                                    phase: Phase::Idle,
                                    ..self
                                },
                                Action::Emit { item, fetch: Some(depth) },
                            )
                        } else {
                            (
                                DfsView { visited, phase: Phase::Idle, ..self },
                                Action::Emit { item, fetch: None },
                            )
                        }
                    },
                    Err(_) => (
                        DfsView { phase: Phase::Idle, ..self },
                        Action::Emit { item, fetch: None },
                    ),
                }
            } else {
                (self, Action::Unexpected)
            },
            Event::BranchEnded => if self.phase == Phase::Emitting && self.stack.len() > 0 {
                (DfsView { stack: self.stack.drop_last(), ..self }).pull()
            } else {
                (self, Action::Unexpected)
            },
        }
    }
}

/// Depth-first traversal in pre-order whose lookups complete later.
pub struct Dfs {
    stack: Vec<usize>,
    pending: VecDeque<usize>,
    max_depth: Option<usize>,
    allow_circles: bool,
    visited: HashSet<u64>,
    phase: Phase,
}

impl View for Dfs {
    type V = DfsView;

    closed spec fn view(&self) -> DfsView {
        DfsView {
            stack: self.stack@,
            pending: self.pending@,
            visited: self.visited@,
            allow_circles: self.allow_circles,
            max_depth: self.max_depth,
            phase: self.phase,
        }
    }
}

impl Dfs {
    /// Sets up the traversal below `root`: the lookup of its children at depth
    /// 1 is in flight, which the driver starts, and the root counts as seen.
    pub fn new<N: Keyed>(root: &N, max_depth: Option<usize>, allow_circles: bool) -> (dfs: Self)
        ensures
            dfs@ == (DfsView {
                stack: Seq::empty(),
                pending: seq![1usize],
                visited: set![root.key_spec()],
                allow_circles,
                max_depth,
                phase: Phase::Idle,
            }),
            dfs@.rising(),
    {
        let mut pending: VecDeque<usize> = VecDeque::new();
        pending.push_front(1);
        let mut visited: HashSet<u64> = HashSet::new();
        visited.insert(root.key());
        assert(pending@ =~= seq![1usize]);
        assert(visited@ =~= set![root.key_spec()]);
        Dfs { stack: Vec::new(), pending, max_depth, allow_circles, visited, phase: Phase::Idle }
    }

    fn pull<N, E>(&mut self) -> (action: Action<N, E>)
        ensures
            (final(self)@, action) == old(self)@.pull::<N, E>(),
    {
        if self.stack.len() > 0 {
            self.phase = Phase::Emitting;
            Action::PullBranch
        } else if self.pending.len() > 0 {
            self.phase = Phase::AwaitingFetch;
            Action::AwaitFetch
        } else {
            self.phase = Phase::Idle;
            Action::Finish
        }
    }

    /// Takes in `event` and tells the driver what to do next.
    pub fn step<N: Keyed, E>(&mut self, event: Event<N, E>) -> (action: Action<N, E>)
        ensures
            (final(self)@, action) == old(self)@.react(event),
    {
        match event {
            Event::Polled => {
                if self.pending.len() > 0 {
                    self.phase = Phase::AwaitingFetch;
                    Action::AwaitFetch
                } else {
                    self.pull()
                }
            },
            Event::Fetched => {
                if self.phase == Phase::AwaitingFetch {
                    if let Some(depth) = self.pending.pop_front() {
                        self.stack.push(depth);
                        return self.pull();
                    }
                }
                Action::Unexpected
            },
            Event::Item(item) => {
                if self.phase != Phase::Emitting || self.stack.len() == 0 {
                    return Action::Unexpected;
                }
                match item {
                    Ok(node) => {
                        if !self.allow_circles && !unvisited(&mut self.visited, node.key()) {
                            assert(self.visited@ =~= old(self).visited@);
                            return Action::PullBranch;
                        }
                        self.phase = Phase::Idle;
                        let depth = self.stack[self.stack.len() - 1];
                        if at_bound(self.max_depth, depth) {
                            Action::Emit { item: Ok(node), fetch: None }
                        } else {
                            self.pending.push_front(depth + 1);
                            Action::Emit { item: Ok(node), fetch: Some(depth + 1) }
                        }
                    },
                    Err(err) => {
                        self.phase = Phase::Idle;
                        Action::Emit { item: Err(err), fetch: None }
                    },
                }
            },
            Event::BranchEnded => {
                if self.phase != Phase::Emitting || self.stack.len() == 0 {
                    return Action::Unexpected;
                }
                self.stack.pop();
                self.pull()
            },
        }
    }
}

} // verus!
