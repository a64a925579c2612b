//! Breadth-first traversal with lookups that complete later.

use std::collections::HashSet;
use std::collections::VecDeque;
use vstd::prelude::*;

use crate::stream::Action;
use crate::stream::Event;
use crate::stream::Phase;
use crate::sync::queue::unvisited;
use crate::sync::walk::at_bound;
use crate::sync::walk::bound;
use crate::sync::Keyed;

verus! {

/// The mathematical content of a [`Bfs`].
pub ghost struct BfsView {
    /// The depth of the branch that is being emitted, if one is.
    pub current: Option<usize>,
    /// The depths of the lookups in flight, the next to be awaited first.
    pub pending: Seq<usize>,
    pub visited: Set<u64>,
    pub allow_circles: bool,
    pub max_depth: Option<usize>,
    pub phase: Phase,
}

impl BfsView {
    /// Turns to the lookups once no branch is being emitted.
    pub open spec fn fetch<N, E>(self) -> (Self, Action<N, E>) {
        if self.pending.len() > 0 {
            (BfsView { phase: Phase::AwaitingFetch, ..self }, Action::AwaitFetch)
        } else {
            (BfsView { phase: Phase::Idle, ..self }, Action::Finish)
        }
    }

    /// The traversal after `event`, and what the driver is told.
    ///
    /// A branch is emitted to its end before the oldest lookup is awaited. A
    /// node whose key was seen is passed over. A node below the bound has its
    /// lookup put last in line as it is emitted.
    pub open spec fn react<N: Keyed, E>(self, event: Event<N, E>) -> (Self, Action<N, E>) {
        match event {
            Event::Polled => if self.current is Some {
                (BfsView { phase: Phase::Emitting, ..self }, Action::PullBranch)
            } else {
                self.fetch()
            },
            Event::Fetched => if self.phase == Phase::AwaitingFetch && self.pending.len() > 0 {
                (
                    BfsView {
                        current: Some(self.pending.first()),
                        pending: self.pending.drop_first(),
                        phase: Phase::Emitting,
                        ..self
                    },
                    Action::PullBranch,
                )
            } else {
                (self, Action::Unexpected)
            },
            Event::Item(item) => if self.phase == Phase::Emitting && self.current is Some {
                match item {
                    Ok(node) => if !self.allow_circles && self.visited.contains(node.key_spec()) {
                        (self, Action::PullBranch)
                    } else {
                        let visited = if self.allow_circles {
                            self.visited
                        } else {
                            self.visited.insert(node.key_spec())
                        };
                        if self.current->0 < bound(self.max_depth) {
                            let depth = (self.current->0 + 1) as usize;
                            (
                                BfsView {
                                    pending: self.pending.push(depth),
                                    visited,
                                    phase: Phase::Idle,
                                    ..self
                                },
                                Action::Emit { item, fetch: Some(depth) },
                            )
                        } else {
                            (
                                BfsView { visited, phase: Phase::Idle, ..self },
                                Action::Emit { item, fetch: None },
                            )
                        }
                    },
                    Err(_) => (
                        BfsView { phase: Phase::Idle, ..self },
                        Action::Emit { item, fetch: None },
                    ),
                }
            } else {
                (self, Action::Unexpected)
            },
            Event::BranchEnded => if self.phase == Phase::Emitting && self.current is Some {
                (BfsView { current: None, ..self }).fetch()
            } else {
                (self, Action::Unexpected)
            },
        }
    }
}

/// Breadth-first traversal, level by level, whose lookups complete later.
pub struct Bfs {
    current: Option<usize>,
    pending: VecDeque<usize>,
    max_depth: Option<usize>,
    allow_circles: bool,
    visited: HashSet<u64>,
    phase: Phase,
}

impl View for Bfs {
    type V = BfsView;

    closed spec fn view(&self) -> BfsView {
        BfsView {
            current: self.current,
            pending: self.pending@,
            visited: self.visited@,
            allow_circles: self.allow_circles,
            max_depth: self.max_depth,
            phase: self.phase,
        }
    }
}

impl Bfs {
    /// Sets up the traversal below `root`: the lookup of its children at depth
    /// 1 is in flight, which the driver starts, and the root counts as seen.
    pub fn new<N: Keyed>(root: &N, max_depth: Option<usize>, allow_circles: bool) -> (bfs: Self)
        ensures
            bfs@ == (BfsView {
                current: None,
                pending: seq![1usize],
                visited: set![root.key_spec()],
                allow_circles,
                max_depth,
                phase: Phase::Idle,
            }),
            bfs@.leveled(),
    {
        let mut pending: VecDeque<usize> = VecDeque::new();
        pending.push_back(1);
        let mut visited: HashSet<u64> = HashSet::new();
        visited.insert(root.key());
        assert(pending@ =~= seq![1usize]);
        assert(visited@ =~= set![root.key_spec()]);
        Bfs { current: None, pending, max_depth, allow_circles, visited, phase: Phase::Idle }
    }

    fn fetch<N, E>(&mut self) -> (action: Action<N, E>)
        ensures
            (final(self)@, action) == old(self)@.fetch::<N, E>(),
    {
        if self.pending.len() > 0 {
            self.phase = Phase::AwaitingFetch;
            Action::AwaitFetch
        } else {
            self.phase = Phase::Idle;
            Action::Finish
        }
    }

    /// Takes in `event` and tells the driver what to do next.
    pub fn step<N: Keyed, E>(&mut self, event: Event<N, E>) -> (action: Action<N, E>)
        ensures
            (final(self)@, action) == old(self)@.react(event),
    {
        match event {
            Event::Polled => {
                if self.current.is_some() {
                    self.phase = Phase::Emitting;
                    Action::PullBranch
                } else {
                    self.fetch()
                }
            },
            Event::Fetched => {
                if self.phase == Phase::AwaitingFetch {
                    if let Some(depth) = self.pending.pop_front() {
                        self.current = Some(depth);
                        self.phase = Phase::Emitting;
                        return Action::PullBranch;
                    }
                }
                Action::Unexpected
            },
            Event::Item(item) => {
                if self.phase != Phase::Emitting {
                    return Action::Unexpected;
                }
                let depth = match self.current {
                    Some(depth) => depth,
                    None => {
                        return Action::Unexpected;
                    },
                };
                match item {
                    Ok(node) => {
                        if !self.allow_circles && !unvisited(&mut self.visited, node.key()) {
                            assert(self.visited@ =~= old(self).visited@);
                            return Action::PullBranch;
                        }
                        self.phase = Phase::Idle;
                        if at_bound(self.max_depth, depth) {
                            Action::Emit { item: Ok(node), fetch: None }
                        } else {
                            self.pending.push_back(depth + 1);
                            Action::Emit { item: Ok(node), fetch: Some(depth + 1) }
                        }
                    },
                    Err(err) => {
                        self.phase = Phase::Idle;
                        Action::Emit { item: Err(err), fetch: None }
                    },
                }
            },
            Event::BranchEnded => {
                if self.phase != Phase::Emitting || self.current.is_none() {
                    return Action::Unexpected;
                }
                self.current = None;
                self.fetch()
            },
        }
    }
}

} // verus!
