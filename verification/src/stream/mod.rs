//! Traversals whose successor lookups complete later.
//!
//! A lookup of children is started when a node is emitted and awaited when
//! its turn comes. The traversals here hold no lookup themselves: they decide,
//! event by event, what the driver of the lookups does next, so that the order
//! of emission never depends on how fast a lookup completes.

use vstd::prelude::*;

pub mod bfs;
pub mod dfs;
pub mod laws;

verus! {

/// Where a traversal stands between two events.
#[derive(Debug, Clone, Copy, PartialEq, Eq, Structural)]
pub enum Phase {
    /// Nothing is being waited for.
    Idle,
    /// The next pending lookup is being awaited.
    AwaitingFetch,
    /// The next item of the active branch is being pulled.
    Emitting,
}

/// What the driver reports to a traversal.
pub enum Event<N, E> {
    /// The consumer asks for the next item.
    Polled,
    /// The pending lookup that was awaited has produced its branch. A lookup
    /// that failed counts as a branch with the failure as its only item.
    Fetched,
    /// The active branch has yielded this item.
    Item(Result<N, E>),
    /// The active branch has no more items.
    BranchEnded,
}

/// What a traversal tells the driver to do.
pub enum Action<N, E> {
    /// Await the pending lookup that is next in line, and report `Fetched`
    /// once it has completed.
    AwaitFetch,
    /// Pull the next item of the active branch, and report it.
    PullBranch,
    /// Hand `item` to the consumer. Where `fetch` holds a depth, first start
    /// the lookup of the children of the emitted node at that depth.
    Emit { item: Result<N, E>, fetch: Option<usize> },
    /// The traversal is exhausted.
    Finish,
    /// The event does not answer what the traversal last asked for; nothing
    /// has changed.
    Unexpected,
}

} // verus!
