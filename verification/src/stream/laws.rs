//! What holds of every stream, whatever the driver reports and whenever.

use vstd::prelude::*;

use crate::stream::bfs::BfsView;
use crate::stream::dfs::DfsView;
use crate::stream::Action;
use crate::stream::Event;
use crate::stream::Phase;
use crate::sync::laws::all_at_most;
use crate::sync::laws::distinct_keys;
use crate::sync::laws::key_of;
use crate::sync::walk::bound;
use crate::sync::Keyed;

verus! {

impl BfsView {
    /// The traversal after a run of events, first to last.
    pub open spec fn run<N: Keyed, E>(self, events: Seq<Event<N, E>>) -> Self
        decreases events.len(),
    {
        if events.len() == 0 {
            self
        } else {
            self.run(events.drop_last()).react(events.last()).0
        }
    }

    /// What the traversal emits over a run of events, in order, each item with
    /// the depth of the branch it came from.
    pub open spec fn outputs<N: Keyed, E>(self, events: Seq<Event<N, E>>) -> Seq<
        (usize, Result<N, E>),
    >
        decreases events.len(),
    {
        if events.len() == 0 {
            Seq::empty()
        } else {
            let before = self.run(events.drop_last());
            match before.react(events.last()).1 {
                Action::Emit { item, fetch } => self.outputs(events.drop_last()).push(
                    (before.current->0, item),
                ),
                _ => self.outputs(events.drop_last()),
            }
        }
    }

    /// The depths that are still to come, in the order of their turn: that of
    /// the branch being emitted, then those of the lookups in flight.
    pub open spec fn line(self) -> Seq<usize> {
        match self.current {
            Some(depth) => seq![depth] + self.pending,
            None => self.pending,
        }
    }

    /// Whether what is still to come lies level by level: no depth is less
    /// than the one before it, and none is more than one level below the first.
    pub open spec fn leveled(self) -> bool {
        &&& forall|i: int, j: int|
            0 <= i <= j < self.line().len() ==> #[trigger] self.line()[i] <= #[trigger] self.line()[j]
        &&& forall|i: int|
            0 <= i < self.line().len() ==> #[trigger] self.line()[i] <= self.line().first() + 1
    }
}

impl DfsView {
    /// The traversal after a run of events, first to last.
    pub open spec fn run<N: Keyed, E>(self, events: Seq<Event<N, E>>) -> Self
        decreases events.len(),
    {
        if events.len() == 0 {
            self
        } else {
            self.run(events.drop_last()).react(events.last()).0
        }
    }

    /// What the traversal emits over a run of events, in order, each item with
    /// the depth of the branch it came from.
    pub open spec fn outputs<N: Keyed, E>(self, events: Seq<Event<N, E>>) -> Seq<
        (usize, Result<N, E>),
    >
        decreases events.len(),
    {
        if events.len() == 0 {
            Seq::empty()
        } else {
            let before = self.run(events.drop_last());
            match before.react(events.last()).1 {
                Action::Emit { item, fetch } => self.outputs(events.drop_last()).push(
                    (before.stack.last(), item),
                ),
                _ => self.outputs(events.drop_last()),
            }
        }
    }
}

/// Whether every node among the entries counts as seen.
pub open spec fn all_seen<N: Keyed, E>(entries: Seq<(usize, Result<N, E>)>, visited: Set<u64>) -> bool {
    forall|i: int|
        0 <= i < entries.len() && (#[trigger] entries[i]).1 is Ok ==> visited.contains(
            key_of(entries[i]),
        )
}

/// A breadth-first stream that suppresses repeats emits no node twice,
/// whatever the driver reports: no two emitted items hold nodes with the same
/// key, and every emitted node counts as seen.
pub proof fn lemma_bfs_stream_no_repeats<N: Keyed, E>(start: BfsView, events: Seq<Event<N, E>>)
    requires
        !start.allow_circles,
    ensures
        !start.run(events).allow_circles,
        start.visited.subset_of(start.run(events).visited),
        distinct_keys(start.outputs(events)),
        all_seen(start.outputs(events), start.run(events).visited),
    decreases events.len(),
{
    if events.len() > 0 {
        lemma_bfs_stream_no_repeats(start, events.drop_last());
        let before = start.run(events.drop_last());
        let early = start.outputs(events.drop_last());
        let late = start.outputs(events);
        assert forall|i: int, j: int|
            0 <= i < j < late.len() && (#[trigger] late[i]).1 is Ok && (
            #[trigger] late[j]).1 is Ok implies key_of(late[i]) != key_of(late[j]) by {
            if j < early.len() {
                assert(late[i] == early[i] && late[j] == early[j]);
            } else {
                assert(late[i] == early[i]);
            }
        }
        assert forall|i: int|
            0 <= i < late.len() && (#[trigger] late[i]).1 is Ok implies start.run(
            events,
        ).visited.contains(key_of(late[i])) by {
            if i < early.len() {
                assert(late[i] == early[i]);
            }
        }
    }
}

/// A depth-first stream that suppresses repeats emits no node twice, whatever
/// the driver reports.
pub proof fn lemma_dfs_stream_no_repeats<N: Keyed, E>(start: DfsView, events: Seq<Event<N, E>>)
    requires
        !start.allow_circles,
    ensures
        !start.run(events).allow_circles,
        start.visited.subset_of(start.run(events).visited),
        distinct_keys(start.outputs(events)),
        all_seen(start.outputs(events), start.run(events).visited),
    decreases events.len(),
{
    if events.len() > 0 {
        lemma_dfs_stream_no_repeats(start, events.drop_last());
        let before = start.run(events.drop_last());
        let early = start.outputs(events.drop_last());
        let late = start.outputs(events);
        assert forall|i: int, j: int|
            0 <= i < j < late.len() && (#[trigger] late[i]).1 is Ok && (
            #[trigger] late[j]).1 is Ok implies key_of(late[i]) != key_of(late[j]) by {
            if j < early.len() {
                assert(late[i] == early[i] && late[j] == early[j]);
            } else {
                assert(late[i] == early[i]);
            }
        }
        assert forall|i: int|
            0 <= i < late.len() && (#[trigger] late[i]).1 is Ok implies start.run(
            events,
        ).visited.contains(key_of(late[i])) by {
            if i < early.len() {
                assert(late[i] == early[i]);
            }
        }
    }
}

/// A breadth-first stream emits level by level, however long any lookup
/// takes: of any two emitted items, the later one comes from a branch at least
/// as deep as that of the earlier one.
pub proof fn lemma_bfs_stream_monotone<N: Keyed, E>(start: BfsView, events: Seq<Event<N, E>>)
    requires
        start.leveled(),
    ensures
        start.run(events).leveled(),
        forall|i: int, j: int|
            0 <= i <= j < start.outputs(events).len() ==> (#[trigger] start.outputs(events)[i]).0
                <= (#[trigger] start.outputs(events)[j]).0,
        forall|i: int, k: int|
            0 <= i < start.outputs(events).len() && 0 <= k < start.run(events).line().len() ==> (
            #[trigger] start.outputs(events)[i]).0 <= #[trigger] start.run(events).line()[k],
    decreases events.len(),
{
    if events.len() > 0 {
        lemma_bfs_stream_monotone(start, events.drop_last());
        let before = start.run(events.drop_last());
        let after = start.run(events);
        let early = start.outputs(events.drop_last());
        let late = start.outputs(events);
        let event = events.last();
        assert(after == before.react(event).0);
        // how the line changes with the event
        match event {
            Event::Polled => {
                assert(after.line() =~= before.line());
            },
            Event::Fetched => {
                if before.phase == Phase::AwaitingFetch && before.pending.len() > 0 {
                    assert(after.line() =~= if before.current is Some {
                        before.line().drop_first()
                    } else {
                        before.line()
                    });
                } else {
                    assert(after.line() =~= before.line());
                }
            },
            Event::Item(item) => {
                if before.phase == Phase::Emitting && before.current is Some {
                    match item {
                        Ok(node) => {
                            if !before.allow_circles && before.visited.contains(node.key_spec()) {
                                assert(after.line() =~= before.line());
                            } else if before.current->0 < bound(before.max_depth) {
                                assert(after.line() =~= before.line().push(
                                    (before.current->0 + 1) as usize,
                                ));
                                assert(before.line()[0] == before.current->0);
                            } else {
                                assert(after.line() =~= before.line());
                            }
                        },
                        Err(_) => {
                            assert(after.line() =~= before.line());
                        },
                    }
                    assert(before.line()[0] == before.current->0);
                } else {
                    assert(after.line() =~= before.line());
                }
            },
            Event::BranchEnded => {
                if before.phase == Phase::Emitting && before.current is Some {
                    assert(after.line() =~= before.line().drop_first());
                } else {
                    assert(after.line() =~= before.line());
                }
            },
        }
        assert(after.leveled()) by {
            assert forall|i: int, j: int| 0 <= i <= j < after.line().len() implies after.line()[i]
                <= after.line()[j] by {
                if after.line().len() == before.line().len() + 1 {
                    if j < before.line().len() {
                        assert(after.line()[i] == before.line()[i]);
                        assert(after.line()[j] == before.line()[j]);
                    } else if i < before.line().len() {
                        assert(after.line()[i] == before.line()[i]);
                    }
                } else if after.line().len() + 1 == before.line().len() {
                    assert(after.line()[i] == before.line()[i + 1]);
                    assert(after.line()[j] == before.line()[j + 1]);
                }
            }
            assert forall|i: int| 0 <= i < after.line().len() implies after.line()[i]
                <= after.line().first() + 1 by {
                if after.line().len() == before.line().len() + 1 {
                    if i < before.line().len() {
                        assert(after.line()[i] == before.line()[i]);
                    }
                    assert(after.line()[0] == before.line()[0]);
                } else if after.line().len() + 1 == before.line().len() {
                    assert(after.line()[i] == before.line()[i + 1]);
                    assert(after.line()[0] == before.line()[1]);
                    assert(before.line()[0] <= before.line()[1]);
                }
            }
        }
        assert forall|i: int, k: int|
            0 <= i < late.len() && 0 <= k < after.line().len() implies (#[trigger] late[i]).0
            <= #[trigger] after.line()[k] by {
            if after.line().len() == before.line().len() + 1 {
                if k < before.line().len() {
                    assert(after.line()[k] == before.line()[k]);
                }
                if i < early.len() {
                    assert(late[i] == early[i]);
                    assert(early[i].0 <= before.line()[0]);
                }
            } else if after.line().len() + 1 == before.line().len() {
                assert(after.line()[k] == before.line()[k + 1]);
                if i < early.len() {
                    assert(late[i] == early[i]);
                }
            } else {
                assert(after.line()[k] == before.line()[k]);
                if i < early.len() {
                    assert(late[i] == early[i]);
                } else {
                    assert(before.line()[0] <= before.line()[k]);
                }
            }
        }
        assert forall|i: int, j: int| 0 <= i <= j < late.len() implies (#[trigger] late[i]).0 <= (
        #[trigger] late[j]).0 by {
            if j < early.len() {
                assert(late[i] == early[i] && late[j] == early[j]);
            } else if i < early.len() {
                assert(late[i] == early[i]);
                assert(early[i].0 <= before.line()[0]);
            }
        }
    }
}

/// Whether no depth in the sequence is greater than `cap`.
pub open spec fn depths_at_most(depths: Seq<usize>, cap: int) -> bool {
    forall|i: int| 0 <= i < depths.len() ==> #[trigger] depths[i] <= cap
}

/// A breadth-first stream emits nothing deeper than its bound: where the
/// bound and everything still to come lie at `cap` or less, so does every
/// emitted item, whatever the driver reports.
pub proof fn lemma_bfs_stream_bounded<N: Keyed, E>(
    start: BfsView,
    events: Seq<Event<N, E>>,
    cap: int,
)
    requires
        bound(start.max_depth) <= cap,
        depths_at_most(start.line(), cap),
    ensures
        start.run(events).max_depth == start.max_depth,
        depths_at_most(start.run(events).line(), cap),
        all_at_most(start.outputs(events), cap),
    decreases events.len(),
{
    if events.len() > 0 {
        lemma_bfs_stream_bounded(start, events.drop_last(), cap);
        let before = start.run(events.drop_last());
        let after = start.run(events);
        let early = start.outputs(events.drop_last());
        let late = start.outputs(events);
        if before.current is Some {
            assert(before.line()[0] == before.current->0);
            assert forall|i: int| 0 <= i < before.pending.len() implies #[trigger] before.pending[i]
                <= cap by {
                assert(before.line()[i + 1] == before.pending[i]);
            }
        } else {
            assert(before.line() =~= before.pending);
        }
        assert forall|i: int| 0 <= i < after.line().len() implies #[trigger] after.line()[i]
            <= cap by {
            if after.current is Some {
                if i > 0 {
                    assert(after.line()[i] == after.pending[i - 1]);
                    if after.pending.len() == before.pending.len() + 1 {
                        if i - 1 < before.pending.len() {
                            assert(after.pending[i - 1] == before.pending[i - 1]);
                        }
                    } else if after.pending.len() + 1 == before.pending.len() {
                        assert(after.pending[i - 1] == before.pending[i]);
                    } else {
                        assert(after.pending[i - 1] == before.pending[i - 1]);
                    }
                } else {
                    assert(after.line()[0] == after.current->0);
                    if before.current is None {
                        assert(after.current->0 == before.pending[0]);
                    }
                }
            } else {
                assert(after.line()[i] == after.pending[i]);
                assert(after.pending == before.pending);
            }
        }
        assert forall|i: int| 0 <= i < late.len() implies (#[trigger] late[i]).0 <= cap by {
            if i < early.len() {
                assert(late[i] == early[i]);
            }
        }
    }
}

impl DfsView {
    /// Whether the open branches lie one below the other and at most one
    /// lookup is in flight, which is then the next thing to happen and lies
    /// below the active branch.
    pub open spec fn rising(self) -> bool {
        &&& forall|i: int, j: int|
            0 <= i < j < self.stack.len() ==> #[trigger] self.stack[i] < #[trigger] self.stack[j]
        &&& self.pending.len() <= 1
        &&& self.pending.len() == 1 ==> self.phase != Phase::Emitting && (self.stack.len() > 0
            ==> self.pending[0] > self.stack.last())
    }

    /// Whether `base` lies untouched at the bottom of the stack and everything
    /// above it, the lookup in flight included, is deeper than `depth`.
    pub open spec fn above(self, base: Seq<usize>, depth: int) -> bool {
        &&& base.len() <= self.stack.len()
        &&& forall|i: int| 0 <= i < base.len() ==> self.stack[i] == base[i]
        &&& forall|i: int| base.len() <= i < self.stack.len() ==> #[trigger] self.stack[i] > depth
        &&& self.pending.len() > 0 ==> self.pending[0] > depth
    }

    /// Whether something above a stack of `height` branches is open or about
    /// to be opened.
    pub open spec fn busy_above(self, height: nat) -> bool {
        self.stack.len() > height || self.pending.len() > 0
    }
}

/// A depth-first stream keeps its branches one below the other, whatever the
/// driver reports.
pub proof fn lemma_dfs_stream_rising<N: Keyed, E>(start: DfsView, events: Seq<Event<N, E>>)
    requires
        start.rising(),
    ensures
        start.run(events).rising(),
    decreases events.len(),
{
    if events.len() > 0 {
        lemma_dfs_stream_rising(start, events.drop_last());
        let before = start.run(events.drop_last());
        let after = start.run(events);
        assert(after == before.react(events.last()).0);
        assert forall|i: int, j: int| 0 <= i < j < after.stack.len() implies #[trigger] after.stack[i]
            < #[trigger] after.stack[j] by {
            if after.stack.len() == before.stack.len() + 1 {
                if j < before.stack.len() {
                    assert(after.stack[i] == before.stack[i] && after.stack[j] == before.stack[j]);
                } else {
                    assert(after.stack[i] == before.stack[i]);
                    assert(before.stack[i] <= before.stack.last());
                }
            } else {
                assert(after.stack[i] == before.stack[i] && after.stack[j] == before.stack[j]);
            }
        }
    }
}

/// A depth-first stream emits in pre-order, however long any lookup takes.
/// While something above `base` is open or about to be opened, every emitted
/// item comes from a branch deeper than `depth`, and `base` stays untouched:
/// all that is found below a node comes before the node's next sibling.
pub proof fn lemma_dfs_stream_descendants_first<N: Keyed, E>(
    start: DfsView,
    events: Seq<Event<N, E>>,
    base: Seq<usize>,
    depth: int,
)
    requires
        start.rising(),
        start.above(base, depth),
        forall|m: int|
            0 <= m < events.len() ==> (#[trigger] start.run(events.take(m))).busy_above(base.len()),
    ensures
        start.run(events).rising(),
        start.run(events).above(base, depth),
        forall|i: int|
            0 <= i < start.outputs(events).len() ==> (#[trigger] start.outputs(events)[i]).0 > depth,
    decreases events.len(),
{
    if events.len() > 0 {
        let prefix = events.drop_last();
        assert forall|m: int| 0 <= m < prefix.len() implies (#[trigger] start.run(
            prefix.take(m),
        )).busy_above(base.len()) by {
            assert(prefix.take(m) =~= events.take(m));
        }
        lemma_dfs_stream_descendants_first(start, prefix, base, depth);
        lemma_dfs_stream_rising(start, events);
        let before = start.run(prefix);
        let after = start.run(events);
        let early = start.outputs(prefix);
        let late = start.outputs(events);
        assert(events.take(events.len() - 1) =~= prefix);
        assert(before.busy_above(base.len()));
        assert(after == before.react(events.last()).0);
        assert(after.above(base, depth)) by {
            assert forall|i: int| 0 <= i < base.len() implies after.stack[i] == base[i] by {
                assert(before.stack[i] == base[i]);
            }
            assert forall|i: int| base.len() <= i < after.stack.len() implies #[trigger] after.stack[i]
                > depth by {
                if i < before.stack.len() {
                    assert(after.stack[i] == before.stack[i]);
                }
            }
        }
        assert forall|i: int| 0 <= i < late.len() implies (#[trigger] late[i]).0 > depth by {
            if i < early.len() {
                assert(late[i] == early[i]);
            }
        }
    }
}

/// A depth-first stream emits nothing deeper than its bound: where the bound
/// and everything open or in flight lie at `cap` or less, so does every
/// emitted item, whatever the driver reports.
pub proof fn lemma_dfs_stream_bounded<N: Keyed, E>(
    start: DfsView,
    events: Seq<Event<N, E>>,
    cap: int,
)
    requires
        bound(start.max_depth) <= cap,
        depths_at_most(start.stack, cap),
        depths_at_most(start.pending, cap),
    ensures
        start.run(events).max_depth == start.max_depth,
        depths_at_most(start.run(events).stack, cap),
        depths_at_most(start.run(events).pending, cap),
        all_at_most(start.outputs(events), cap),
    decreases events.len(),
{
    if events.len() > 0 {
        lemma_dfs_stream_bounded(start, events.drop_last(), cap);
        let before = start.run(events.drop_last());
        let after = start.run(events);
        let early = start.outputs(events.drop_last());
        let late = start.outputs(events);
        assert forall|i: int| 0 <= i < after.stack.len() implies #[trigger] after.stack[i] <= cap by {
            if i < before.stack.len() {
                assert(after.stack[i] == before.stack[i]);
            } else {
                assert(after.stack[i] == before.pending[0]);
            }
        }
        assert forall|i: int| 0 <= i < after.pending.len() implies #[trigger] after.pending[i]
            <= cap by {
            if after.pending.len() == before.pending.len() + 1 {
                if i > 0 {
                    assert(after.pending[i] == before.pending[i - 1]);
                }
            } else if after.pending.len() + 1 == before.pending.len() {
                assert(after.pending[i] == before.pending[i + 1]);
            } else {
                assert(after.pending[i] == before.pending[i]);
            }
        }
        assert forall|i: int| 0 <= i < late.len() implies (#[trigger] late[i]).0 <= cap by {
            if i < early.len() {
                assert(late[i] == early[i]);
            }
        }
    }
}

} // verus!
