//! What a traversal that follows every child emits in all, whatever the order
//! and however its queue is split.

use vstd::multiset::Multiset;
use vstd::prelude::*;

use crate::sync::laws::lemma_offer_all_shape;
use crate::sync::laws::lemma_split_covers;
use crate::sync::walk::bound;
use crate::sync::walk::Strategy;
use crate::sync::walk::WalkView;
use crate::sync::Keyed;

verus! {

/// The depths of everything that outcomes recorded at `depth` lead to: each
/// outcome itself and, for a node above `limit`, all that its children lead to.
pub open spec fn brood<I, E>(
    items: Seq<Result<I, E>>,
    depth: usize,
    limit: usize,
    expand: spec_fn(I, usize) -> Seq<Result<I, E>>,
) -> Multiset<usize>
    decreases limit - depth, items.len(),
{
    if items.len() == 0 {
        Multiset::empty()
    } else {
        brood(items.drop_last(), depth, limit, expand).insert(depth).add(
            match items.last() {
                Ok(node) => if depth < limit {
                    brood(expand(node, (depth + 1) as usize), (depth + 1) as usize, limit, expand)
                } else {
                    Multiset::empty()
                },
                Err(_) => Multiset::empty(),
            },
        )
    }
}

/// The depths of everything below one entry, the entry left out.
pub open spec fn below<I, E>(
    entry: (usize, Result<I, E>),
    limit: usize,
    expand: spec_fn(I, usize) -> Seq<Result<I, E>>,
) -> Multiset<usize> {
    match entry.1 {
        Ok(node) => if entry.0 < limit {
            brood(expand(node, (entry.0 + 1) as usize), (entry.0 + 1) as usize, limit, expand)
        } else {
            Multiset::empty()
        },
        Err(_) => Multiset::empty(),
    }
}

/// The depths of everything that the buffered entries lead to, themselves
/// included.
pub open spec fn forest<I, E>(
    entries: Seq<(usize, Result<I, E>)>,
    limit: usize,
    expand: spec_fn(I, usize) -> Seq<Result<I, E>>,
) -> Multiset<usize>
    decreases entries.len(),
{
    if entries.len() == 0 {
        Multiset::empty()
    } else {
        forest(entries.drop_last(), limit, expand).insert(entries.last().0).add(
            below(entries.last(), limit, expand),
        )
    }
}

/// The depths at which the entries are recorded.
pub open spec fn depths<I, E>(entries: Seq<(usize, Result<I, E>)>) -> Multiset<usize>
    decreases entries.len(),
{
    if entries.len() == 0 {
        Multiset::empty()
    } else {
        depths(entries.drop_last()).insert(entries.last().0)
    }
}

/// The depths of two runs of entries, one after the other, are the depths of
/// both.
pub proof fn lemma_depths_concat<I, E>(
    first: Seq<(usize, Result<I, E>)>,
    second: Seq<(usize, Result<I, E>)>,
)
    ensures
        depths(first + second) == depths(first).add(depths(second)),
    decreases second.len(),
{
    if second.len() == 0 {
        assert(first + second =~= first);
        assert(depths(first).add(depths(second)) =~= depths(first));
    } else {
        assert((first + second).drop_last() =~= first + second.drop_last());
        lemma_depths_concat(first, second.drop_last());
        assert(depths(first + second) =~= depths(first).add(depths(second)));
    }
}

/// What two runs of entries lead to, one after the other, is what both lead to.
pub proof fn lemma_forest_concat<I, E>(
    first: Seq<(usize, Result<I, E>)>,
    second: Seq<(usize, Result<I, E>)>,
    limit: usize,
    expand: spec_fn(I, usize) -> Seq<Result<I, E>>,
)
    ensures
        forest(first + second, limit, expand) == forest(first, limit, expand).add(
            forest(second, limit, expand),
        ),
    decreases second.len(),
{
    if second.len() == 0 {
        assert(first + second =~= first);
        assert(forest(first, limit, expand).add(forest(second, limit, expand)) =~= forest(
            first,
            limit,
            expand,
        ));
    } else {
        assert((first + second).drop_last() =~= first + second.drop_last());
        lemma_forest_concat(first, second.drop_last(), limit, expand);
        assert(forest(first + second, limit, expand) =~= forest(first, limit, expand).add(
            forest(second, limit, expand),
        ));
    }
}

/// What outcomes buffered at one depth lead to is their brood.
pub proof fn lemma_forest_of_batch<I, E>(
    items: Seq<Result<I, E>>,
    depth: usize,
    limit: usize,
    expand: spec_fn(I, usize) -> Seq<Result<I, E>>,
)
    ensures
        forest(items.map_values(|item: Result<I, E>| (depth, item)), limit, expand) == brood(
            items,
            depth,
            limit,
            expand,
        ),
    decreases items.len(),
{
    let tag = |item: Result<I, E>| (depth, item);
    if items.len() > 0 {
        assert(items.map_values(tag).drop_last() =~= items.drop_last().map_values(tag));
        lemma_forest_of_batch(items.drop_last(), depth, limit, expand);
    }
}

/// One step of a traversal that follows every child emits one entry and
/// leaves in the queue what leads to all the rest.
pub proof fn lemma_step_conserves<I: Keyed, E>(
    walk: WalkView<I, E>,
    strategy: Strategy,
    expand: spec_fn(I, usize) -> Seq<Result<I, E>>,
)
    requires
        walk.queue.allow_circles,
        !walk.exhausted(),
    ensures
        walk.step(strategy, expand).queue.allow_circles,
        forest(walk.step(strategy, expand).queue.entries, bound(walk.max_depth), expand).insert(
            walk.taken(strategy).0,
        ) == forest(walk.queue.entries, bound(walk.max_depth), expand),
{
    let limit = bound(walk.max_depth);
    let entry = walk.taken(strategy);
    let rest = walk.rest(strategy);
    let after = walk.step(strategy, expand).queue;
    let own = forest(seq![entry], limit, expand);
    assert(seq![entry].drop_last() =~= Seq::<(usize, Result<I, E>)>::empty());
    assert(forest(Seq::<(usize, Result<I, E>)>::empty(), limit, expand) =~= Multiset::empty());
    assert(seq![entry].last() == entry);
    assert(own =~= below(entry, limit, expand).insert(entry.0));
    match strategy {
        Strategy::Breadth => {
            assert(walk.queue.entries =~= seq![entry] + rest.entries);
            lemma_forest_concat(seq![entry], rest.entries, limit, expand);
        },
        Strategy::Depth => {
            assert(walk.queue.entries =~= rest.entries + seq![entry]);
            lemma_forest_concat(rest.entries, seq![entry], limit, expand);
        },
    }
    assert(forest(walk.queue.entries, limit, expand) =~= forest(rest.entries, limit, expand).add(
        own,
    ));
    match entry.1 {
        Ok(node) => {
            if entry.0 < limit {
                let deeper = (entry.0 + 1) as usize;
                let items = expand(node, deeper);
                lemma_offer_all_shape(rest, deeper, items);
                lemma_forest_concat(
                    rest.entries,
                    items.map_values(|item: Result<I, E>| (deeper, item)),
                    limit,
                    expand,
                );
                lemma_forest_of_batch(items, deeper, limit, expand);
            }
        },
        Err(_) => {},
    }
    assert(forest(after.entries, limit, expand) =~= forest(rest.entries, limit, expand).add(
        below(entry, limit, expand),
    ));
    assert(forest(after.entries, limit, expand).insert(entry.0) =~= forest(
        walk.queue.entries,
        limit,
        expand,
    ));
}

/// Nothing is lost and nothing is made up: at any point of a traversal that
/// follows every child, what was emitted together with what the queue still
/// leads to is what the queue led to at the start.
pub proof fn lemma_yield_conserved<I: Keyed, E>(
    walk: WalkView<I, E>,
    strategy: Strategy,
    expand: spec_fn(I, usize) -> Seq<Result<I, E>>,
    steps: nat,
)
    requires
        walk.queue.allow_circles,
    ensures
        depths(walk.trace(strategy, expand, steps)).add(
            forest(
                walk.run(strategy, expand, steps).queue.entries,
                bound(walk.max_depth),
                expand,
            ),
        ) == forest(walk.queue.entries, bound(walk.max_depth), expand),
    decreases steps,
{
    let limit = bound(walk.max_depth);
    let total = forest(walk.queue.entries, limit, expand);
    if steps == 0 {
        assert(depths(walk.trace(strategy, expand, steps)).add(total) =~= total);
    } else if walk.exhausted() {
        lemma_yield_conserved(walk, strategy, expand, (steps - 1) as nat);
        assert(walk.step(strategy, expand) == walk);
        assert(walk.trace(strategy, expand, (steps - 1) as nat) =~= walk.trace(
            strategy,
            expand,
            steps,
        ));
    } else {
        let entry = walk.taken(strategy);
        let next = walk.step(strategy, expand);
        let tail = next.trace(strategy, expand, (steps - 1) as nat);
        lemma_step_conserves(walk, strategy, expand);
        lemma_yield_conserved(next, strategy, expand, (steps - 1) as nat);
        lemma_depths_concat(seq![entry], tail);
        assert(seq![entry].drop_last() =~= Seq::<(usize, Result<I, E>)>::empty());
        assert(depths(Seq::<(usize, Result<I, E>)>::empty()) =~= Multiset::empty());
        assert(seq![entry].last() == entry);
        assert(depths(seq![entry]) =~= Multiset::empty().insert(entry.0));
        let left = forest(next.run(strategy, expand, (steps - 1) as nat).queue.entries, limit, expand);
        assert(depths(walk.trace(strategy, expand, steps)).add(left) =~= depths(tail).add(
            left,
        ).insert(entry.0));
    }
}

/// A traversal that follows every child and has run to its end has emitted
/// exactly what its queue led to at the start, whatever the order.
pub proof fn lemma_exhausted_yield<I: Keyed, E>(
    walk: WalkView<I, E>,
    strategy: Strategy,
    expand: spec_fn(I, usize) -> Seq<Result<I, E>>,
    steps: nat,
)
    requires
        walk.queue.allow_circles,
        walk.run(strategy, expand, steps).exhausted(),
    ensures
        depths(walk.trace(strategy, expand, steps)) == forest(
            walk.queue.entries,
            bound(walk.max_depth),
            expand,
        ),
{
    lemma_yield_conserved(walk, strategy, expand, steps);
    let left = forest(
        walk.run(strategy, expand, steps).queue.entries,
        bound(walk.max_depth),
        expand,
    );
    assert(left =~= Multiset::empty());
    assert(depths(walk.trace(strategy, expand, steps)).add(left) =~= depths(
        walk.trace(strategy, expand, steps),
    ));
}

/// A split loses nothing: what the two halves lead to is what the queue led
/// to before the split.
pub proof fn lemma_split_conserves_yield<I, E>(
    walk: WalkView<I, E>,
    expand: spec_fn(I, usize) -> Seq<Result<I, E>>,
)
    requires
        walk.queue.entries.len() >= 2,
    ensures
        forest(walk.kept_half().queue.entries, bound(walk.max_depth), expand).add(
            forest(walk.given_half().queue.entries, bound(walk.max_depth), expand),
        ) == forest(walk.queue.entries, bound(walk.max_depth), expand),
{
    lemma_split_covers(walk);
    lemma_forest_concat(
        walk.kept_half().queue.entries,
        walk.given_half().queue.entries,
        bound(walk.max_depth),
        expand,
    );
}

/// Splitting changes the order of emission and nothing else. Where a
/// traversal that follows every child is run to its end in one piece, and its
/// two halves are run to their ends each on its own, in whatever order each,
/// the depths emitted by the halves together are the depths emitted by the
/// whole.
pub proof fn lemma_parallel_matches_sequential<I: Keyed, E>(
    walk: WalkView<I, E>,
    expand: spec_fn(I, usize) -> Seq<Result<I, E>>,
    whole: (Strategy, nat),
    kept: (Strategy, nat),
    given: (Strategy, nat),
)
    requires
        walk.queue.allow_circles,
        walk.queue.entries.len() >= 2,
        walk.run(whole.0, expand, whole.1).exhausted(),
        walk.kept_half().run(kept.0, expand, kept.1).exhausted(),
        walk.given_half().run(given.0, expand, given.1).exhausted(),
    ensures
        depths(walk.kept_half().trace(kept.0, expand, kept.1)).add(
            depths(walk.given_half().trace(given.0, expand, given.1)),
        ) == depths(walk.trace(whole.0, expand, whole.1)),
{
    lemma_split_covers(walk);
    lemma_split_conserves_yield(walk, expand);
    lemma_exhausted_yield(walk, whole.0, expand, whole.1);
    lemma_exhausted_yield(walk.kept_half(), kept.0, expand, kept.1);
    lemma_exhausted_yield(walk.given_half(), given.0, expand, given.1);
}

/// How a traversal is run by workers that split it: all in one piece, or
/// advanced by some steps, then split, with each half run in its own way.
pub ghost enum Schedule {
    /// The traversal is advanced by this many steps and not split.
    Drain(nat),
    /// The traversal is advanced by this many steps and then split; the first
    /// schedule is that of the kept half, the second that of the given half.
    Fork(nat, Box<Schedule>, Box<Schedule>),
}

impl<I: Keyed, E> WalkView<I, E> {
    /// Whether `schedule` runs this traversal to its end: every split finds
    /// two entries to part, and every piece that is not split is exhausted.
    pub open spec fn completed_by(
        self,
        strategy: Strategy,
        expand: spec_fn(I, usize) -> Seq<Result<I, E>>,
        schedule: Schedule,
    ) -> bool
        decreases schedule,
    {
        match schedule {
            Schedule::Drain(steps) => self.run(strategy, expand, steps).exhausted(),
            Schedule::Fork(steps, kept, given) => {
                let reached = self.run(strategy, expand, steps);
                &&& reached.queue.entries.len() >= 2
                &&& reached.kept_half().completed_by(strategy, expand, *kept)
                &&& reached.given_half().completed_by(strategy, expand, *given)
            },
        }
    }

    /// The depths of all that the workers emit when they run this traversal
    /// by `schedule`.
    pub open spec fn emitted_by(
        self,
        strategy: Strategy,
        expand: spec_fn(I, usize) -> Seq<Result<I, E>>,
        schedule: Schedule,
    ) -> Multiset<usize>
        decreases schedule,
    {
        match schedule {
            Schedule::Drain(steps) => depths(self.trace(strategy, expand, steps)),
            Schedule::Fork(steps, kept, given) => {
                let reached = self.run(strategy, expand, steps);
                depths(self.trace(strategy, expand, steps)).add(
                    reached.kept_half().emitted_by(strategy, expand, *kept),
                ).add(reached.given_half().emitted_by(strategy, expand, *given))
            },
        }
    }
}

/// A traversal that follows every child goes on doing so, under the same
/// depth bound.
pub proof fn lemma_run_keeps_following<I: Keyed, E>(
    walk: WalkView<I, E>,
    strategy: Strategy,
    expand: spec_fn(I, usize) -> Seq<Result<I, E>>,
    steps: nat,
)
    requires
        walk.queue.allow_circles,
    ensures
        walk.run(strategy, expand, steps).queue.allow_circles,
        walk.run(strategy, expand, steps).max_depth == walk.max_depth,
    decreases steps,
{
    if steps > 0 {
        if !walk.exhausted() {
            lemma_step_conserves(walk, strategy, expand);
        }
        lemma_run_keeps_following(walk.step(strategy, expand), strategy, expand, (steps - 1) as nat);
    }
}

/// Running in parallel changes the order of emission and nothing else.
/// However often the workers split a traversal that follows every child, and
/// however far each advances its piece before it splits again, once every
/// piece has run to its end the depths emitted in all are the depths that the
/// traversal emits when it is run to its end in one piece: nothing is lost
/// and nothing is emitted twice.
pub proof fn lemma_schedule_yield<I: Keyed, E>(
    walk: WalkView<I, E>,
    strategy: Strategy,
    expand: spec_fn(I, usize) -> Seq<Result<I, E>>,
    schedule: Schedule,
)
    requires
        walk.queue.allow_circles,
        walk.completed_by(strategy, expand, schedule),
    ensures
        walk.emitted_by(strategy, expand, schedule) == forest(
            walk.queue.entries,
            bound(walk.max_depth),
            expand,
        ),
    decreases schedule,
{
    let limit = bound(walk.max_depth);
    match schedule {
        Schedule::Drain(steps) => {
            lemma_exhausted_yield(walk, strategy, expand, steps);
        },
        Schedule::Fork(steps, kept, given) => {
            let reached = walk.run(strategy, expand, steps);
            lemma_run_keeps_following(walk, strategy, expand, steps);
            lemma_yield_conserved(walk, strategy, expand, steps);
            lemma_split_covers(reached);
            lemma_split_conserves_yield(reached, expand);
            lemma_schedule_yield(reached.kept_half(), strategy, expand, *kept);
            lemma_schedule_yield(reached.given_half(), strategy, expand, *given);
            let trace = depths(walk.trace(strategy, expand, steps));
            let left = forest(reached.kept_half().queue.entries, limit, expand);
            let right = forest(reached.given_half().queue.entries, limit, expand);
            assert(trace.add(left).add(right) =~= trace.add(left.add(right)));
        },
    }
}

/// The workers of a thread pool emit what one worker emits: for a traversal
/// that follows every child, any schedule that runs it to its end emits the
/// depths of the run in one piece.
pub proof fn lemma_bridge_matches_sequential<I: Keyed, E>(
    walk: WalkView<I, E>,
    strategy: Strategy,
    expand: spec_fn(I, usize) -> Seq<Result<I, E>>,
    schedule: Schedule,
    steps: nat,
)
    requires
        walk.queue.allow_circles,
        walk.completed_by(strategy, expand, schedule),
        walk.run(strategy, expand, steps).exhausted(),
    ensures
        walk.emitted_by(strategy, expand, schedule) == depths(walk.trace(strategy, expand, steps)),
{
    lemma_schedule_yield(walk, strategy, expand, schedule);
    lemma_exhausted_yield(walk, strategy, expand, steps);
}

} // verus!
