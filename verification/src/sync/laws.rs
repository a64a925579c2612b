//! What holds of every traversal, proved over the model of one step.

use vstd::prelude::*;

use crate::sync::queue::QueueView;
use crate::sync::walk::bound;
use crate::sync::walk::Strategy;
use crate::sync::walk::WalkView;
use crate::sync::Keyed;

verus! {

/// The key of an entry that holds a node.
pub open spec fn key_of<I: Keyed, E>(entry: (usize, Result<I, E>)) -> u64
    recommends
        entry.1 is Ok,
{
    entry.1->Ok_0.key_spec()
}

/// What offering a batch does to a queue: the entries that were buffered stay
/// in place, every new entry is recorded at the given depth, and nothing that
/// was seen is forgotten. While repeats are suppressed, every new node was
/// unseen before, is seen afterwards, and differs from every other new node.
pub proof fn lemma_offer_all_shape<I: Keyed, E>(
    queue: QueueView<I, E>,
    depth: usize,
    items: Seq<Result<I, E>>,
)
    ensures
        ({
            let after = queue.offer_all(depth, items);
            &&& after.allow_circles == queue.allow_circles
            &&& queue.visited.subset_of(after.visited)
            &&& queue.entries.len() <= after.entries.len()
            &&& forall|i: int| 0 <= i < queue.entries.len() ==> after.entries[i] == queue.entries[i]
            &&& forall|i: int|
                queue.entries.len() <= i < after.entries.len() ==> (#[trigger] after.entries[i]).0
                    == depth
            &&& queue.allow_circles ==> after.visited == queue.visited && after.entries
                == queue.entries + items.map_values(|item: Result<I, E>| (depth, item))
            &&& !queue.allow_circles ==> forall|i: int|
                queue.entries.len() <= i < after.entries.len() && (
                #[trigger] after.entries[i]).1 is Ok ==> !queue.visited.contains(
                    key_of(after.entries[i]),
                ) && after.visited.contains(key_of(after.entries[i]))
            &&& !queue.allow_circles ==> forall|i: int, j: int|
                queue.entries.len() <= i < j < after.entries.len() && (
                #[trigger] after.entries[i]).1 is Ok && (#[trigger] after.entries[j]).1 is Ok
                    ==> key_of(after.entries[i]) != key_of(after.entries[j])
        }),
    decreases items.len(),
{
    let tag = |item: Result<I, E>| (depth, item);
    if items.len() == 0 {
        assert(queue.entries + items.map_values(tag) =~= queue.entries);
    } else {
        lemma_offer_all_shape(queue, depth, items.drop_last());
        let mid = queue.offer_all(depth, items.drop_last());
        let after = queue.offer_all(depth, items);
        assert(after == mid.offer(depth, items.last()));
        if queue.allow_circles {
            assert(items.map_values(tag) =~= items.drop_last().map_values(tag).push(
                (depth, items.last()),
            ));
            assert(after.entries =~= queue.entries + items.map_values(tag));
        }
    }
}

/// A split covers exactly what was buffered: the kept half followed by the
/// given half is the queue as it was, and the cut is at half its length,
/// rounded down.
pub proof fn lemma_split_covers<I, E>(walk: WalkView<I, E>)
    requires
        walk.queue.entries.len() >= 2,
    ensures
        walk.halves() == Some((walk.kept_half(), walk.given_half())),
        walk.kept_half().queue.entries + walk.given_half().queue.entries == walk.queue.entries,
        walk.kept_half().queue.entries.len() == walk.queue.entries.len() / 2,
        walk.kept_half().queue.entries.len() >= 1,
        walk.given_half().queue.entries.len() >= 1,
        walk.kept_half().queue.allow_circles && walk.given_half().queue.allow_circles,
        walk.kept_half().max_depth == walk.max_depth,
        walk.given_half().max_depth == walk.max_depth,
{
    assert(walk.kept_half().queue.entries + walk.given_half().queue.entries
        =~= walk.queue.entries);
}

/// A node recorded at the depth bound or deeper is emitted and not expanded:
/// the step that takes it adds nothing to the queue.
pub proof fn lemma_bound_stops_expansion<I: Keyed, E>(
    walk: WalkView<I, E>,
    strategy: Strategy,
    expand: spec_fn(I, usize) -> Seq<Result<I, E>>,
)
    requires
        !walk.exhausted(),
        walk.taken(strategy).0 >= bound(walk.max_depth),
    ensures
        walk.step(strategy, expand).queue == walk.rest(strategy),
        walk.emits(strategy) == Some(walk.taken(strategy).1),
{
}

/// Whether no entry is recorded deeper than `cap`.
pub open spec fn all_at_most<I, E>(entries: Seq<(usize, Result<I, E>)>, cap: int) -> bool {
    forall|i: int| 0 <= i < entries.len() ==> (#[trigger] entries[i]).0 <= cap
}

/// Whether no entry is recorded less deep than `floor`.
pub open spec fn all_at_least<I, E>(entries: Seq<(usize, Result<I, E>)>, floor: int) -> bool {
    forall|i: int| 0 <= i < entries.len() ==> (#[trigger] entries[i]).0 >= floor
}

/// One step keeps every depth at or under a cap that is no less than the
/// depth bound and than every depth buffered before.
pub proof fn lemma_step_capped<I: Keyed, E>(
    walk: WalkView<I, E>,
    strategy: Strategy,
    expand: spec_fn(I, usize) -> Seq<Result<I, E>>,
    cap: int,
)
    requires
        bound(walk.max_depth) <= cap,
        all_at_most(walk.queue.entries, cap),
    ensures
        all_at_most(walk.step(strategy, expand).queue.entries, cap),
{
    if !walk.exhausted() {
        let entry = walk.taken(strategy);
        let rest = walk.rest(strategy);
        assert(all_at_most(rest.entries, cap));
        match entry.1 {
            Ok(node) => {
                if entry.0 < bound(walk.max_depth) {
                    let depth = (entry.0 + 1) as usize;
                    lemma_offer_all_shape(rest, depth, expand(node, depth));
                }
            },
            Err(_) => {},
        }
    }
}

/// Nothing is emitted deeper than the depth bound: with a bound of `d`, in a
/// traversal that buffers nothing deeper than `d`, no emitted entry is
/// recorded deeper than `d`, so no child of a node at depth `d` appears.
pub proof fn lemma_depth_bounded<I: Keyed, E>(
    walk: WalkView<I, E>,
    strategy: Strategy,
    expand: spec_fn(I, usize) -> Seq<Result<I, E>>,
    steps: nat,
    cap: int,
)
    requires
        bound(walk.max_depth) <= cap,
        all_at_most(walk.queue.entries, cap),
    ensures
        all_at_most(walk.trace(strategy, expand, steps), cap),
        all_at_most(walk.run(strategy, expand, steps).queue.entries, cap),
    decreases steps,
{
    if steps > 0 {
        lemma_step_capped(walk, strategy, expand, cap);
        lemma_depth_bounded(walk.step(strategy, expand), strategy, expand, (steps - 1) as nat, cap);
    }
}

/// Whether the entries lie level by level: no entry is shallower than the one
/// before it, and none is more than one level below the first.
pub open spec fn leveled<I, E>(entries: Seq<(usize, Result<I, E>)>) -> bool {
    &&& forall|i: int, j: int|
        0 <= i <= j < entries.len() ==> (#[trigger] entries[i]).0 <= (#[trigger] entries[j]).0
    &&& forall|i: int| 0 <= i < entries.len() ==> (#[trigger] entries[i]).0 <= entries[0].0 + 1
}

/// A breadth-first step keeps the queue level by level, and leaves nothing in
/// it that is shallower than the entry it took.
pub proof fn lemma_breadth_step_leveled<I: Keyed, E>(
    walk: WalkView<I, E>,
    expand: spec_fn(I, usize) -> Seq<Result<I, E>>,
)
    requires
        leveled(walk.queue.entries),
        !walk.exhausted(),
    ensures
        leveled(walk.step(Strategy::Breadth, expand).queue.entries),
        all_at_least(
            walk.step(Strategy::Breadth, expand).queue.entries,
            walk.taken(Strategy::Breadth).0 as int,
        ),
{
    let entry = walk.taken(Strategy::Breadth);
    let rest = walk.rest(Strategy::Breadth);
    let after = walk.step(Strategy::Breadth, expand).queue.entries;
    assert(forall|i: int| 0 <= i < rest.entries.len() ==> rest.entries[i] == walk.queue.entries[i + 1]);
    match entry.1 {
        Ok(node) => {
            if entry.0 < bound(walk.max_depth) {
                let depth = (entry.0 + 1) as usize;
                lemma_offer_all_shape(rest, depth, expand(node, depth));
                assert forall|i: int| 0 <= i < after.len() implies entry.0 <= (#[trigger] after[i]).0
                    <= entry.0 + 1 by {
                    if i < rest.entries.len() {
                        assert(after[i] == walk.queue.entries[i + 1]);
                    }
                }
                assert forall|i: int, j: int| 0 <= i <= j < after.len() implies (#[trigger] after[i]).0
                    <= (#[trigger] after[j]).0 by {
                    if j < rest.entries.len() {
                        assert(after[i] == walk.queue.entries[i + 1]);
                        assert(after[j] == walk.queue.entries[j + 1]);
                    } else if i < rest.entries.len() {
                        assert(after[i] == walk.queue.entries[i + 1]);
                    }
                }
            }
        },
        Err(_) => {},
    }
}

/// Breadth-first traversal emits level by level: of any two emitted entries,
/// the later one is recorded at least as deep as the earlier one.
pub proof fn lemma_breadth_depths_monotone<I: Keyed, E>(
    walk: WalkView<I, E>,
    expand: spec_fn(I, usize) -> Seq<Result<I, E>>,
    steps: nat,
)
    requires
        leveled(walk.queue.entries),
    ensures
        forall|i: int, j: int|
            0 <= i <= j < walk.trace(Strategy::Breadth, expand, steps).len() ==> (
            #[trigger] walk.trace(Strategy::Breadth, expand, steps)[i]).0 <= (
            #[trigger] walk.trace(Strategy::Breadth, expand, steps)[j]).0,
        !walk.exhausted() ==> all_at_least(
            walk.trace(Strategy::Breadth, expand, steps),
            walk.taken(Strategy::Breadth).0 as int,
        ),
    decreases steps,
{
    if steps > 0 && !walk.exhausted() {
        let next = walk.step(Strategy::Breadth, expand);
        let tail = next.trace(Strategy::Breadth, expand, (steps - 1) as nat);
        let trace = walk.trace(Strategy::Breadth, expand, steps);
        lemma_breadth_step_leveled(walk, expand);
        lemma_breadth_depths_monotone(next, expand, (steps - 1) as nat);
        assert(trace == seq![walk.taken(Strategy::Breadth)] + tail);
        if tail.len() > 0 {
            assert(!next.exhausted());
            assert(next.taken(Strategy::Breadth) == next.queue.entries[0]);
        }
        assert forall|i: int| 0 <= i < trace.len() implies (#[trigger] trace[i]).0 >= walk.taken(
            Strategy::Breadth,
        ).0 by {
            if i > 0 {
                assert(trace[i] == tail[i - 1]);
            }
        }
        assert forall|i: int, j: int| 0 <= i <= j < trace.len() implies (#[trigger] trace[i]).0 <= (
        #[trigger] trace[j]).0 by {
            if i > 0 {
                assert(trace[i] == tail[i - 1]);
                assert(trace[j] == tail[j - 1]);
            }
        }
    }
}

/// Whether no node is buffered twice and every buffered node counts as seen.
pub open spec fn tidy<I: Keyed, E>(queue: QueueView<I, E>) -> bool {
    &&& forall|i: int|
        0 <= i < queue.entries.len() && (#[trigger] queue.entries[i]).1 is Ok
            ==> queue.visited.contains(key_of(queue.entries[i]))
    &&& forall|i: int, j: int|
        0 <= i < j < queue.entries.len() && (#[trigger] queue.entries[i]).1 is Ok && (
        #[trigger] queue.entries[j]).1 is Ok ==> key_of(queue.entries[i]) != key_of(
            queue.entries[j],
        )
}

/// Whether no buffered node has the key `key`.
pub open spec fn absent<I: Keyed, E>(entries: Seq<(usize, Result<I, E>)>, key: u64) -> bool {
    forall|i: int|
        0 <= i < entries.len() && (#[trigger] entries[i]).1 is Ok ==> key_of(entries[i]) != key
}

/// Whether no two of the entries hold nodes with the same key.
pub open spec fn distinct_keys<I: Keyed, E>(entries: Seq<(usize, Result<I, E>)>) -> bool {
    forall|i: int, j: int|
        0 <= i < j < entries.len() && (#[trigger] entries[i]).1 is Ok && (
        #[trigger] entries[j]).1 is Ok ==> key_of(entries[i]) != key_of(entries[j])
}

/// Offering a batch to a tidy queue that suppresses repeats leaves it tidy,
/// and brings in no node whose key was seen before.
pub proof fn lemma_offer_all_tidy<I: Keyed, E>(
    queue: QueueView<I, E>,
    depth: usize,
    items: Seq<Result<I, E>>,
)
    requires
        !queue.allow_circles,
        tidy(queue),
    ensures
        tidy(queue.offer_all(depth, items)),
        forall|key: u64|
            queue.visited.contains(key) && absent(queue.entries, key) ==> absent(
                #[trigger] queue.offer_all(depth, items).entries,
                key,
            ),
{
    lemma_offer_all_shape(queue, depth, items);
    let after = queue.offer_all(depth, items);
    assert forall|i: int, j: int|
        0 <= i < j < after.entries.len() && (#[trigger] after.entries[i]).1 is Ok && (
        #[trigger] after.entries[j]).1 is Ok implies key_of(after.entries[i]) != key_of(
        after.entries[j],
    ) by {
        if i < queue.entries.len() {
            assert(after.entries[i] == queue.entries[i]);
            if j < queue.entries.len() {
                assert(after.entries[j] == queue.entries[j]);
            }
        }
    }
    assert forall|i: int|
        0 <= i < after.entries.len() && (#[trigger] after.entries[i]).1 is Ok
        implies after.visited.contains(key_of(after.entries[i])) by {
        if i < queue.entries.len() {
            assert(after.entries[i] == queue.entries[i]);
        }
    }
    assert forall|key: u64| queue.visited.contains(key) && absent(queue.entries, key) implies absent(
        #[trigger] after.entries,
        key,
    ) by {
        assert forall|i: int|
            0 <= i < after.entries.len() && (#[trigger] after.entries[i]).1 is Ok implies key_of(
            after.entries[i],
        ) != key by {
            if i < queue.entries.len() {
                assert(after.entries[i] == queue.entries[i]);
            }
        }
    }
}

/// One step of a tidy traversal that suppresses repeats leaves it tidy and
/// forgets nothing. The node it takes is buffered no more, and neither is any
/// node that was seen and not buffered before.
pub proof fn lemma_step_tidy<I: Keyed, E>(
    walk: WalkView<I, E>,
    strategy: Strategy,
    expand: spec_fn(I, usize) -> Seq<Result<I, E>>,
)
    requires
        !walk.queue.allow_circles,
        tidy(walk.queue),
    ensures
        !walk.step(strategy, expand).queue.allow_circles,
        tidy(walk.step(strategy, expand).queue),
        walk.queue.visited.subset_of(walk.step(strategy, expand).queue.visited),
        forall|key: u64|
            walk.queue.visited.contains(key) && absent(walk.queue.entries, key) ==> absent(
                #[trigger] walk.step(strategy, expand).queue.entries,
                key,
            ),
        !walk.exhausted() && walk.taken(strategy).1 is Ok ==> absent(
            walk.step(strategy, expand).queue.entries,
            key_of(walk.taken(strategy)),
        ),
{
    if !walk.exhausted() {
        let entry = walk.taken(strategy);
        let rest = walk.rest(strategy);
        let shift: int = match strategy {
            Strategy::Breadth => 1,
            Strategy::Depth => 0,
        };
        assert(forall|i: int|
            0 <= i < rest.entries.len() ==> rest.entries[i] == walk.queue.entries[i + shift]);
        assert(tidy(rest));
        assert forall|key: u64|
            walk.queue.visited.contains(key) && absent(walk.queue.entries, key) implies absent(
            rest.entries,
            key,
        ) by {
            assert forall|i: int|
                0 <= i < rest.entries.len() && (#[trigger] rest.entries[i]).1 is Ok implies key_of(
                rest.entries[i],
            ) != key by {
                assert(rest.entries[i] == walk.queue.entries[i + shift]);
            }
        }
        if entry.1 is Ok {
            assert forall|i: int|
                0 <= i < rest.entries.len() && (#[trigger] rest.entries[i]).1 is Ok implies key_of(
                rest.entries[i],
            ) != key_of(entry) by {
                assert(rest.entries[i] == walk.queue.entries[i + shift]);
            }
            assert(absent(rest.entries, key_of(entry)));
        }
        match entry.1 {
            Ok(node) => {
                if entry.0 < bound(walk.max_depth) {
                    let depth = (entry.0 + 1) as usize;
                    lemma_offer_all_shape(rest, depth, expand(node, depth));
                    lemma_offer_all_tidy(rest, depth, expand(node, depth));
                }
            },
            Err(_) => {},
        }
    }
}

/// A node that was seen and is not buffered is never emitted again while
/// repeats are suppressed.
pub proof fn lemma_seen_never_emitted<I: Keyed, E>(
    walk: WalkView<I, E>,
    strategy: Strategy,
    expand: spec_fn(I, usize) -> Seq<Result<I, E>>,
    steps: nat,
    key: u64,
)
    requires
        !walk.queue.allow_circles,
        tidy(walk.queue),
        walk.queue.visited.contains(key),
        absent(walk.queue.entries, key),
    ensures
        absent(walk.trace(strategy, expand, steps), key),
    decreases steps,
{
    if steps > 0 && !walk.exhausted() {
        let next = walk.step(strategy, expand);
        let tail = next.trace(strategy, expand, (steps - 1) as nat);
        let trace = walk.trace(strategy, expand, steps);
        lemma_step_tidy(walk, strategy, expand);
        lemma_seen_never_emitted(next, strategy, expand, (steps - 1) as nat, key);
        assert forall|i: int| 0 <= i < trace.len() && (#[trigger] trace[i]).1 is Ok implies key_of(
            trace[i],
        ) != key by {
            if i > 0 {
                assert(trace[i] == tail[i - 1]);
            }
        }
    }
}

/// With repeats suppressed, no node is emitted twice: no two emitted entries
/// hold nodes with the same key.
pub proof fn lemma_no_repeats<I: Keyed, E>(
    walk: WalkView<I, E>,
    strategy: Strategy,
    expand: spec_fn(I, usize) -> Seq<Result<I, E>>,
    steps: nat,
)
    requires
        !walk.queue.allow_circles,
        tidy(walk.queue),
    ensures
        distinct_keys(walk.trace(strategy, expand, steps)),
    decreases steps,
{
    if steps > 0 && !walk.exhausted() {
        let entry = walk.taken(strategy);
        let next = walk.step(strategy, expand);
        let tail = next.trace(strategy, expand, (steps - 1) as nat);
        let trace = walk.trace(strategy, expand, steps);
        lemma_step_tidy(walk, strategy, expand);
        lemma_no_repeats(next, strategy, expand, (steps - 1) as nat);
        if entry.1 is Ok {
            lemma_seen_never_emitted(next, strategy, expand, (steps - 1) as nat, key_of(entry));
        }
        assert forall|i: int, j: int|
            0 <= i < j < trace.len() && (#[trigger] trace[i]).1 is Ok && (
            #[trigger] trace[j]).1 is Ok implies key_of(trace[i]) != key_of(trace[j]) by {
            assert(trace[j] == tail[j - 1]);
            if i > 0 {
                assert(trace[i] == tail[i - 1]);
            }
        }
    }
}

/// A traversal that starts below a root starts in order: everything buffered
/// lies at depth 1, and while repeats are suppressed the queue is tidy and the
/// root, which counts as seen, is not buffered.
pub proof fn lemma_start_below_root<I: Keyed, E>(
    allow_circles: bool,
    root: u64,
    items: Seq<Result<I, E>>,
)
    ensures
        ({
            let queue = QueueView::<I, E>::fresh(allow_circles).seed(root).offer_all(1, items);
            &&& queue.allow_circles == allow_circles
            &&& leveled(queue.entries)
            &&& all_at_most(queue.entries, 1)
            &&& all_at_least(queue.entries, 1)
            &&& !allow_circles ==> tidy(queue) && queue.visited.contains(root) && absent(
                queue.entries,
                root,
            )
        }),
{
    let seeded = QueueView::<I, E>::fresh(allow_circles).seed(root);
    lemma_offer_all_shape(seeded, 1, items);
    if !allow_circles {
        assert(tidy(seeded));
        assert(absent(seeded.entries, root));
        lemma_offer_all_tidy(seeded, 1, items);
    }
}

/// Whether `base` lies untouched at the bottom of the stack and everything
/// above it is recorded deeper than `depth`.
pub open spec fn stacked_above<I, E>(
    entries: Seq<(usize, Result<I, E>)>,
    base: Seq<(usize, Result<I, E>)>,
    depth: int,
) -> bool {
    &&& base.len() <= entries.len()
    &&& forall|i: int| 0 <= i < base.len() ==> entries[i] == base[i]
    &&& forall|i: int| base.len() <= i < entries.len() ==> (#[trigger] entries[i]).0 > depth
}

/// A depth-first step on a stack that stands above `base` takes an entry from
/// above it and leaves the stack on `base`.
pub proof fn lemma_depth_step_above<I: Keyed, E>(
    walk: WalkView<I, E>,
    expand: spec_fn(I, usize) -> Seq<Result<I, E>>,
    base: Seq<(usize, Result<I, E>)>,
    depth: int,
)
    requires
        stacked_above(walk.queue.entries, base, depth),
        walk.queue.entries.len() > base.len(),
    ensures
        stacked_above(walk.step(Strategy::Depth, expand).queue.entries, base, depth),
        walk.taken(Strategy::Depth).0 > depth,
{
    let entry = walk.taken(Strategy::Depth);
    let rest = walk.rest(Strategy::Depth);
    assert(stacked_above(rest.entries, base, depth));
    match entry.1 {
        Ok(node) => {
            if entry.0 < bound(walk.max_depth) {
                let deeper = (entry.0 + 1) as usize;
                lemma_offer_all_shape(rest, deeper, expand(node, deeper));
            }
        },
        Err(_) => {},
    }
}

/// While the stack stays above `base`, every step emits an entry deeper than
/// `depth` and `base` stays untouched.
pub proof fn lemma_above_base<I: Keyed, E>(
    walk: WalkView<I, E>,
    expand: spec_fn(I, usize) -> Seq<Result<I, E>>,
    base: Seq<(usize, Result<I, E>)>,
    depth: int,
    steps: nat,
)
    requires
        stacked_above(walk.queue.entries, base, depth),
        forall|m: nat|
            m < steps ==> (#[trigger] walk.run(Strategy::Depth, expand, m)).queue.entries.len()
                > base.len(),
    ensures
        walk.trace(Strategy::Depth, expand, steps).len() == steps,
        forall|i: int|
            0 <= i < steps ==> (#[trigger] walk.trace(Strategy::Depth, expand, steps)[i]).0 > depth,
        stacked_above(walk.run(Strategy::Depth, expand, steps).queue.entries, base, depth),
    decreases steps,
{
    if steps > 0 {
        assert(walk.run(Strategy::Depth, expand, 0) == walk);
        let next = walk.step(Strategy::Depth, expand);
        lemma_depth_step_above(walk, expand, base, depth);
        assert forall|m: nat| m < steps - 1 implies (#[trigger] next.run(
            Strategy::Depth,
            expand,
            m,
        )).queue.entries.len() > base.len() by {
            assert(walk.run(Strategy::Depth, expand, m + 1) == next.run(Strategy::Depth, expand, m));
        }
        lemma_above_base(next, expand, base, depth, (steps - 1) as nat);
        let tail = next.trace(Strategy::Depth, expand, (steps - 1) as nat);
        let trace = walk.trace(Strategy::Depth, expand, steps);
        assert forall|i: int| 0 <= i < steps implies (#[trigger] trace[i]).0 > depth by {
            if i > 0 {
                assert(trace[i] == tail[i - 1]);
            }
        }
    }
}

/// Depth-first traversal emits in pre-order. Once a node is taken from the
/// stack, everything emitted until the stack is back down to what lay below
/// that node is recorded deeper than the node, and what lay below it stays
/// untouched until then: all that is found below a node comes before the
/// node's next sibling.
pub proof fn lemma_descendants_first<I: Keyed, E>(
    walk: WalkView<I, E>,
    expand: spec_fn(I, usize) -> Seq<Result<I, E>>,
    steps: nat,
)
    requires
        !walk.exhausted(),
        forall|m: nat|
            1 <= m <= steps ==> (#[trigger] walk.run(Strategy::Depth, expand, m)).queue.entries.len()
                >= walk.queue.entries.len(),
    ensures
        walk.trace(Strategy::Depth, expand, steps + 1).len() == steps + 1,
        walk.trace(Strategy::Depth, expand, steps + 1)[0] == walk.taken(Strategy::Depth),
        forall|i: int|
            1 <= i <= steps ==> (#[trigger] walk.trace(Strategy::Depth, expand, steps + 1)[i]).0
                > walk.taken(Strategy::Depth).0,
        stacked_above(
            walk.run(Strategy::Depth, expand, steps + 1).queue.entries,
            walk.queue.entries.drop_last(),
            walk.taken(Strategy::Depth).0 as int,
        ),
{
    let entry = walk.taken(Strategy::Depth);
    let base = walk.queue.entries.drop_last();
    let next = walk.step(Strategy::Depth, expand);
    let rest = walk.rest(Strategy::Depth);
    match entry.1 {
        Ok(node) => {
            if entry.0 < bound(walk.max_depth) {
                let deeper = (entry.0 + 1) as usize;
                lemma_offer_all_shape(rest, deeper, expand(node, deeper));
            }
        },
        Err(_) => {},
    }
    assert(stacked_above(next.queue.entries, base, entry.0 as int));
    assert forall|m: nat| m < steps implies (#[trigger] next.run(
        Strategy::Depth,
        expand,
        m,
    )).queue.entries.len() > base.len() by {
        assert(walk.run(Strategy::Depth, expand, m + 1) == next.run(Strategy::Depth, expand, m));
    }
    lemma_above_base(next, expand, base, entry.0 as int, steps);
    let tail = next.trace(Strategy::Depth, expand, steps);
    let trace = walk.trace(Strategy::Depth, expand, steps + 1);
    assert(trace == seq![entry] + tail);
    assert forall|i: int| 1 <= i <= steps implies (#[trigger] trace[i]).0 > entry.0 by {
        assert(trace[i] == tail[i - 1]);
    }
    assert(walk.run(Strategy::Depth, expand, steps + 1) == next.run(Strategy::Depth, expand, steps));
}

/// What is said of keys is said of the nodes themselves: entries with keys
/// that differ hold nodes that differ, and nodes that differ have keys that
/// differ, so suppression drops a node only where the node itself was seen.
pub proof fn lemma_keys_tell_nodes_apart<I: Keyed, E>(entries: Seq<(usize, Result<I, E>)>)
    ensures
        distinct_keys(entries) ==> forall|i: int, j: int|
            0 <= i < j < entries.len() && (#[trigger] entries[i]).1 is Ok && (
            #[trigger] entries[j]).1 is Ok ==> entries[i].1->Ok_0 != entries[j].1->Ok_0,
        forall|i: int, j: int|
            0 <= i < j < entries.len() && (#[trigger] entries[i]).1 is Ok && (
            #[trigger] entries[j]).1 is Ok && entries[i].1->Ok_0 != entries[j].1->Ok_0
                ==> key_of(entries[i]) != key_of(entries[j]),
{
    assert forall|i: int, j: int|
        0 <= i < j < entries.len() && (#[trigger] entries[i]).1 is Ok && (
        #[trigger] entries[j]).1 is Ok && entries[i].1->Ok_0 != entries[j].1->Ok_0 implies key_of(
        entries[i],
    ) != key_of(entries[j]) by {
        entries[i].1->Ok_0.key_is_faithful(&entries[j].1->Ok_0);
    }
}

} // verus!
