use par_dfs::sync::bfs::Bfs;
use par_dfs::sync::dfs::Dfs;
use par_dfs::sync::par::BridgeAction;
use par_dfs::sync::par::IntoParallelIterator;
use par_dfs::sync::par::ParallelSplittableIterator;
use par_dfs::sync::par::SplittableIterator;
use par_dfs::sync::Keyed;
use par_dfs::sync::Node;
use vstd::prelude::Seq;

#[derive(PartialEq, Eq, Hash, Clone, Debug)]
struct Failure;

/// A node whose children at a depth are two copies of that depth.
#[derive(PartialEq, Eq, Hash, Clone, Debug)]
struct Level(usize);

impl Keyed for Level {
    fn key_spec(&self) -> u64 {
        unreachable!()
    }

    fn key_is_faithful(&self, _other: &Self) {}

    fn key(&self) -> u64 {
        self.0 as u64
    }
}

impl Node for Level {
    type Error = Failure;

    fn successors(&self, _depth: usize) -> Result<Seq<Result<Self, Failure>>, Failure> {
        unreachable!()
    }

    fn children(&self, depth: usize) -> Result<Vec<Result<Self, Failure>>, Failure> {
        Ok(vec![Ok(Level(depth)), Ok(Level(depth))])
    }
}

fn drive<T>(mut bridge: ParallelSplittableIterator<T>, stolen: bool) -> Vec<usize>
where
    T: SplittableIterator<Item = Result<Level, Failure>> + Send,
{
    let mut out = Vec::new();
    if bridge.begin(stolen, rayon::current_num_threads()) {
        while let Some(item) = bridge.next() {
            out.push(item.unwrap().0);
        }
        return out;
    }
    loop {
        match bridge.plan(false) {
            BridgeAction::Fork(other) => {
                let (left, right) = rayon::join_context(
                    move |ctx| drive(bridge, ctx.migrated()),
                    move |ctx| drive(other, ctx.migrated()),
                );
                out.extend(left);
                out.extend(right);
                return out;
            }
            BridgeAction::Feed(item) => out.push(item.unwrap().0),
            BridgeAction::Finish => return out,
        }
    }
}

fn sorted(mut depths: Vec<usize>) -> Vec<usize> {
    depths.sort_unstable();
    depths
}

#[test]
fn test_bfs_parallel() {
    let depths = drive(Bfs::new(Level(0), Some(3), true).into_par_iter(), false);
    assert_eq!(sorted(depths), vec![1, 1, 2, 2, 2, 2, 3, 3, 3, 3, 3, 3, 3, 3]);
}

#[test]
fn test_dfs_parallel() {
    let depths = drive(Dfs::new(Level(0), Some(3), true).into_par_iter(), false);
    assert_eq!(sorted(depths), vec![1, 1, 2, 2, 2, 2, 3, 3, 3, 3, 3, 3, 3, 3]);
}

#[test]
fn parallel_and_sequential_emit_the_same_depths() {
    for bound in 0..7 {
        let mut walk = Bfs::new(Level(0), Some(bound), true);
        let mut sequential = Vec::new();
        while let Some(item) = walk.next() {
            sequential.push(item.unwrap().0);
        }
        let bridge = ParallelSplittableIterator::with_splits(Dfs::new(Level(0), Some(bound), true), 8);
        let parallel = drive(bridge, false);
        assert_eq!(sorted(parallel), sorted(sequential));
    }
}

#[test]
fn new_bridge_holds_the_iterator_as_it_was() {
    let mut bridge = ParallelSplittableIterator::new(Bfs::new(Level(0), Some(1), true));
    assert_eq!(bridge.begin(true, 0), true);
    let mut depths = Vec::new();
    while let Some(item) = bridge.next() {
        depths.push(item.unwrap().0);
    }
    assert_eq!(depths, vec![1, 1]);
}

#[test]
fn new_bridge_has_one_split_for_each_worker() {
    let bridge = ParallelSplittableIterator::new(Bfs::new(Level(0), Some(1), true));
    assert_eq!(bridge.budget(), rayon::current_num_threads());
    assert!(bridge.budget() >= 1);
    let bridge = Dfs::new(Level(0), Some(1), true).into_par_iter();
    assert_eq!(bridge.budget(), rayon::current_num_threads());
}

#[test]
fn a_split_halves_the_budget_of_both_halves() {
    let mut bridge = ParallelSplittableIterator::with_splits(Bfs::new(Level(0), Some(3), true), 5);
    assert_eq!(bridge.budget(), 5);
    let half = bridge.split().unwrap();
    assert_eq!(bridge.budget(), 2);
    assert_eq!(half.budget(), 2);
}

#[test]
fn no_split_without_budget() {
    let mut bridge = ParallelSplittableIterator::with_splits(Bfs::new(Level(0), Some(3), true), 0);
    assert!(bridge.split().is_none());
    assert_eq!(bridge.budget(), 0);
    assert_eq!(bridge.next().map(|item| item.unwrap().0), Some(1));
}

#[test]
fn no_split_of_a_short_queue() {
    let mut bridge = ParallelSplittableIterator::with_splits(Bfs::new(Level(0), Some(3), false), 4);
    // one entry is buffered: the second copy was suppressed
    assert!(bridge.split().is_none());
    assert_eq!(bridge.budget(), 4);
}

#[test]
fn budget_of_one_allows_one_split() {
    let mut bridge = ParallelSplittableIterator::with_splits(Bfs::new(Level(0), Some(3), true), 1);
    let mut half = bridge.split().unwrap();
    assert_eq!(bridge.budget(), 0);
    assert_eq!(half.budget(), 0);
    assert!(bridge.split().is_none());
    assert!(half.split().is_none());
}

#[test]
fn a_stolen_task_starts_with_a_full_budget() {
    let mut bridge = ParallelSplittableIterator::with_splits(Bfs::new(Level(0), Some(3), true), 0);
    assert_eq!(bridge.begin(false, 6), true);
    assert_eq!(bridge.budget(), 0);
    assert_eq!(bridge.begin(true, 6), false);
    assert_eq!(bridge.budget(), 6);
    assert_eq!(bridge.begin(false, 3), false);
    assert_eq!(bridge.budget(), 6);
    assert_eq!(bridge.begin(true, 0), true);
    assert_eq!(bridge.budget(), 0);
}

#[test]
fn plan_splits_then_feeds_then_finishes() {
    let mut bridge = ParallelSplittableIterator::with_splits(Bfs::new(Level(0), Some(1), true), 2);
    assert!(matches!(bridge.plan(true), BridgeAction::Finish));
    assert_eq!(bridge.budget(), 2);
    let mut other = match bridge.plan(false) {
        BridgeAction::Fork(other) => other,
        _ => panic!("two entries are buffered and the budget is not used up"),
    };
    assert_eq!(bridge.budget(), 1);
    assert!(matches!(bridge.plan(false), BridgeAction::Feed(Ok(Level(1)))));
    assert!(matches!(bridge.plan(false), BridgeAction::Finish));
    assert!(matches!(other.plan(false), BridgeAction::Feed(Ok(Level(1)))));
    assert!(matches!(other.plan(false), BridgeAction::Finish));
}
