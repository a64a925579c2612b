use par_dfs::stream::bfs::Bfs;
use par_dfs::stream::dfs::Dfs;
use par_dfs::stream::Action;
use par_dfs::stream::Event;
use par_dfs::sync::Keyed;
use par_dfs::sync::Node;
use std::collections::VecDeque;
use vstd::prelude::Seq;

#[derive(PartialEq, Eq, Hash, Clone, Debug)]
struct Failure(u64);

type Outcome<N> = Result<N, Failure>;

/// A node for a driver that runs on one thread: its children, or the failure
/// of the lookup, and the number of polls that the lookup stays unresolved.
trait Lookup: Keyed + Clone {
    fn lookup(&self, depth: usize) -> Result<Vec<Outcome<Self>>, Failure>;
    fn latency(&self) -> u32;
}

/// A node whose children at a depth are two copies of that depth.
#[derive(PartialEq, Eq, Hash, Clone, Debug)]
struct Level(usize);

impl Keyed for Level {
    fn key_spec(&self) -> u64 {
        unreachable!()
    }

    fn key_is_faithful(&self, _other: &Self) {}

    fn key(&self) -> u64 {
        self.0 as u64
    }
}

impl Node for Level {
    type Error = Failure;

    fn successors(&self, _depth: usize) -> Result<Seq<Result<Self, Failure>>, Failure> {
        unreachable!()
    }

    fn children(&self, depth: usize) -> Result<Vec<Result<Self, Failure>>, Failure> {
        self.lookup(depth)
    }
}

impl Lookup for Level {
    fn lookup(&self, depth: usize) -> Result<Vec<Outcome<Self>>, Failure> {
        Ok(vec![Ok(Level(depth)), Ok(Level(depth))])
    }

    fn latency(&self) -> u32 {
        3
    }
}

/// A binary tree in which node 4 cannot be expanded and node 5 has one child
/// that is found and one that fails. Lookups take longer the smaller the node.
#[derive(PartialEq, Eq, Hash, Clone, Debug)]
struct Tree(u64);

impl Keyed for Tree {
    fn key_spec(&self) -> u64 {
        unreachable!()
    }

    fn key_is_faithful(&self, _other: &Self) {}

    fn key(&self) -> u64 {
        self.0
    }
}

impl Lookup for Tree {
    fn lookup(&self, _depth: usize) -> Result<Vec<Outcome<Self>>, Failure> {
        let n = self.0;
        if n == 4 {
            Err(Failure(4))
        } else if n == 5 {
            Ok(vec![Ok(Tree(11)), Err(Failure(5))])
        } else {
            Ok(vec![Ok(Tree(2 * n + 1)), Ok(Tree(2 * n + 2))])
        }
    }

    fn latency(&self) -> u32 {
        (20 - self.0.min(20)) as u32
    }
}

/// Five nodes in a ring, each leading to the next two.
#[derive(PartialEq, Eq, Hash, Clone, Debug)]
struct Ring(u64);

impl Keyed for Ring {
    fn key_spec(&self) -> u64 {
        unreachable!()
    }

    fn key_is_faithful(&self, _other: &Self) {}

    fn key(&self) -> u64 {
        self.0
    }
}

impl Lookup for Ring {
    fn lookup(&self, _depth: usize) -> Result<Vec<Outcome<Self>>, Failure> {
        Ok(vec![Ok(Ring((self.0 + 1) % 5)), Ok(Ring((self.0 + 2) % 5))])
    }

    fn latency(&self) -> u32 {
        self.0 as u32
    }
}

struct Fetch<N> {
    found: Result<Vec<Outcome<N>>, Failure>,
    polls_left: u32,
}

fn start<N: Lookup>(node: &N, depth: usize) -> Fetch<N> {
    Fetch { found: node.lookup(depth), polls_left: node.latency() }
}

fn branch<N>(found: Result<Vec<Outcome<N>>, Failure>) -> VecDeque<Outcome<N>> {
    match found {
        Ok(children) => children.into(),
        Err(err) => VecDeque::from(vec![Err(err)]),
    }
}

/// One poll of a depth-first stream: `None` while a lookup is unresolved.
fn poll_dfs<N: Lookup>(
    machine: &mut Dfs,
    fetches: &mut VecDeque<Fetch<N>>,
    branches: &mut Vec<VecDeque<Outcome<N>>>,
) -> Option<Option<Outcome<N>>> {
    let mut action = machine.step(Event::Polled);
    loop {
        match action {
            Action::AwaitFetch => {
                let front = fetches.front_mut().unwrap();
                if front.polls_left > 0 {
                    front.polls_left -= 1;
                    return None;
                }
                branches.push(branch(fetches.pop_front().unwrap().found));
                action = machine.step(Event::Fetched);
            }
            Action::PullBranch => match branches.last_mut().unwrap().pop_front() {
                Some(item) => action = machine.step(Event::Item(item)),
                None => {
                    branches.pop();
                    action = machine.step(Event::BranchEnded);
                }
            },
            Action::Emit { item, fetch } => {
                if let Some(depth) = fetch {
                    fetches.push_front(start(item.as_ref().ok().unwrap(), depth));
                }
                return Some(Some(item));
            }
            Action::Finish => return Some(None),
            Action::Unexpected => panic!("the driver answered what was not asked"),
        }
    }
}

/// One poll of a breadth-first stream: `None` while a lookup is unresolved.
fn poll_bfs<N: Lookup>(
    machine: &mut Bfs,
    fetches: &mut VecDeque<Fetch<N>>,
    current: &mut Option<VecDeque<Outcome<N>>>,
) -> Option<Option<Outcome<N>>> {
    let mut action = machine.step(Event::Polled);
    loop {
        match action {
            Action::AwaitFetch => {
                let front = fetches.front_mut().unwrap();
                if front.polls_left > 0 {
                    front.polls_left -= 1;
                    return None;
                }
                *current = Some(branch(fetches.pop_front().unwrap().found));
                action = machine.step(Event::Fetched);
            }
            Action::PullBranch => match current.as_mut().unwrap().pop_front() {
                Some(item) => action = machine.step(Event::Item(item)),
                None => {
                    *current = None;
                    action = machine.step(Event::BranchEnded);
                }
            },
            Action::Emit { item, fetch } => {
                if let Some(depth) = fetch {
                    fetches.push_back(start(item.as_ref().ok().unwrap(), depth));
                }
                return Some(Some(item));
            }
            Action::Finish => return Some(None),
            Action::Unexpected => panic!("the driver answered what was not asked"),
        }
    }
}

fn collect_dfs<N: Lookup>(root: N, max_depth: Option<usize>, allow_circles: bool) -> Vec<Outcome<N>> {
    let mut machine = Dfs::new(&root, max_depth, allow_circles);
    let mut fetches = VecDeque::new();
    fetches.push_front(start(&root, 1));
    let mut branches = Vec::new();
    let mut out = Vec::new();
    loop {
        match poll_dfs(&mut machine, &mut fetches, &mut branches) {
            Some(Some(item)) => out.push(item),
            Some(None) => return out,
            None => {}
        }
    }
}

fn collect_bfs<N: Lookup>(root: N, max_depth: Option<usize>, allow_circles: bool) -> Vec<Outcome<N>> {
    let mut machine = Bfs::new(&root, max_depth, allow_circles);
    let mut fetches = VecDeque::new();
    fetches.push_back(start(&root, 1));
    let mut current = None;
    let mut out = Vec::new();
    loop {
        match poll_bfs(&mut machine, &mut fetches, &mut current) {
            Some(Some(item)) => out.push(item),
            Some(None) => return out,
            None => {}
        }
    }
}

fn levels(items: Vec<Outcome<Level>>) -> Vec<usize> {
    items.into_iter().map(|item| item.unwrap().0).collect()
}

fn trees(items: Vec<Outcome<Tree>>) -> Vec<Result<u64, u64>> {
    items.into_iter().map(|item| item.map(|n| n.0).map_err(|e| e.0)).collect()
}

fn rings(items: Vec<Outcome<Ring>>) -> Vec<u64> {
    items.into_iter().map(|item| item.unwrap().0).collect()
}

#[test]
fn test_bfs_ordered() {
    let depths = levels(collect_bfs(Level(0), Some(3), true));
    assert!(depths.windows(2).all(|pair| pair[1] >= pair[0]));
    assert_eq!(depths, vec![1, 1, 2, 2, 2, 2, 3, 3, 3, 3, 3, 3, 3, 3]);
}

#[test]
fn test_bfs_no_circles_ordered() {
    let depths = levels(collect_bfs(Level(0), Some(3), false));
    assert_eq!(depths, vec![1, 2, 3]);
}

#[test]
fn test_dfs_ordered() {
    let depths = levels(collect_dfs(Level(0), Some(3), true));
    assert_eq!(depths, vec![1, 2, 3, 3, 2, 3, 3, 1, 2, 3, 3, 2, 3, 3]);
}

#[test]
fn test_dfs_no_circles_ordered() {
    let depths = levels(collect_dfs(Level(0), Some(3), false));
    assert_eq!(depths, vec![1, 2, 3]);
}

#[test]
fn latency_does_not_reorder_breadth_first() {
    let expected = vec![
        Ok(1),
        Ok(2),
        Ok(3),
        Ok(4),
        Ok(5),
        Ok(6),
        Ok(7),
        Ok(8),
        Err(4),
        Ok(11),
        Err(5),
        Ok(13),
        Ok(14),
    ];
    assert_eq!(trees(collect_bfs(Tree(0), Some(3), true)), expected);
}

#[test]
fn latency_does_not_reorder_depth_first() {
    let expected = vec![
        Ok(1),
        Ok(3),
        Ok(7),
        Ok(8),
        Ok(4),
        Err(4),
        Ok(2),
        Ok(5),
        Ok(11),
        Err(5),
        Ok(6),
        Ok(13),
        Ok(14),
    ];
    assert_eq!(trees(collect_dfs(Tree(0), Some(3), true)), expected);
}

#[test]
fn streams_suppress_repeats_and_the_root() {
    assert_eq!(rings(collect_bfs(Ring(0), None, false)), vec![1, 2, 3, 4]);
    assert_eq!(rings(collect_dfs(Ring(0), None, false)), vec![1, 2, 3, 4]);
}

#[test]
fn streams_stop_expanding_at_the_bound() {
    assert_eq!(levels(collect_bfs(Level(0), Some(0), true)), vec![1, 1]);
    assert_eq!(levels(collect_dfs(Level(0), Some(1), true)), vec![1, 1]);
    assert_eq!(levels(collect_dfs(Level(0), Some(2), true)), vec![1, 2, 2, 1, 2, 2]);
}

#[test]
fn stream_of_a_failed_root_lookup_is_the_failure() {
    assert_eq!(trees(collect_bfs(Tree(4), None, true)), vec![Err(4)]);
    assert_eq!(trees(collect_dfs(Tree(4), None, true)), vec![Err(4)]);
}

#[test]
fn events_out_of_turn_change_nothing() {
    let root = Level(0);
    let mut machine = Dfs::new(&root, Some(3), true);
    assert!(matches!(machine.step::<Level, Failure>(Event::Fetched), Action::Unexpected));
    assert!(matches!(machine.step::<Level, Failure>(Event::BranchEnded), Action::Unexpected));
    assert!(matches!(machine.step(Event::Item(Ok::<Level, Failure>(Level(1)))), Action::Unexpected));
    assert!(matches!(machine.step::<Level, Failure>(Event::Polled), Action::AwaitFetch));
    assert!(matches!(machine.step::<Level, Failure>(Event::Polled), Action::AwaitFetch));
    assert!(matches!(machine.step::<Level, Failure>(Event::Fetched), Action::PullBranch));
    assert!(matches!(machine.step::<Level, Failure>(Event::Fetched), Action::Unexpected));
    assert!(matches!(
        machine.step(Event::Item(Ok::<Level, Failure>(Level(1)))),
        Action::Emit { item: Ok(Level(1)), fetch: Some(2) }
    ));
    assert!(matches!(machine.step::<Level, Failure>(Event::BranchEnded), Action::Unexpected));

    let mut machine = Bfs::new(&root, Some(1), true);
    assert!(matches!(machine.step::<Level, Failure>(Event::BranchEnded), Action::Unexpected));
    assert!(matches!(machine.step::<Level, Failure>(Event::Polled), Action::AwaitFetch));
    assert!(matches!(machine.step::<Level, Failure>(Event::Fetched), Action::PullBranch));
    assert!(matches!(
        machine.step(Event::Item(Ok::<Level, Failure>(Level(1)))),
        Action::Emit { item: Ok(Level(1)), fetch: None }
    ));
    assert!(matches!(machine.step::<Level, Failure>(Event::Polled), Action::PullBranch));
    assert!(matches!(
        machine.step(Event::Item(Err::<Level, Failure>(Failure(9)))),
        Action::Emit { item: Err(Failure(9)), fetch: None }
    ));
    assert!(matches!(machine.step::<Level, Failure>(Event::Polled), Action::PullBranch));
    assert!(matches!(machine.step::<Level, Failure>(Event::BranchEnded), Action::Finish));
    assert!(matches!(machine.step::<Level, Failure>(Event::Polled), Action::Finish));
}

#[test]
fn stream_depths_match_the_sequential_traversal() {
    for bound in 0..6 {
        let mut walk = par_dfs::sync::bfs::Bfs::new(Level(0), Some(bound), true);
        let mut level_order = Vec::new();
        while let Some(item) = walk.next() {
            level_order.push(item.unwrap().0);
        }
        let mut walk = par_dfs::sync::dfs::Dfs::new(Level(0), Some(bound), true);
        let mut pre_order = Vec::new();
        while let Some(item) = walk.next() {
            pre_order.push(item.unwrap().0);
        }
        assert_eq!(levels(collect_bfs(Level(0), Some(bound), true)), level_order);
        assert_eq!(levels(collect_dfs(Level(0), Some(bound), true)), pre_order);
        let mut sorted = levels(collect_dfs(Level(0), Some(bound), true));
        sorted.sort_unstable();
        assert_eq!(sorted, level_order);
    }
}
