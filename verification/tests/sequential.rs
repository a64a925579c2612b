use par_dfs::sync::bfs::Bfs;
use par_dfs::sync::bfs::FastBfs;
use par_dfs::sync::dfs::Dfs;
use par_dfs::sync::dfs::FastDfs;
use par_dfs::sync::ExtendQueue;
use par_dfs::sync::FastNode;
use par_dfs::sync::Keyed;
use par_dfs::sync::Node;
use vstd::prelude::Seq;

#[derive(PartialEq, Eq, Hash, Clone, Debug)]
struct Failure(u64);

/// A node whose children at a depth are two copies of that depth.
#[derive(PartialEq, Eq, Hash, Clone, Debug)]
struct Level(usize);

impl Keyed for Level {
    fn key_spec(&self) -> u64 {
        unreachable!()
    }

    fn key_is_faithful(&self, _other: &Self) {}

    fn key(&self) -> u64 {
        self.0 as u64
    }
}

impl Node for Level {
    type Error = Failure;

    fn successors(&self, _depth: usize) -> Result<Seq<Result<Self, Failure>>, Failure> {
        unreachable!()
    }

    fn children(&self, depth: usize) -> Result<Vec<Result<Self, Failure>>, Failure> {
        Ok(vec![Ok(Level(depth)), Ok(Level(depth))])
    }
}

impl FastNode for Level {
    type Error = Failure;

    fn offered(&self, _depth: usize) -> Seq<Result<Self, Failure>> {
        unreachable!()
    }

    fn failure(&self, _depth: usize) -> Option<Failure> {
        unreachable!()
    }

    fn add_children<Q: ExtendQueue<Self, Failure>>(
        &self,
        depth: usize,
        queue: &mut Q,
    ) -> Result<(), Failure> {
        queue.add(Ok(Level(depth)));
        queue.add_all(vec![Ok(Level(depth))]);
        Ok(())
    }
}

/// A binary tree in which node 4 cannot be expanded and node 5 has one child
/// that is found and one that fails.
#[derive(PartialEq, Eq, Hash, Clone, Debug)]
struct Tree(u64);

impl Keyed for Tree {
    fn key_spec(&self) -> u64 {
        unreachable!()
    }

    fn key_is_faithful(&self, _other: &Self) {}

    fn key(&self) -> u64 {
        self.0
    }
}

impl Node for Tree {
    type Error = Failure;

    fn successors(&self, _depth: usize) -> Result<Seq<Result<Self, Failure>>, Failure> {
        unreachable!()
    }

    fn children(&self, _depth: usize) -> Result<Vec<Result<Self, Failure>>, Failure> {
        let n = self.0;
        if n == 4 {
            Err(Failure(4))
        } else if n == 5 {
            Ok(vec![Ok(Tree(11)), Err(Failure(5))])
        } else {
            Ok(vec![Ok(Tree(2 * n + 1)), Ok(Tree(2 * n + 2))])
        }
    }
}

impl FastNode for Tree {
    type Error = Failure;

    fn offered(&self, _depth: usize) -> Seq<Result<Self, Failure>> {
        unreachable!()
    }

    fn failure(&self, _depth: usize) -> Option<Failure> {
        unreachable!()
    }

    fn add_children<Q: ExtendQueue<Self, Failure>>(
        &self,
        _depth: usize,
        queue: &mut Q,
    ) -> Result<(), Failure> {
        let n = self.0;
        if n == 4 {
            return Err(Failure(4));
        }
        if n == 5 {
            queue.add(Ok(Tree(11)));
            return Err(Failure(5));
        }
        queue.add(Ok(Tree(2 * n + 1)));
        queue.add(Ok(Tree(2 * n + 2)));
        Ok(())
    }
}

/// Five nodes in a ring, each leading to the next two.
#[derive(PartialEq, Eq, Hash, Clone, Debug)]
struct Ring(u64);

impl Keyed for Ring {
    fn key_spec(&self) -> u64 {
        unreachable!()
    }

    fn key_is_faithful(&self, _other: &Self) {}

    fn key(&self) -> u64 {
        self.0
    }
}

impl Node for Ring {
    type Error = Failure;

    fn successors(&self, _depth: usize) -> Result<Seq<Result<Self, Failure>>, Failure> {
        unreachable!()
    }

    fn children(&self, _depth: usize) -> Result<Vec<Result<Self, Failure>>, Failure> {
        Ok(vec![Ok(Ring((self.0 + 1) % 5)), Ok(Ring((self.0 + 2) % 5))])
    }
}

impl FastNode for Ring {
    type Error = Failure;

    fn offered(&self, _depth: usize) -> Seq<Result<Self, Failure>> {
        unreachable!()
    }

    fn failure(&self, _depth: usize) -> Option<Failure> {
        unreachable!()
    }

    fn add_children<Q: ExtendQueue<Self, Failure>>(
        &self,
        _depth: usize,
        queue: &mut Q,
    ) -> Result<(), Failure> {
        queue.add_all(vec![Ok(Ring((self.0 + 1) % 5)), Ok(Ring((self.0 + 2) % 5))]);
        Ok(())
    }
}

fn drain_bfs<N: Node>(mut walk: Bfs<N>) -> Vec<Result<N, N::Error>> {
    let mut out = Vec::new();
    while let Some(item) = walk.next() {
        out.push(item);
    }
    out
}

fn drain_fast_bfs<N: FastNode>(mut walk: FastBfs<N>) -> Vec<Result<N, N::Error>> {
    let mut out = Vec::new();
    while let Some(item) = walk.next() {
        out.push(item);
    }
    out
}

fn drain_dfs<N: Node>(mut walk: Dfs<N>) -> Vec<Result<N, N::Error>> {
    let mut out = Vec::new();
    while let Some(item) = walk.next() {
        out.push(item);
    }
    out
}

fn drain_fast_dfs<N: FastNode>(mut walk: FastDfs<N>) -> Vec<Result<N, N::Error>> {
    let mut out = Vec::new();
    while let Some(item) = walk.next() {
        out.push(item);
    }
    out
}

fn levels(items: Vec<Result<Level, Failure>>) -> Vec<usize> {
    items.into_iter().map(|item| item.unwrap().0).collect()
}

fn trees(items: Vec<Result<Tree, Failure>>) -> Vec<Result<u64, u64>> {
    items.into_iter().map(|item| item.map(|n| n.0).map_err(|e| e.0)).collect()
}

fn rings(items: Vec<Result<Ring, Failure>>) -> Vec<u64> {
    items.into_iter().map(|item| item.unwrap().0).collect()
}

fn is_monotonic(depths: &[usize]) -> bool {
    depths.windows(2).all(|pair| pair[1] >= pair[0])
}

#[test]
fn test_bfs_serial() {
    let depths = levels(drain_bfs(Bfs::new(Level(0), Some(3), true)));
    assert!(is_monotonic(&depths));
    assert_eq!(depths, vec![1, 1, 2, 2, 2, 2, 3, 3, 3, 3, 3, 3, 3, 3]);
}

#[test]
fn test_fast_bfs_serial() {
    let depths = levels(drain_fast_bfs(FastBfs::new(Level(0), Some(3), true)));
    assert!(is_monotonic(&depths));
    assert_eq!(depths, vec![1, 1, 2, 2, 2, 2, 3, 3, 3, 3, 3, 3, 3, 3]);
}

#[test]
fn test_bfs_no_circles_serial() {
    let depths = levels(drain_bfs(Bfs::new(Level(0), Some(3), false)));
    assert!(is_monotonic(&depths));
    assert_eq!(depths, vec![1, 2, 3]);
}

#[test]
fn test_fast_bfs_no_circles_serial() {
    let depths = levels(drain_fast_bfs(FastBfs::new(Level(0), Some(3), false)));
    assert!(is_monotonic(&depths));
    assert_eq!(depths, vec![1, 2, 3]);
}

#[test]
fn test_dfs_serial() {
    let depths = levels(drain_dfs(Dfs::new(Level(0), Some(3), true)));
    assert_eq!(depths, vec![1, 2, 3, 3, 2, 3, 3, 1, 2, 3, 3, 2, 3, 3]);
}

#[test]
fn test_dfs_no_circles_serial() {
    let depths = levels(drain_dfs(Dfs::new(Level(0), Some(3), false)));
    assert_eq!(depths, vec![1, 2, 3]);
}

#[test]
fn test_fast_dfs_serial() {
    let depths = levels(drain_fast_dfs(FastDfs::new(Level(0), Some(3), true)));
    assert_eq!(depths, vec![1, 2, 3, 3, 2, 3, 3, 1, 2, 3, 3, 2, 3, 3]);
}

#[test]
fn test_fast_dfs_no_circles_serial() {
    let depths = levels(drain_fast_dfs(FastDfs::new(Level(0), Some(3), false)));
    assert_eq!(depths, vec![1, 2, 3]);
}

#[test]
fn bound_of_zero_emits_the_first_level_only() {
    assert_eq!(levels(drain_bfs(Bfs::new(Level(0), Some(0), true))), vec![1, 1]);
    assert_eq!(levels(drain_dfs(Dfs::new(Level(0), Some(0), true))), vec![1, 1]);
    assert_eq!(levels(drain_fast_bfs(FastBfs::new(Level(0), Some(0), true))), vec![1, 1]);
    assert_eq!(levels(drain_fast_dfs(FastDfs::new(Level(0), Some(0), true))), vec![1, 1]);
}

#[test]
fn bound_truncates_expansion_not_emission() {
    let depths = levels(drain_bfs(Bfs::new(Level(0), Some(2), true)));
    assert_eq!(depths, vec![1, 1, 2, 2, 2, 2]);
    assert!(depths.iter().all(|d| *d <= 2));
}

#[test]
fn bfs_places_failures_where_they_were_found() {
    let expected = vec![
        Ok(1),
        Ok(2),
        Ok(3),
        Ok(4),
        Ok(5),
        Ok(6),
        Ok(7),
        Ok(8),
        Err(4),
        Ok(11),
        Err(5),
        Ok(13),
        Ok(14),
    ];
    assert_eq!(trees(drain_bfs(Bfs::new(Tree(0), Some(3), true))), expected);
    assert_eq!(trees(drain_fast_bfs(FastBfs::new(Tree(0), Some(3), true))), expected);
}

#[test]
fn dfs_places_failures_where_they_were_found() {
    let expected = vec![
        Ok(2),
        Ok(6),
        Ok(14),
        Ok(13),
        Ok(5),
        Err(5),
        Ok(11),
        Ok(1),
        Ok(4),
        Err(4),
        Ok(3),
        Ok(8),
        Ok(7),
    ];
    assert_eq!(trees(drain_dfs(Dfs::new(Tree(0), Some(3), true))), expected);
    assert_eq!(trees(drain_fast_dfs(FastDfs::new(Tree(0), Some(3), true))), expected);
}

#[test]
fn failed_root_lookup_is_the_only_item() {
    assert_eq!(trees(drain_bfs(Bfs::new(Tree(4), None, true))), vec![Err(4)]);
    assert_eq!(trees(drain_dfs(Dfs::new(Tree(4), None, true))), vec![Err(4)]);
    assert_eq!(trees(drain_fast_bfs(FastBfs::new(Tree(4), None, true))), vec![Err(4)]);
    assert_eq!(trees(drain_fast_dfs(FastDfs::new(Tree(4), None, true))), vec![Err(4)]);
}

#[test]
fn suppression_emits_each_node_once() {
    assert_eq!(rings(drain_bfs(Bfs::new(Ring(0), None, false))), vec![1, 2, 3, 4]);
    assert_eq!(rings(drain_fast_bfs(FastBfs::new(Ring(0), None, false))), vec![1, 2, 3, 4]);
    assert_eq!(rings(drain_dfs(Dfs::new(Ring(0), None, false))), vec![2, 4, 3, 1]);
    assert_eq!(rings(drain_fast_dfs(FastDfs::new(Ring(0), None, false))), vec![2, 4, 3, 1]);
}

#[test]
fn circles_are_followed_when_allowed() {
    let found = rings(drain_bfs(Bfs::new(Ring(0), Some(2), true)));
    assert_eq!(found, vec![1, 2, 2, 3, 3, 4]);
}

#[test]
fn exhausted_traversal_stays_exhausted() {
    let mut walk = Bfs::new(Level(0), Some(0), true);
    assert!(walk.next().is_some());
    assert!(walk.next().is_some());
    assert!(walk.next().is_none());
    assert!(walk.next().is_none());
}

#[test]
fn split_moves_the_second_half() {
    let mut walk = Bfs::new(Level(0), Some(2), true);
    assert_eq!(walk.next().map(|item| item.unwrap().0), Some(1));
    // buffered now: 1, 2, 2
    let half = walk.split().unwrap();
    assert_eq!(levels(drain_bfs(walk)), vec![1, 2, 2]);
    assert_eq!(levels(drain_bfs(half)), vec![2, 2]);
}

#[test]
fn split_needs_two_entries() {
    let mut walk = Dfs::new(Level(0), Some(1), false);
    // one entry is buffered: the second copy was suppressed
    assert!(walk.split().is_none());
    assert_eq!(levels(drain_dfs(walk)), vec![1]);
}

#[test]
fn split_switches_suppression_off() {
    let mut walk = Bfs::new(Ring(0), Some(2), false);
    // buffered: 1, 2
    let half = walk.split().unwrap();
    assert_eq!(rings(drain_bfs(walk)), vec![1, 2, 3]);
    assert_eq!(rings(drain_bfs(half)), vec![2, 3, 4]);
}
