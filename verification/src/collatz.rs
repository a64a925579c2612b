//! The numbers that reach a starting point under the Collatz map, searched
//! depth-first over the graph of their orbits.

use std::collections::HashSet;
use std::collections::VecDeque;
use std::convert::Infallible;
use vstd::prelude::*;

use crate::sync::par::SplittableIterator;
use crate::sync::walk::at_bound;
use crate::sync::walk::bound;
use crate::sync::bfs::Bfs;
use crate::sync::bfs::FastBfs;
use crate::sync::children_of;
use crate::sync::dfs::Dfs;
use crate::sync::dfs::FastDfs;
use crate::sync::fast_children_of;
use crate::sync::ExtendQueue;
use crate::sync::FastNode;
use crate::sync::Keyed;
use crate::sync::Node;

verus! {

/// The numbers that the Collatz map sends to `n` in one step: `2n` where it
/// fits in 32 bits, then `(n - 1) / 3` where `n` is above 4 and leaves the
/// remainder 4 when divided by 6.
pub open spec fn predecessors(n: u32) -> Seq<u32> {
    let even = if 2 * n <= u32::MAX {
        seq![(2 * n) as u32]
    } else {
        Seq::empty()
    };
    let odd = if n > 4 && n % 6 == 4 {
        seq![((n - 1) / 3) as u32]
    } else {
        Seq::empty()
    };
    even + odd
}

/// A number as a node of the graph of Collatz orbits.
#[derive(Debug, Clone, Copy, PartialEq, Eq, Hash)]
pub struct CollatzNode(pub u32);

/// The predecessors of `n` as the outcomes that a node reports.
pub open spec fn predecessor_nodes(n: u32) -> Seq<Result<CollatzNode, Infallible>> {
    predecessors(n).map_values(|m: u32| Ok::<CollatzNode, Infallible>(CollatzNode(m)))
}

impl From<u32> for CollatzNode {
    fn from(n: u32) -> (node: Self) {
        CollatzNode(n)
    }
}

impl vstd::std_specs::convert::FromSpecImpl<u32> for CollatzNode {
    open spec fn obeys_from_spec() -> bool {
        true
    }

    open spec fn from_spec(n: u32) -> Self {
        CollatzNode(n)
    }
}

impl From<CollatzNode> for u32 {
    fn from(node: CollatzNode) -> (n: Self) {
        node.0
    }
}

impl vstd::std_specs::convert::FromSpecImpl<CollatzNode> for u32 {
    open spec fn obeys_from_spec() -> bool {
        true
    }

    open spec fn from_spec(node: CollatzNode) -> Self {
        node.0
    }
}

impl CollatzNode {
    /// The nodes from which the Collatz map leads to this one in one step.
    pub fn collatz_children(&self) -> (children: Vec<Result<CollatzNode, Infallible>>)
        ensures
            children@ == predecessor_nodes(self.0),
    {
        let n = self.0;
        let mut children: Vec<Result<CollatzNode, Infallible>> = Vec::new();
        if let Some(even) = n.checked_mul(2) {
            children.push(Ok(CollatzNode(even)));
        }
        if n > 4 && n % 6 == 4 {
            children.push(Ok(CollatzNode((n - 1) / 3)));
        }
        assert(children@ =~= predecessor_nodes(n));
        children
    }
}

impl Keyed for CollatzNode {
    open spec fn key_spec(&self) -> u64 {
        self.0 as u64
    }

    proof fn key_is_faithful(&self, other: &Self) {
    }

    fn key(&self) -> (k: u64) {
        self.0 as u64
    }
}

impl Node for CollatzNode {
    type Error = Infallible;

    open spec fn successors(&self, depth: usize) -> Result<
        Seq<Result<CollatzNode, Infallible>>,
        Infallible,
    > {
        Ok(predecessor_nodes(self.0))
    }

    fn children(&self, depth: usize) -> (found: Result<
        Vec<Result<CollatzNode, Infallible>>,
        Infallible,
    >) {
        Ok(self.collatz_children())
    }
}

impl FastNode for CollatzNode {
    type Error = Infallible;

    open spec fn offered(&self, depth: usize) -> Seq<Result<CollatzNode, Infallible>> {
        predecessor_nodes(self.0)
    }

    open spec fn failure(&self, depth: usize) -> Option<Infallible> {
        None
    }

    fn add_children<Q: ExtendQueue<CollatzNode, Infallible>>(
        &self,
        depth: usize,
        queue: &mut Q,
    ) -> (done: Result<(), Infallible>) {
        let n = self.0;
        let ghost before = *queue;
        let ghost mut sent: Seq<Result<CollatzNode, Infallible>> = Seq::empty();
        proof {
            queue.extended_by_nothing();
        }
        if let Some(even) = n.checked_mul(2) {
            let ghost mid = *queue;
            queue.add(Ok(CollatzNode(even)));
            proof {
                queue.extended_by_chain(&mid, &before, sent, seq![Ok(CollatzNode(even))]);
                sent = sent + seq![Ok(CollatzNode(even))];
            }
        }
        if n > 4 && n % 6 == 4 {
            let ghost mid = *queue;
            queue.add(Ok(CollatzNode((n - 1) / 3)));
            proof {
                queue.extended_by_chain(&mid, &before, sent, seq![Ok(CollatzNode(((n - 1) / 3) as u32))]);
                sent = sent + seq![Ok(CollatzNode(((n - 1) / 3) as u32))];
            }
        }
        assert(sent =~= predecessor_nodes(n));
        Ok(())
    }
}

/// Both forms of the node report the same children: whether they are looked
/// up or added in place, a traversal of Collatz orbits starts in the same
/// state and takes the same steps.
pub proof fn lemma_forms_agree(root: CollatzNode, max_depth: Option<usize>, allow_circles: bool)
    ensures
        children_of::<CollatzNode>() == fast_children_of::<CollatzNode>(),
        forall|node: CollatzNode, depth: usize|
            #[trigger] children_of::<CollatzNode>()(node, depth) == predecessor_nodes(node.0),
        Dfs::<CollatzNode>::start(root, max_depth, allow_circles) == FastDfs::<CollatzNode>::start(
            root,
            max_depth,
            allow_circles,
        ),
        Bfs::<CollatzNode>::start(root, max_depth, allow_circles) == FastBfs::<CollatzNode>::start(
            root,
            max_depth,
            allow_circles,
        ),
{
    assert(children_of::<CollatzNode>() =~= fast_children_of::<CollatzNode>());
}

/// The mathematical content of a [`CollatzDfs`].
pub ghost struct CollatzView {
    pub entries: Seq<(usize, Result<u32, Infallible>)>,
    pub visited: Set<u32>,
    pub allow_circles: bool,
    pub max_depth: Option<usize>,
}

impl CollatzView {
    /// The entries that the number `n`, taken at `depth` after `visited` was
    /// brought up to date, puts on the stack: its predecessors one level
    /// deeper, without those seen before unless repeats are allowed.
    pub open spec fn found(self, visited: Set<u32>, depth: usize, n: u32) -> Seq<
        (usize, Result<u32, Infallible>),
    > {
        predecessors(n).filter(|m: u32| self.allow_circles || !visited.contains(m)).map_values(
            |m: u32| ((depth + 1) as usize, Ok::<u32, Infallible>(m)),
        )
    }

    /// The search after one step.
    ///
    /// The last entry leaves the stack. A number is recorded as seen when it
    /// leaves, not when it enters. Below the depth bound it is followed by
    /// its predecessors.
    pub open spec fn step(self) -> Self {
        if self.entries.len() == 0 {
            self
        } else {
            let rest = self.entries.drop_last();
            match self.entries.last().1 {
                Ok(n) => {
                    let visited = self.visited.insert(n);
                    let depth = self.entries.last().0;
                    if depth < bound(self.max_depth) {
                        CollatzView {
                            entries: rest + self.found(visited, depth, n),
                            visited,
                            ..self
                        }
                    } else {
                        CollatzView { entries: rest, visited, ..self }
                    }
                },
                Err(_) => CollatzView { entries: rest, ..self },
            }
        }
    }

    /// The two parts that a split leaves, the kept one first, or `None` where
    /// fewer than two entries are on the stack. Both parts allow repeats and
    /// have seen nothing.
    pub open spec fn halves(self) -> Option<(Self, Self)> {
        let len = self.entries.len() as int;
        if len >= 2 {
            Some(
                (
                    CollatzView {
                        entries: self.entries.subrange(0, len / 2),
                        visited: Set::empty(),
                        allow_circles: true,
                        max_depth: self.max_depth,
                    },
                    CollatzView {
                        entries: self.entries.subrange(len / 2, len),
                        visited: Set::empty(),
                        allow_circles: true,
                        max_depth: self.max_depth,
                    },
                ),
            )
        } else {
            None
        }
    }
}

/// Depth-first search for the numbers that reach a starting point.
#[derive(Debug)]
pub struct CollatzDfs {
    max_depth: Option<usize>,
    queue: VecDeque<(usize, Result<u32, Infallible>)>,
    visited: HashSet<u32>,
    allow_circles: bool,
}

impl View for CollatzDfs {
    type V = CollatzView;

    closed spec fn view(&self) -> CollatzView {
        CollatzView {
            entries: self.queue@,
            visited: self.visited@,
            allow_circles: self.allow_circles,
            max_depth: self.max_depth,
        }
    }
}

impl CollatzDfs {
    /// Sets up the search from `start`, which is put on the stack at depth 0
    /// and counts as seen.
    pub fn new(start: u32, max_depth: Option<usize>, allow_circles: bool) -> (dfs: Self)
        ensures
            dfs@ == (CollatzView {
                entries: seq![(0usize, Ok::<u32, Infallible>(start))],
                visited: set![start],
                allow_circles,
                max_depth,
            }),
    {
        let mut queue: VecDeque<(usize, Result<u32, Infallible>)> = VecDeque::new();
        queue.push_back((0, Ok(start)));
        let mut visited: HashSet<u32> = HashSet::new();
        visited.insert(start);
        assert(queue@ =~= seq![(0usize, Ok::<u32, Infallible>(start))]);
        assert(visited@ =~= set![start]);
        CollatzDfs { max_depth, queue, visited, allow_circles }
    }

    /// Emits the next number, or `None` once the search is exhausted.
    pub fn next(&mut self) -> (item: Option<Result<u32, Infallible>>)
        ensures
            final(self)@ == old(self)@.step(),
            item == if old(self)@.entries.len() == 0 {
                None
            } else {
                Some(old(self)@.entries.last().1)
            },
    {
        match self.queue.pop_back() {
            Some((depth, Ok(n))) => {
                self.visited.insert(n);
                if at_bound(self.max_depth, depth) {
                    return Some(Ok(n));
                }
                let ghost rest = self.queue@;
                let ghost keep = |m: u32| self.allow_circles || !self.visited@.contains(m);
                let ghost tag = |m: u32| ((depth + 1) as usize, Ok::<u32, Infallible>(m));
                let ghost mut seen: Seq<u32> = Seq::empty();
                proof {
                    reveal_with_fuel(Seq::filter, 3);
                }
                if let Some(even) = n.checked_mul(2) {
                    if self.allow_circles || !self.visited.contains(&even) {
                        self.queue.push_back((depth + 1, Ok(even)));
                    }
                    proof {
                        seen = seen.push(even);
                    }
                }
                if n > 4 && n % 6 == 4 {
                    let odd = (n - 1) / 3;
                    if self.allow_circles || !self.visited.contains(&odd) {
                        self.queue.push_back((depth + 1, Ok(odd)));
                    }
                    proof {
                        seen = seen.push(odd);
                    }
                }
                assert(seen =~= predecessors(n));
                assert(self.queue@ =~= rest + seen.filter(keep).map_values(tag));
                Some(Ok(n))
            },
            Some((_, n)) => Some(n),
            None => None,
        }
    }

    /// Moves the upper half of the stack into a new search, if at least two
    /// entries are on it. Neither half can avoid repeats afterwards.
    pub fn split(&mut self) -> (half: Option<Self>)
        ensures
            match old(self)@.halves() {
                Some((kept, given)) => half is Some && final(self)@ == kept && half->0@ == given,
                None => half is None && final(self)@ == old(self)@,
            },
    {
        let len = self.queue.len();
        if len >= 2 {
            let split = self.queue.split_off(len / 2);
            self.visited = HashSet::new();
            self.allow_circles = true;
            Some(
                CollatzDfs {
                    queue: split,
                    max_depth: self.max_depth,
                    visited: HashSet::new(),
                    allow_circles: true,
                },
            )
        } else {
            None
        }
    }
}

impl SplittableIterator for CollatzDfs {
    type Item = Result<u32, Infallible>;

    type State = CollatzView;

    open spec fn state(&self) -> CollatzView {
        self@
    }

    open spec fn advanced(state: CollatzView) -> (CollatzView, Option<Result<u32, Infallible>>) {
        (
            state.step(),
            if state.entries.len() == 0 {
                None
            } else {
                Some(state.entries.last().1)
            },
        )
    }

    open spec fn parts(state: CollatzView) -> Option<(CollatzView, CollatzView)> {
        state.halves()
    }

    fn next(&mut self) -> (item: Option<Result<u32, Infallible>>) {
        CollatzDfs::next(self)
    }

    fn split(&mut self) -> (half: Option<Self>) {
        CollatzDfs::split(self)
    }
}

} // verus!
