//! The depth-tagged queue shared by all traversals.

use std::collections::HashSet;
use std::collections::VecDeque;
use vstd::prelude::*;

use crate::sync::expansion;
use crate::sync::fast_children_of;
use crate::sync::listed;
use crate::sync::ExtendQueue;
use crate::sync::FastNode;
use crate::sync::Keyed;

verus! {

/// The mathematical content of a [`Queue`]: the buffered entries in order,
/// front first, the keys accepted so far, and whether repeats are allowed.
pub ghost struct QueueView<I, E> {
    pub entries: Seq<(usize, Result<I, E>)>,
    pub visited: Set<u64>,
    pub allow_circles: bool,
}

impl<I: Keyed, E> QueueView<I, E> {
    /// The queue after one outcome is offered at `depth`.
    ///
    /// With repeats allowed every outcome is appended. Otherwise a node is
    /// appended only if its key was not seen before, and its key counts as seen
    /// afterwards either way; a failure is always appended.
    pub open spec fn offer(self, depth: usize, item: Result<I, E>) -> Self {
        if self.allow_circles {
            QueueView { entries: self.entries.push((depth, item)), ..self }
        } else {
            match item {
                Ok(node) => QueueView {
                    entries: if self.visited.contains(node.key_spec()) {
                        self.entries
                    } else {
                        self.entries.push((depth, item))
                    },
                    visited: self.visited.insert(node.key_spec()),
                    allow_circles: false,
                },
                Err(_) => QueueView { entries: self.entries.push((depth, item)), ..self },
            }
        }
    }

    /// The queue after a batch of outcomes is offered at `depth`, first to last.
    pub open spec fn offer_all(self, depth: usize, items: Seq<Result<I, E>>) -> Self
        decreases items.len(),
    {
        if items.len() == 0 {
            self
        } else {
            self.offer_all(depth, items.drop_last()).offer(depth, items.last())
        }
    }

}

impl<I, E> QueueView<I, E> {
    /// The queue after `key` is recorded as seen, which only matters while
    /// repeats are suppressed.
    pub open spec fn seed(self, key: u64) -> Self {
        if self.allow_circles {
            self
        } else {
            QueueView { visited: self.visited.insert(key), ..self }
        }
    }

    /// The queue without its first entry.
    pub open spec fn without_front(self) -> Self {
        QueueView { entries: self.entries.drop_first(), ..self }
    }

    /// The queue without its last entry.
    pub open spec fn without_back(self) -> Self {
        QueueView { entries: self.entries.drop_last(), ..self }
    }

    /// The empty queue that has seen nothing.
    pub open spec fn fresh(allow_circles: bool) -> Self {
        QueueView { entries: Seq::empty(), visited: Set::empty(), allow_circles }
    }

    /// One half of a split: the given entries, with suppression switched off.
    pub open spec fn detached(entries: Seq<(usize, Result<I, E>)>) -> Self {
        QueueView { entries, visited: Set::empty(), allow_circles: true }
    }
}

/// A double-ended queue of `(depth, outcome)` entries with optional
/// suppression of repeated nodes.
#[derive(Debug)]
pub struct Queue<I, E> {
    inner: VecDeque<(usize, Result<I, E>)>,
    visited: HashSet<u64>,
    allow_circles: bool,
}

impl<I, E> View for Queue<I, E> {
    type V = QueueView<I, E>;

    closed spec fn view(&self) -> QueueView<I, E> {
        QueueView {
            entries: self.inner@,
            visited: self.visited@,
            allow_circles: self.allow_circles,
        }
    }
}

impl<I, E> Queue<I, E> {
    /// Creates an empty queue that has seen nothing.
    pub fn new(allow_circles: bool) -> (queue: Self)
        ensures
            queue@ == QueueView::<I, E>::fresh(allow_circles),
    {
        Queue { inner: VecDeque::new(), visited: HashSet::new(), allow_circles }
    }

    /// The number of buffered entries.
    pub fn len(&self) -> (n: usize)
        ensures
            n == self@.entries.len(),
    {
        self.inner.len()
    }

    /// Whether no entry is buffered.
    pub fn is_empty(&self) -> (b: bool)
        ensures
            b == (self@.entries.len() == 0),
    {
        self.inner.len() == 0
    }

    /// Removes and returns the last entry, if there is one.
    pub fn pop_back(&mut self) -> (entry: Option<(usize, Result<I, E>)>)
        ensures
            old(self)@.entries.len() == 0 ==> entry.is_none() && final(self)@ == old(self)@,
            old(self)@.entries.len() > 0 ==> entry == Some(old(self)@.entries.last())
                && final(self)@ == old(self)@.without_back(),
    {
        self.inner.pop_back()
    }

    /// Removes and returns the first entry, if there is one.
    pub fn pop_front(&mut self) -> (entry: Option<(usize, Result<I, E>)>)
        ensures
            old(self)@.entries.len() == 0 ==> entry.is_none() && final(self)@ == old(self)@,
            old(self)@.entries.len() > 0 ==> entry == Some(old(self)@.entries.first())
                && final(self)@ == old(self)@.without_front(),
    {
        self.inner.pop_front()
    }
}

impl<I, E> Default for Queue<I, E> {
    /// The empty queue that suppresses repeats.
    fn default() -> (queue: Self)
        ensures
            queue@ == QueueView::<I, E>::fresh(false),
    {
        Queue::new(false)
    }
}

/// Records `key` as seen and reports whether it was new.
pub fn unvisited(visited: &mut HashSet<u64>, key: u64) -> (fresh: bool)
    ensures
        fresh == !old(visited)@.contains(key),
        final(visited)@ == old(visited)@.insert(key),
{
    if visited.contains(&key) {
        assert(visited@ =~= old(visited)@.insert(key));
        false
    } else {
        visited.insert(key);
        true
    }
}

impl<I: Keyed, E> Queue<I, E> {
    /// Offers one outcome at `depth`.
    pub fn add(&mut self, depth: usize, item: Result<I, E>)
        ensures
            final(self)@ == old(self)@.offer(depth, item),
    {
        if self.allow_circles {
            self.inner.push_back((depth, item));
        } else {
            match item {
                Ok(node) => {
                    let key = node.key();
                    if unvisited(&mut self.visited, key) {
                        self.inner.push_back((depth, Ok(node)));
                    }
                },
                Err(err) => self.inner.push_back((depth, Err(err))),
            }
        }
    }

    /// Offers a batch of outcomes at `depth`, first to last.
    pub fn add_all(&mut self, depth: usize, items: Vec<Result<I, E>>)
        ensures
            final(self)@ == old(self)@.offer_all(depth, items@),
    {
        let ghost all = items@;
        let ghost start = self@;
        for item in it: items.into_iter()
            invariant
                it.seq() == all,
                self@ == start.offer_all(depth, all.take(it.index())),
        {
            assert(all.take(it.index() + 1).drop_last() =~= all.take(it.index()));
            self.add(depth, item);
        }
        assert(all.take(all.len() as int) =~= all);
    }

    /// Offers what a lookup of children gave at `depth`: the children, first
    /// to last, or the failure of the lookup as a whole.
    pub fn expand(&mut self, depth: usize, found: Result<Vec<Result<I, E>>, E>)
        ensures
            final(self)@ == old(self)@.offer_all(depth, expansion(listed(found))),
    {
        match found {
            Ok(children) => self.add_all(depth, children),
            Err(err) => {
                proof {
                    lemma_offer_all_single(self@, depth, Err(err));
                }
                self.add(depth, Err(err))
            },
        }
    }

    /// Records `key` as seen, so that a node with this key is never appended
    /// while repeats are suppressed.
    pub fn mark(&mut self, key: u64)
        ensures
            final(self)@ == old(self)@.seed(key),
    {
        if !self.allow_circles {
            self.visited.insert(key);
        }
    }
}

impl<I, E> Queue<I, E> {
    /// Moves the entries from position `at` on into a new queue and keeps the
    /// rest. Both queues allow repeats afterwards and have seen nothing: two
    /// halves that advance on their own cannot share one record of what was seen.
    pub fn split_off(&mut self, at: usize) -> (tail: Self)
        requires
            at <= old(self)@.entries.len(),
        ensures
            final(self)@ == QueueView::detached(old(self)@.entries.subrange(0, at as int)),
            tail@ == QueueView::detached(
                old(self)@.entries.subrange(at as int, old(self)@.entries.len() as int),
            ),
    {
        let split = self.inner.split_off(at);
        self.visited = HashSet::new();
        self.allow_circles = true;
        Queue { inner: split, visited: HashSet::new(), allow_circles: true }
    }
}

/// Offering two batches one after the other is offering their concatenation.
pub proof fn lemma_offer_all_concat<I: Keyed, E>(
    queue: QueueView<I, E>,
    depth: usize,
    first: Seq<Result<I, E>>,
    second: Seq<Result<I, E>>,
)
    ensures
        queue.offer_all(depth, first + second) == queue.offer_all(depth, first).offer_all(
            depth,
            second,
        ),
    decreases second.len(),
{
    if second.len() == 0 {
        assert(first + second =~= first);
    } else {
        assert((first + second).drop_last() =~= first + second.drop_last());
        lemma_offer_all_concat(queue, depth, first, second.drop_last());
    }
}

/// Offering a batch of one outcome is offering that outcome.
pub proof fn lemma_offer_all_single<I: Keyed, E>(
    queue: QueueView<I, E>,
    depth: usize,
    item: Result<I, E>,
)
    ensures
        queue.offer_all(depth, seq![item]) == queue.offer(depth, item),
{
    assert(seq![item].drop_last() =~= Seq::<Result<I, E>>::empty());
    assert(queue.offer_all(depth, Seq::<Result<I, E>>::empty()) == queue);
}

/// A handle that offers outcomes to a queue at one fixed depth.
pub struct QueueWrapper<I, E> {
    inner: Queue<I, E>,
    depth: usize,
}

impl<I: Keyed, E> QueueWrapper<I, E> {
    /// The depth at which this handle records what it is offered.
    pub closed spec fn depth(&self) -> usize {
        self.depth
    }

    /// The queue behind this handle.
    pub closed spec fn queue(&self) -> QueueView<I, E> {
        self.inner@
    }

    /// Wraps `queue` so that everything offered is recorded at `depth`.
    pub fn new(depth: usize, queue: Queue<I, E>) -> (wrapper: Self)
        ensures
            wrapper.depth() == depth,
            wrapper.queue() == queue@,
    {
        QueueWrapper { inner: queue, depth }
    }

    /// Gives the queue back.
    pub fn into_inner(self) -> (queue: Queue<I, E>)
        ensures
            queue@ == self.queue(),
    {
        self.inner
    }
}

impl<I: Keyed, E> ExtendQueue<I, E> for QueueWrapper<I, E> {
    open spec fn extended_by(&self, before: &Self, items: Seq<Result<I, E>>) -> bool {
        &&& self.depth() == before.depth()
        &&& self.queue() == before.queue().offer_all(before.depth(), items)
    }

    proof fn extended_by_nothing(&self) {
    }

    proof fn extended_by_chain(
        &self,
        mid: &Self,
        before: &Self,
        first: Seq<Result<I, E>>,
        second: Seq<Result<I, E>>,
    ) {
        lemma_offer_all_concat(before.queue(), before.depth(), first, second);
    }

    fn add(&mut self, item: Result<I, E>) {
        proof {
            lemma_offer_all_single(self.inner@, self.depth, item);
        }
        self.inner.add(self.depth, item);
    }

    fn add_all(&mut self, items: Vec<Result<I, E>>) {
        self.inner.add_all(self.depth, items);
    }
}

impl<N: FastNode> Queue<N, N::Error> {
    /// Lets `node` offer its children at `depth` in place, and offers the
    /// failure of the lookup after them if it failed.
    pub fn expand_in_place(&mut self, node: &N, depth: usize)
        ensures
            final(self)@ == old(self)@.offer_all(depth, fast_children_of::<N>()(*node, depth)),
    {
        let mut taken = Queue::new(true);
        std::mem::swap(self, &mut taken);
        let mut depth_queue = QueueWrapper::new(depth, taken);
        let ghost before = depth_queue;
        let done = node.add_children(depth, &mut depth_queue);
        if let Err(err) = done {
            let ghost mid = depth_queue;
            depth_queue.add(Err(err));
            proof {
                depth_queue.extended_by_chain(&mid, &before, node.offered(depth), seq![Err(err)]);
                assert(node.offered(depth) + seq![Err(err)] =~= node.offered(depth).push(Err(err)));
            }
        }
        *self = depth_queue.into_inner();
    }
}

} // verus!
