//! Splitting a traversal across the workers of a thread pool.
//!
//! The size of a traversal is not known before it has run, so the work is
//! divided as it is found: a traversal is split in two while the budget of
//! splits lasts, and advanced by one item whenever it is too small to split.

use vstd::prelude::*;

verus! {

/// An iterator that can hand half of what it holds to a new iterator.
///
/// What `next` and `split` do is fixed by the state of the iterator.
pub trait SplittableIterator: Sized {
    /// What the iterator emits.
    type Item;

    /// The state of the iterator as a mathematical value.
    type State;

    /// The state of this iterator.
    spec fn state(&self) -> Self::State;

    /// The state after one step, and what the step emits.
    spec fn advanced(state: Self::State) -> (Self::State, Option<Self::Item>);

    /// The two parts that a split leaves, the kept one first, or `None` where
    /// the iterator is too small to split.
    spec fn parts(state: Self::State) -> Option<(Self::State, Self::State)>;

    /// Emits the next item, or `None` once the iterator is exhausted.
    fn next(&mut self) -> (item: Option<Self::Item>)
        ensures
            (final(self).state(), item) == Self::advanced(old(self).state()),
    ;

    /// Splits this iterator in two, if possible: the second half is returned
    /// and the first half stays.
    fn split(&mut self) -> (half: Option<Self>)
        ensures
            match Self::parts(old(self).state()) {
                Some((kept, given)) => half is Some && final(self).state() == kept
                    && half->0.state() == given,
                None => half is None && final(self).state() == old(self).state(),
            },
    ;
}

/// The number of workers in the thread pool that runs the caller, as
/// `rayon::current_num_threads` reports it. The number depends on the pool and
/// the machine; all that is claimed of it is that a pool has at least one
/// worker.
#[verifier::external_body]
fn worker_count() -> (workers: usize)
    ensures
        workers >= 1,
{
    rayon::current_num_threads()
}

/// A splittable iterator together with the number of splits it may still make.
pub struct ParallelSplittableIterator<Iter> {
    iter: Iter,
    splits: usize,
}

/// What a worker does next with the iterator it holds.
pub enum BridgeAction<Iter: SplittableIterator> {
    /// Run both halves in parallel: the given half, and what this worker kept.
    Fork(ParallelSplittableIterator<Iter>),
    /// Hand this item to the consumer, then ask again.
    Feed(Iter::Item),
    /// Nothing is left to do here.
    Finish,
}

impl<Iter: SplittableIterator> ParallelSplittableIterator<Iter> {
    /// The state of the wrapped iterator.
    pub closed spec fn state(&self) -> Iter::State {
        self.iter.state()
    }

    /// The number of splits that may still be made.
    pub closed spec fn splits(&self) -> usize {
        self.splits
    }

    /// Whether a split is possible: the budget is not used up and the wrapped
    /// iterator is large enough.
    pub open spec fn can_split(&self) -> bool {
        self.splits() > 0 && Iter::parts(self.state()) is Some
    }

    /// The number of splits that may still be made.
    pub fn budget(&self) -> (splits: usize)
        ensures
            splits == self.splits(),
    {
        self.splits
    }

    /// Wraps `iter` with a budget of `splits` splits.
    pub fn with_splits(iter: Iter, splits: usize) -> (bridge: Self)
        ensures
            bridge.state() == iter.state(),
            bridge.splits() == splits,
    {
        ParallelSplittableIterator { iter, splits }
    }

    /// Wraps `iter` with one split for each worker of the current thread pool.
    pub fn new(iter: Iter) -> (bridge: Self)
        ensures
            bridge.state() == iter.state(),
            bridge.splits() >= 1,
    {
        Self::with_splits(iter, worker_count())
    }

    /// Splits the wrapped iterator in half while the budget lasts. A split
    /// halves the budget, and both halves go on with what is left of it.
    pub fn split(&mut self) -> (half: Option<Self>)
        ensures
            old(self).can_split() ==> half is Some
                && Iter::parts(old(self).state()) == Some((final(self).state(), half->0.state()))
                && final(self).splits() == old(self).splits() / 2
                && half->0.splits() == old(self).splits() / 2,
            !old(self).can_split() ==> half is None
                && final(self).state() == old(self).state()
                && final(self).splits() == old(self).splits(),
    {
        if self.splits == 0 {
            return None;
        }
        if let Some(split) = self.iter.split() {
            self.splits = self.splits / 2;
            Some(ParallelSplittableIterator { iter: split, splits: self.splits })
        } else {
            None
        }
    }

    /// Sets the budget of splits as a worker does when it takes up a task:
    /// a task that was stolen starts anew with one split for each of the
    /// `workers`, any other keeps its budget. Returns whether the budget is
    /// used up, in which case the iterator is to be drained in sequence.
    pub fn begin(&mut self, stolen: bool, workers: usize) -> (drain: bool)
        ensures
            final(self).state() == old(self).state(),
            final(self).splits() == if stolen {
                workers
            } else {
                old(self).splits()
            },
            drain == (final(self).splits() == 0),
    {
        if stolen {
            self.splits = workers;
        }
        self.splits == 0
    }

    /// Decides what a worker does next. `full` tells whether the consumer
    /// wants no more input.
    ///
    /// A consumer that is full ends the work. Otherwise the iterator is split
    /// if it can be; if not, it is advanced by one item, which goes to the
    /// consumer; once it is exhausted, the work ends.
    pub fn plan(&mut self, full: bool) -> (action: BridgeAction<Iter>)
        ensures
            full ==> action is Finish && final(self).state() == old(self).state() && final(
                self
            ).splits() == old(self).splits(),
            !full && old(self).can_split() ==> action is Fork
                && Iter::parts(old(self).state()) == Some(
                (final(self).state(), action->Fork_0.state()),
            ) && final(self).splits() == old(self).splits() / 2 && action->Fork_0.splits() == old(
                self
            ).splits() / 2,
            !full && !old(self).can_split() ==> final(self).splits() == old(self).splits() && (
            final(self).state(),
            match action {
                BridgeAction::Feed(item) => Some(item),
                _ => None,
            },
        ) == Iter::advanced(old(self).state()) && !(action is Fork),
    {
        if full {
            return BridgeAction::Finish;
        }
        if let Some(split) = self.split() {
            return BridgeAction::Fork(split);
        }
        match self.iter.next() {
            Some(item) => BridgeAction::Feed(item),
            None => BridgeAction::Finish,
        }
    }

    /// Advances the wrapped iterator by one item, as a worker does that
    /// drains it in sequence.
    pub fn next(&mut self) -> (item: Option<Iter::Item>)
        ensures
            (final(self).state(), item) == Iter::advanced(old(self).state()),
            final(self).splits() == old(self).splits(),
    {
        self.iter.next()
    }
}

/// Conversion of a splittable iterator into its parallel form.
pub trait IntoParallelIterator: SplittableIterator {
    /// Wraps this iterator with one split for each worker of the current
    /// thread pool.
    fn into_par_iter(self) -> (bridge: ParallelSplittableIterator<Self>)
        ensures
            bridge.state() == self.state(),
            bridge.splits() >= 1,
    ;
}

impl<T: SplittableIterator> IntoParallelIterator for T {
    fn into_par_iter(self) -> (bridge: ParallelSplittableIterator<Self>) {
        ParallelSplittableIterator::new(self)
    }
}

} // verus!
