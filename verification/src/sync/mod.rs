//! Sequential traversals and the queue they share.

use vstd::prelude::*;

pub mod bfs;
pub mod dfs;
pub mod forest;
pub mod laws;
pub mod par;
pub mod queue;
pub mod walk;

verus! {

/// A value with an integer identity.
///
/// Cycle suppression treats two values as the same node exactly when their
/// keys are equal, so the key must tell values apart: values with one key are
/// one value.
pub trait Keyed: Sized {
    /// The identity of this value.
    spec fn key_spec(&self) -> u64;

    /// Values with the same key are the same value.
    proof fn key_is_faithful(&self, other: &Self)
        ensures
            self.key_spec() == other.key_spec() ==> *self == *other,
    ;

    /// Computes the identity of this value.
    fn key(&self) -> (k: u64)
        ensures
            k == self.key_spec(),
    ;
}

/// A sink for the children of one node.
///
/// A node that adds its children in place is handed such a sink and offers
/// each child, or each failed child, to it in order.
pub trait ExtendQueue<I, E>: Sized {
    /// Whether this sink is `before` after exactly `items` were offered to it,
    /// first to last.
    spec fn extended_by(&self, before: &Self, items: Seq<Result<I, E>>) -> bool;

    /// A sink that was offered nothing is unchanged.
    proof fn extended_by_nothing(&self)
        ensures
            self.extended_by(self, Seq::empty()),
    ;

    /// Offers made one after the other add up.
    proof fn extended_by_chain(
        &self,
        mid: &Self,
        before: &Self,
        first: Seq<Result<I, E>>,
        second: Seq<Result<I, E>>,
    )
        requires
            mid.extended_by(before, first),
            self.extended_by(mid, second),
        ensures
            self.extended_by(before, first + second),
    ;

    /// Offers one outcome.
    fn add(&mut self, item: Result<I, E>)
        ensures
            final(self).extended_by(old(self), seq![item]),
    ;

    /// Offers a batch of outcomes, first to last.
    fn add_all(&mut self, items: Vec<Result<I, E>>)
        ensures
            final(self).extended_by(old(self), items@),
    ;
}

/// What a node's report of its children holds, as plain values.
pub open spec fn listed<I, E>(found: Result<Vec<Result<I, E>>, E>) -> Result<
    Seq<Result<I, E>>,
    E,
> {
    match found {
        Ok(children) => Ok(children@),
        Err(err) => Err(err),
    }
}

/// The outcomes that a report of children puts into the queue: the children
/// themselves, or the one failure where the lookup as a whole failed.
pub open spec fn expansion<I, E>(found: Result<Seq<Result<I, E>>, E>) -> Seq<Result<I, E>> {
    match found {
        Ok(children) => children,
        Err(err) => seq![Err(err)],
    }
}

/// The outcomes that a node which adds its children in place puts into the
/// queue: what it offered, followed by the failure it ended with, if any.
pub open spec fn fast_expansion<I, E>(offered: Seq<Result<I, E>>, failure: Option<E>) -> Seq<
    Result<I, E>,
> {
    match failure {
        None => offered,
        Some(err) => offered.push(Err(err)),
    }
}

/// A node that reports its children as a sequence.
///
/// The report for a node and a depth is fixed: asking twice gives the same
/// answer. `depth` is the depth at which the children will be recorded.
pub trait Node: Keyed {
    /// The failure of a lookup.
    type Error;

    /// The children of this node at `depth`, or the failure of the lookup.
    spec fn successors(&self, depth: usize) -> Result<Seq<Result<Self, Self::Error>>, Self::Error>;

    /// Looks up the children of this node.
    fn children(&self, depth: usize) -> (found: Result<
        Vec<Result<Self, Self::Error>>,
        Self::Error,
    >)
        ensures
            listed(found) == self.successors(depth),
    ;
}

/// A node that adds its children to a queue in place.
///
/// What it offers for a node and a depth is fixed, as for [`Node`].
pub trait FastNode: Keyed {
    /// The failure of a lookup.
    type Error;

    /// The outcomes that this node offers at `depth`, in order.
    spec fn offered(&self, depth: usize) -> Seq<Result<Self, Self::Error>>;

    /// The failure that the lookup ends with, if it fails.
    spec fn failure(&self, depth: usize) -> Option<Self::Error>;

    /// Offers the children of this node to `queue`.
    fn add_children<Q: ExtendQueue<Self, Self::Error>>(&self, depth: usize, queue: &mut Q) -> (done:
        Result<(), Self::Error>)
        ensures
            final(queue).extended_by(old(queue), self.offered(depth)),
            match done {
                Ok(_) => self.failure(depth) is None,
                Err(err) => self.failure(depth) == Some(err),
            },
    ;
}

/// The expansion rule of a [`Node`]: each node with the outcomes it puts
/// into the queue at a depth.
pub open spec fn children_of<N: Node>() -> spec_fn(N, usize) -> Seq<Result<N, N::Error>> {
    |node: N, depth: usize| expansion(node.successors(depth))
}

/// The expansion rule of a [`FastNode`].
pub open spec fn fast_children_of<N: FastNode>() -> spec_fn(N, usize) -> Seq<Result<N, N::Error>> {
    |node: N, depth: usize| fast_expansion(node.offered(depth), node.failure(depth))
}

} // verus!
