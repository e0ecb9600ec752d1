//! Union and find operations on disjoint sets.
use std::collections::HashSet;
use std::marker::PhantomData;
use vstd::prelude::*;

mod error;
mod forest;
pub mod hash_disjoint_set;

verus! {

/// Sets that store disjoint subsets, answer questions about the subset of an
/// element, and merge subsets.
pub trait UnionFind<T>: Sized {
    /// What goes wrong when an operation names an element that is missing,
    /// or adds one that is present.
    type UnionFindError;

    /// The internal consistency that every operation keeps.
    spec fn well_formed(&self) -> bool;

    /// Merges the subsets that hold the two elements. Nothing changes when
    /// they already share a subset.
    fn union(&mut self, elem_a: &T, elem_b: &T) -> (r: Result<(), Self::UnionFindError>)
        requires
            old(self).well_formed(),
        ensures
            final(self).well_formed(),
    ;

    /// A ticket for the subset of `elem`.
    fn find(&mut self, elem: &T) -> (r: Result<SubsetTicket<T>, Self::UnionFindError>)
        requires
            old(self).well_formed(),
        ensures
            final(self).well_formed(),
    ;

    /// Every element of the subset that holds `elem`, `elem` included.
    fn subset_containing(&mut self, elem: &T) -> (r: Result<HashSet<T>, Self::UnionFindError>)
        requires
            old(self).well_formed(),
        ensures
            final(self).well_formed(),
    ;

    /// Every subset, in no particular order.
    fn all_subsets(&mut self) -> (r: Vec<HashSet<T>>)
        requires
            old(self).well_formed(),
        ensures
            final(self).well_formed(),
    ;

    /// Whether the two elements share a subset.
    fn same_subset(&mut self, elem_a: &T, elem_b: &T) -> (r: Result<bool, Self::UnionFindError>)
        requires
            old(self).well_formed(),
        ensures
            final(self).well_formed(),
    ;

    /// The number of disjoint subsets.
    fn subset_count(&self) -> (r: usize)
        requires
            self.well_formed(),
    ;

    /// The number of elements in the subset that holds `elem`.
    fn subset_size(&mut self, elem: &T) -> (r: Result<usize, Self::UnionFindError>)
        requires
            old(self).well_formed(),
        ensures
            final(self).well_formed(),
    ;
}

/// A value returned by `find` that identifies the subset an element belonged to.
///
/// Two tickets are equal exactly when they come from the same instance, were
/// taken at the same version of it, and name the same subset. Any structural
/// change (an insertion, or a union that merges two subsets) moves the
/// instance to a new version, so tickets taken before and after it differ.
#[derive(Debug, Hash, PartialEq, Eq)]
pub struct SubsetTicket<T> {
    id: usize,
    ver: u128,
    set_id: u64,
    phantom: PhantomData<T>,
}

impl<T> SubsetTicket<T> {
    /// The index of the subset's root.
    pub closed spec fn root(&self) -> usize {
        self.id
    }

    /// The version of the instance when the ticket was taken.
    pub closed spec fn version(&self) -> u128 {
        self.ver
    }

    /// The identity of the instance that issued the ticket.
    pub closed spec fn instance(&self) -> u64 {
        self.set_id
    }

    /// Two tickets are equal exactly when their three parts are.
    pub proof fn lemma_eq(a: Self, b: Self)
        ensures
            a == b <==> (a.root() == b.root() && a.version() == b.version() && a.instance()
                == b.instance()),
    {
        if a.root() == b.root() && a.version() == b.version() && a.instance() == b.instance() {
            assert(a.phantom == b.phantom);
        }
    }

    pub(crate) fn new(id: usize, ver: u128, set_id: u64) -> (t: Self)
        ensures
            t.root() == id,
            t.version() == ver,
            t.instance() == set_id,
    {
        SubsetTicket { id, ver, set_id, phantom: PhantomData }
    }
}

} // verus!
