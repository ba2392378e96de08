//! A hash set of entity identifiers.

use vstd::prelude::*;

verus! {

/// A set of entity identifiers, kept in a `bevy::utils::HashSet`.
#[verifier::external_body]
pub struct EntitySet {
    inner: bevy::utils::HashSet<u64>,
}

/// The identifiers that a set holds.
pub uninterp spec fn set_members(set: EntitySet) -> Set<u64>;

impl EntitySet {
    /// `HashSet::default`: a set that holds nothing.
    #[verifier::external_body]
    pub(crate) fn empty() -> (set: EntitySet)
        ensures
            set_members(set) == Set::<u64>::empty(),
    {
        EntitySet { inner: bevy::utils::HashSet::default() }
    }

    /// `HashSet::insert`: the set gains `entity`; the result tells whether it
    /// was absent before.
    #[verifier::external_body]
    pub(crate) fn insert(&mut self, entity: u64) -> (fresh: bool)
        ensures
            set_members(*final(self)) == set_members(*old(self)).insert(entity),
            fresh == !set_members(*old(self)).contains(entity),
    {
        self.inner.insert(entity)
    }

    /// `HashSet::remove`: the set loses `entity`; the result tells whether it
    /// was present before.
    #[verifier::external_body]
    pub(crate) fn remove(&mut self, entity: u64) -> (present: bool)
        ensures
            set_members(*final(self)) == set_members(*old(self)).remove(entity),
            present == set_members(*old(self)).contains(entity),
    {
        self.inner.remove(&entity)
    }

    /// `HashSet::contains`: whether the set holds `entity`.
    #[verifier::external_body]
    pub(crate) fn contains(&self, entity: u64) -> (present: bool)
        ensures
            present == set_members(*self).contains(entity),
    {
        self.inner.contains(&entity)
    }

    /// `HashSet::iter`, collected: every member once, in no order that can
    /// be relied on.
    #[verifier::external_body]
    pub(crate) fn members(&self) -> (all: Vec<u64>)
        ensures
            all@.no_duplicates(),
            all@.to_set() == set_members(*self),
    {
        self.inner.iter().copied().collect()
    }

    /// `HashSet::clone`: a set with the same members.
    #[verifier::external_body]
    pub(crate) fn duplicate(&self) -> (copy: EntitySet)
        ensures
            set_members(copy) == set_members(*self),
    {
        EntitySet { inner: self.inner.clone() }
    }
}

} // verus!
