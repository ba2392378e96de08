//! The per-subject record of which observers are interested.

use crate::capability::{Observer, Subject};
use crate::entity_map::{map_pairs, mapped};
use crate::entity_set::{set_members, EntitySet};
use bevy::ecs::entity::EntityMap;
use std::marker::PhantomData;
use vstd::prelude::*;

verus! {

/// Why a registry could not be carried over to new identifiers.
#[derive(Debug, Clone, Copy, PartialEq, Eq)]
pub enum RemapError {
    /// The registry holds this identifier and the mapping table has no entry for it.
    EntityNotFound(u64),
}

/// The image of a set of identifiers under a mapping table.
pub open spec fn remapped(held: Set<u64>, pairs: Map<u64, u64>) -> Set<u64> {
    Set::new(
        |target: u64|
            exists|entity: u64| #[trigger] held.contains(entity) && pairs[entity] == target,
    )
}

/// The entities that observe one subject entity, for one triple of data
/// type, subject component and observer component.
///
/// The registry is a set: an entity is listed once however often it is
/// added. It says nothing of whether the listed entities still exist.
pub struct ObserverList<T: Send + Sync + 'static, S: Subject<T>, O: Observer<T>> {
    observers: EntitySet,
    phantom_data: PhantomData<T>,
    phantom_subject: PhantomData<S>,
    phantom_observer: PhantomData<O>,
}

impl<T: Send + Sync + 'static, S: Subject<T>, O: Observer<T>> View for ObserverList<T, S, O> {
    type V = Set<u64>;

    closed spec fn view(&self) -> Set<u64> {
        set_members(self.observers)
    }
}

impl<T: Send + Sync + 'static, S: Subject<T>, O: Observer<T>> ObserverList<T, S, O> {
    /// A registry that lists the given entities.
    pub fn new(list: Vec<u64>) -> (registry: Self)
        ensures
            registry@ == list@.to_set(),
    {
        let mut observers = EntitySet::empty();
        let mut i: usize = 0;
        while i < list.len()
            invariant
                i <= list.len(),
                set_members(observers) == list@.take(i as int).to_set(),
            decreases list.len() - i,
        {
            observers.insert(list[i]);
            proof {
                lemma_take_next_to_set(list@, i as int);
            }
            i += 1;
        }
        assert(list@.take(list.len() as int) == list@);
        ObserverList {
            observers,
            phantom_data: PhantomData,
            phantom_subject: PhantomData,
            phantom_observer: PhantomData,
        }
    }

    /// Lists `observer`; listing it again changes nothing. Tells whether it
    /// was new.
    pub fn insert(&mut self, observer: u64) -> (fresh: bool)
        ensures
            final(self)@ == old(self)@.insert(observer),
            fresh == !old(self)@.contains(observer),
    {
        self.observers.insert(observer)
    }

    /// Strikes `observer` from the registry. Tells whether it was listed.
    pub fn remove(&mut self, observer: u64) -> (listed: bool)
        ensures
            final(self)@ == old(self)@.remove(observer),
            listed == old(self)@.contains(observer),
    {
        self.observers.remove(observer)
    }

    /// Whether `observer` is listed.
    pub fn contains(&self, observer: u64) -> (listed: bool)
        ensures
            listed == self@.contains(observer),
    {
        self.observers.contains(observer)
    }

    /// Every listed entity, once, in no particular order.
    pub fn observers(&self) -> (all: Vec<u64>)
        ensures
            all@.no_duplicates(),
            all@.to_set() == self@,
    {
        self.observers.members()
    }

    /// How many entities are listed.
    pub fn len(&self) -> (count: usize)
        ensures
            self@.finite(),
            count == self@.len(),
    {
        let all = self.observers.members();
        proof {
            all@.unique_seq_to_set();
        }
        all.len()
    }

    /// Rewrites every listed identifier through `mapping`.
    ///
    /// Fails, changing nothing, when a listed identifier has no entry in
    /// `mapping`; the error names one such identifier.
    pub fn map_entities(&mut self, mapping: &EntityMap) -> (outcome: Result<(), RemapError>)
        ensures
            match outcome {
                Ok(()) => {
                    &&& old(self)@.subset_of(map_pairs(*mapping).dom())
                    &&& final(self)@ == remapped(old(self)@, map_pairs(*mapping))
                },
                Err(RemapError::EntityNotFound(missing)) => {
                    &&& old(self)@.contains(missing)
                    &&& !map_pairs(*mapping).dom().contains(missing)
                    &&& final(self)@ == old(self)@
                },
            },
    {
        let held = self.observers.members();
        let ghost pairs = map_pairs(*mapping);
        let mut new_set = EntitySet::empty();
        let mut i: usize = 0;
        while i < held.len()
            invariant
                i <= held.len(),
                pairs == map_pairs(*mapping),
                *self == *old(self),
                held@.to_set() == self@,
                forall|j: int| 0 <= j < i ==> pairs.dom().contains(#[trigger] held@[j]),
                forall|target: u64|
                    set_members(new_set).contains(target) <==> exists|j: int|
                        0 <= j < i && #[trigger] pairs[held@[j]] == target,
            decreases held.len() - i,
        {
            let entity = held[i];
            match mapped(mapping, entity) {
                Ok(target) => {
                    let ghost before = set_members(new_set);
                    new_set.insert(target);
                    assert forall|t: u64|
                        set_members(new_set).contains(t) <==> exists|j: int|
                            0 <= j < i + 1 && #[trigger] pairs[held@[j]] == t by {
                        if set_members(new_set).contains(t) {
                            if t == target {
                                assert(pairs[held@[i as int]] == t);
                            } else {
                                assert(before.contains(t));
                                let j = choose|j: int|
                                    0 <= j < i && #[trigger] pairs[held@[j]] == t;
                                assert(0 <= j < i + 1 && pairs[held@[j]] == t);
                            }
                        }
                        if exists|j: int| 0 <= j < i + 1 && #[trigger] pairs[held@[j]] == t {
                            let j = choose|j: int|
                                0 <= j < i + 1 && #[trigger] pairs[held@[j]] == t;
                            if j < i {
                                assert(before.contains(t));
                            }
                        }
                    }
                },
                Err(_) => {
                    assert(held@.to_set().contains(held@[i as int]));
                    return Err(RemapError::EntityNotFound(entity));
                },
            }
            i += 1;
        }
        proof {
            let image = remapped(self@, pairs);
            assert forall|t: u64| set_members(new_set).contains(t) <==> image.contains(t) by {
                if set_members(new_set).contains(t) {
                    let j = choose|j: int| 0 <= j < i && #[trigger] pairs[held@[j]] == t;
                    assert(held@.to_set().contains(held@[j]));
                }
                if image.contains(t) {
                    let e = choose|e: u64| #[trigger] self@.contains(e) && pairs[e] == t;
                    assert(held@.to_set().contains(e));
                    let j = choose|j: int| 0 <= j < held@.len() && held@[j] == e;
                    assert(pairs[held@[j]] == t);
                }
            }
            assert(set_members(new_set) =~= image);
            assert forall|e: u64| self@.contains(e) implies pairs.dom().contains(e) by {
                assert(held@.to_set().contains(e));
                let j = choose|j: int| 0 <= j < held@.len() && held@[j] == e;
                assert(pairs.dom().contains(held@[j]));
            }
        }
        self.observers = new_set;
        Ok(())
    }
}

impl<T: Send + Sync + 'static, S: Subject<T>, O: Observer<T>> Default for ObserverList<T, S, O> {
    /// A registry that lists nothing.
    fn default() -> (registry: Self)
        ensures
            registry@ == Set::<u64>::empty(),
    {
        ObserverList {
            observers: EntitySet::empty(),
            phantom_data: PhantomData,
            phantom_subject: PhantomData,
            phantom_observer: PhantomData,
        }
    }
}

impl<T: Send + Sync + 'static, S: Subject<T>, O: Observer<T>> Clone for ObserverList<T, S, O> {
    fn clone(&self) -> (copy: Self)
        ensures
            copy@ == self@,
    {
        ObserverList {
            observers: self.observers.duplicate(),
            phantom_data: PhantomData,
            phantom_subject: PhantomData,
            phantom_observer: PhantomData,
        }
    }
}

/// What each registry of a table lists.
pub open spec fn links<T: Send + Sync + 'static, S: Subject<T>, O: Observer<T>>(
    registries: Map<u64, ObserverList<T, S, O>>,
) -> Map<u64, Set<u64>> {
    Map::new(|subject: u64| registries.dom().contains(subject), |subject: u64| registries[subject]@)
}

/// A sequence with one more element has the members it had and that element.
pub proof fn lemma_push_to_set(s: Seq<u64>, entity: u64)
    ensures
        s.push(entity).to_set() == s.to_set().insert(entity),
{
    let longer = s.push(entity);
    lemma_take_next_to_set(longer, s.len() as int);
    assert(longer.take(s.len() as int) =~= s);
    assert(longer.take(s.len() as int + 1) =~= longer);
}

/// The members of a prefix one element longer are those of the prefix and that element.
pub proof fn lemma_take_next_to_set(s: Seq<u64>, i: int)
    requires
        0 <= i < s.len(),
    ensures
        s.take(i + 1).to_set() == s.take(i).to_set().insert(s[i]),
{
    let longer = s.take(i + 1);
    let shorter = s.take(i);
    assert forall|e: u64|
        longer.to_set().contains(e) <==> shorter.to_set().insert(s[i]).contains(e) by {
        if longer.to_set().contains(e) {
            let j = choose|j: int| 0 <= j < longer.len() && longer[j] == e;
            if j < i {
                assert(shorter[j] == e);
            }
        }
        if shorter.to_set().contains(e) {
            let j = choose|j: int| 0 <= j < shorter.len() && shorter[j] == e;
            assert(longer[j] == e);
        }
        if e == s[i] {
            assert(longer[i] == e);
        }
    }
    assert(longer.to_set() =~= shorter.to_set().insert(s[i]));
}

/// Under a mapping table that covers every listed
/// identifier, the image holds the new identifier of each listed one and
/// nothing else.
pub proof fn lemma_remapped_members(held: Set<u64>, pairs: Map<u64, u64>, target: u64)
    requires
        held.subset_of(pairs.dom()),
    ensures
        remapped(held, pairs).contains(target) <==> exists|entity: u64|
            #[trigger] held.contains(entity) && pairs.dom().contains(entity) && pairs[entity]
                == target,
{
    if remapped(held, pairs).contains(target) {
        let entity = choose|entity: u64|
            #[trigger] held.contains(entity) && pairs[entity] == target;
        assert(held.contains(entity) && pairs.dom().contains(entity) && pairs[entity] == target);
    }
}

} // verus!
