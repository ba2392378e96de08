//! Component storage keyed by entity.

use vstd::prelude::*;

verus! {

/// The row that holds `entity` in a sequence of row identifiers.
pub open spec fn row_of(ids: Seq<u64>, entity: u64) -> int {
    choose|i: int| 0 <= i < ids.len() && ids[i] == entity
}

/// In a sequence without repeats, the row of the identifier at `i` is `i`.
pub proof fn lemma_row_of(ids: Seq<u64>, i: int)
    requires
        ids.no_duplicates(),
        0 <= i < ids.len(),
    ensures
        ids.contains(ids[i]),
        row_of(ids, ids[i]) == i,
{
    let j = row_of(ids, ids[i]);
    assert(0 <= j < ids.len() && ids[j] == ids[i]);
}

/// One kind of component for a set of entities: at most one row per entity,
/// rows kept in the order in which the entities were first stored.
pub struct Table<C> {
    entities: Vec<u64>,
    components: Vec<C>,
}

impl<C> View for Table<C> {
    type V = Map<u64, C>;

    /// Each stored entity with its component.
    closed spec fn view(&self) -> Map<u64, C> {
        Map::new(
            |entity: u64| self.entities@.contains(entity),
            |entity: u64| self.components@[row_of(self.entities@, entity)],
        )
    }
}

impl<C> Table<C> {
    /// Every row has an entity and a component, and no entity has two rows.
    pub closed spec fn wf(&self) -> bool {
        &&& self.entities@.len() == self.components@.len()
        &&& self.entities@.no_duplicates()
    }

    /// The stored entities, row by row.
    pub closed spec fn ids(&self) -> Seq<u64> {
        self.entities@
    }

    /// How the rows relate to the map from entity to component.
    pub proof fn lemma_rows(&self)
        requires
            self.wf(),
        ensures
            self.ids().no_duplicates(),
            self@.dom() =~= self.ids().to_set(),
            forall|i: int|
                0 <= i < self.ids().len() ==> self@.dom().contains(#[trigger] self.ids()[i]),
    {
        assert forall|e: u64| self@.dom().contains(e) <==> self.ids().to_set().contains(e) by {}
    }

    /// A table without rows.
    pub fn new() -> (table: Self)
        ensures
            table.wf(),
            table.ids() == Seq::<u64>::empty(),
            table@ == Map::<u64, C>::empty(),
    {
        let table = Table { entities: Vec::new(), components: Vec::new() };
        assert(table@ =~= Map::<u64, C>::empty());
        table
    }

    /// The number of rows.
    pub fn len(&self) -> (count: usize)
        ensures
            count == self.ids().len(),
    {
        self.entities.len()
    }

    /// The entity of row `row`.
    pub fn entity_at(&self, row: usize) -> (entity: u64)
        requires
            row < self.ids().len(),
        ensures
            entity == self.ids()[row as int],
            self@.dom().contains(entity),
    {
        self.entities[row]
    }

    /// The component of row `row`.
    pub fn component_at(&self, row: usize) -> (component: &C)
        requires
            self.wf(),
            row < self.ids().len(),
        ensures
            self@.dom().contains(self.ids()[row as int]),
            *component == self@[self.ids()[row as int]],
    {
        proof {
            lemma_row_of(self.entities@, row as int);
        }
        &self.components[row]
    }

    /// The row of `entity`, if it has one.
    pub fn find(&self, entity: u64) -> (row: Option<usize>)
        requires
            self.wf(),
        ensures
            match row {
                Some(i) => i < self.ids().len() && self.ids()[i as int] == entity
                    && self@.dom().contains(entity),
                None => !self@.dom().contains(entity),
            },
    {
        let mut i: usize = 0;
        while i < self.entities.len()
            invariant
                i <= self.entities.len(),
                forall|j: int| 0 <= j < i ==> self.entities@[j] != entity,
            decreases self.entities.len() - i,
        {
            if self.entities[i] == entity {
                return Some(i);
            }
            i += 1;
        }
        None
    }

    /// Whether `entity` has a row.
    pub fn contains(&self, entity: u64) -> (stored: bool)
        requires
            self.wf(),
        ensures
            stored == self@.dom().contains(entity),
    {
        self.find(entity).is_some()
    }

    /// The component stored for `entity`, if there is one.
    pub fn get(&self, entity: u64) -> (component: Option<&C>)
        requires
            self.wf(),
        ensures
            match component {
                Some(c) => self@.dom().contains(entity) && *c == self@[entity],
                None => !self@.dom().contains(entity),
            },
    {
        match self.find(entity) {
            Some(row) => Some(self.component_at(row)),
            None => None,
        }
    }

    /// Puts `component` in row `row` and hands out what the row held.
    pub fn exchange(&mut self, row: usize, component: C) -> (previous: C)
        requires
            old(self).wf(),
            row < old(self).ids().len(),
        ensures
            final(self).wf(),
            final(self).ids() == old(self).ids(),
            final(self)@ == old(self)@.insert(old(self).ids()[row as int], component),
            old(self)@.dom().contains(old(self).ids()[row as int]),
            previous == old(self)@[old(self).ids()[row as int]],
    {
        proof {
            lemma_row_of(self.entities@, row as int);
        }
        let ghost before = *self;
        self.components.push(component);
        let previous = self.components.swap_remove(row);
        proof {
            let ids = self.entities@;
            assert(self.components@ =~= before.components@.update(row as int, component));
            assert forall|e: u64| ids.contains(e) implies #[trigger] self@[e] == before@.insert(
                ids[row as int],
                component,
            )[e] by {
                let j = row_of(ids, e);
                assert(0 <= j < ids.len() && ids[j] == e);
            }
            assert(self@ =~= before@.insert(ids[row as int], component));
        }
        previous
    }

    /// Stores `component` for `entity`: in the entity's row if it has one,
    /// in a new last row if not. Hands out what the entity had before.
    pub fn insert(&mut self, entity: u64, component: C) -> (previous: Option<C>)
        requires
            old(self).wf(),
        ensures
            final(self).wf(),
            final(self)@ == old(self)@.insert(entity, component),
            match previous {
                Some(c) => old(self)@.dom().contains(entity) && c == old(self)@[entity]
                    && final(self).ids() == old(self).ids(),
                None => !old(self)@.dom().contains(entity) && final(self).ids() == old(
                    self,
                ).ids().push(entity),
            },
    {
        match self.find(entity) {
            Some(row) => Some(self.exchange(row, component)),
            None => {
                let ghost before = *self;
                self.entities.push(entity);
                self.components.push(component);
                proof {
                    let ids = self.entities@;
                    let last = ids.len() - 1;
                    assert(ids[last] == entity);
                    assert forall|i: int, j: int|
                        0 <= i < ids.len() && 0 <= j < ids.len() && i != j implies ids[i]
                        != ids[j] by {
                        if i < last && j < last {
                            assert(before.entities@[i] != before.entities@[j]);
                        } else if i < last {
                            assert(before.entities@.contains(before.entities@[i]));
                        } else {
                            assert(before.entities@.contains(before.entities@[j]));
                        }
                    }
                    let target = before@.insert(entity, component);
                    assert forall|e: u64| self@.dom().contains(e) <==> target.dom().contains(e) by {
                        if ids.contains(e) && e != entity {
                            let j = row_of(ids, e);
                            assert(0 <= j < ids.len() && ids[j] == e);
                            assert(before.entities@[j] == e);
                        }
                        if before.entities@.contains(e) {
                            let j = row_of(before.entities@, e);
                            assert(0 <= j < before.entities@.len() && before.entities@[j] == e);
                            assert(ids[j] == e);
                        }
                    }
                    assert forall|e: u64| self@.dom().contains(e) implies #[trigger] self@[e]
                        == target[e] by {
                        let j = row_of(ids, e);
                        assert(0 <= j < ids.len() && ids[j] == e);
                        if e == entity {
                            assert(j == last);
                        } else {
                            assert(before.entities@[j] == e);
                            lemma_row_of(before.entities@, j);
                        }
                    }
                    assert(self@ =~= target);
                }
                None
            },
        }
    }

    /// Drops the row of `entity`, if it has one, and hands out its component.
    pub fn remove(&mut self, entity: u64) -> (previous: Option<C>)
        requires
            old(self).wf(),
        ensures
            final(self).wf(),
            final(self)@ == old(self)@.remove(entity),
            match previous {
                Some(c) => old(self)@.dom().contains(entity) && c == old(self)@[entity]
                    && final(self).ids() == old(self).ids().remove(
                    row_of(old(self).ids(), entity),
                ),
                None => !old(self)@.dom().contains(entity) && final(self).ids() == old(
                    self,
                ).ids(),
            },
    {
        match self.find(entity) {
            Some(row) => {
                let ghost before = *self;
                proof {
                    lemma_row_of(self.entities@, row as int);
                }
                self.entities.remove(row);
                let previous = self.components.remove(row);
                proof {
                    let old_ids = before.entities@;
                    let ids = self.entities@;
                    assert(ids =~= old_ids.remove(row as int));
                    assert forall|i: int, j: int|
                        0 <= i < ids.len() && 0 <= j < ids.len() && i != j implies ids[i]
                        != ids[j] by {
                        let a = if i < row { i } else { i + 1 };
                        let b = if j < row { j } else { j + 1 };
                        assert(old_ids[a] != old_ids[b]);
                    }
                    let target = before@.remove(entity);
                    assert forall|e: u64| self@.dom().contains(e) <==> target.dom().contains(e) by {
                        if ids.contains(e) {
                            let j = row_of(ids, e);
                            assert(0 <= j < ids.len() && ids[j] == e);
                            let a = if j < row { j } else { j + 1 };
                            assert(old_ids[a] == e);
                            assert(a != row);
                        }
                        if old_ids.contains(e) && e != entity {
                            let a = row_of(old_ids, e);
                            assert(0 <= a < old_ids.len() && old_ids[a] == e);
                            let j = if a < row { a } else { a - 1 };
                            assert(ids[j] == e);
                        }
                    }
                    assert forall|e: u64| self@.dom().contains(e) implies #[trigger] self@[e]
                        == target[e] by {
                        let j = row_of(ids, e);
                        assert(0 <= j < ids.len() && ids[j] == e);
                        let a = if j < row { j } else { j + 1 };
                        assert(old_ids[a] == e);
                        lemma_row_of(old_ids, a);
                    }
                    assert(self@ =~= target);
                }
                Some(previous)
            },
            None => None,
        }
    }
}

} // verus!
