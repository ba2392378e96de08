use bevy::asset::AssetServer;
use bevy::ecs::entity::{Entity, EntityMap};
use entity_observer::{Observer, ObserverList, RemapError, Subject, Table};

#[derive(Clone, Debug, Default, PartialEq)]
struct Label {
    text: String,
}

impl Observer<String> for Label {
    fn absorbed<S: Subject<String>>(
        mut self,
        data: String,
        _raw_subject: S,
        _asset_server: AssetServer,
        _sender: u64,
    ) -> Self {
        self.text = data;
        self
    }

    fn receive_data<S: Subject<String>>(
        &mut self,
        data: &String,
        _raw_subject: &S,
        _asset_server: &AssetServer,
        _sender: u64,
    ) {
        self.text = data.clone();
    }
}

type Registry = ObserverList<String, String, Label>;

fn sorted(mut list: Vec<u64>) -> Vec<u64> {
    list.sort();
    list
}

fn mapping(pairs: &[(u64, u64)]) -> EntityMap {
    let mut map = EntityMap::default();
    for &(from, to) in pairs {
        map.insert(Entity::from_bits(from), Entity::from_bits(to));
    }
    map
}

#[test]
fn a_new_registry_lists_each_entity_once() {
    let registry = Registry::new(vec![3, 1, 3, 2, 1]);
    assert_eq!(registry.len(), 3);
    assert_eq!(sorted(registry.observers()), vec![1, 2, 3]);
    assert!(registry.contains(1));
    assert!(registry.contains(2));
    assert!(registry.contains(3));
    assert!(!registry.contains(4));
}

#[test]
fn an_empty_registry_lists_nothing() {
    let registry = Registry::new(vec![]);
    assert_eq!(registry.len(), 0);
    assert_eq!(registry.observers(), Vec::<u64>::new());
    let by_default = Registry::default();
    assert_eq!(by_default.len(), 0);
    assert!(!by_default.contains(0));
}

#[test]
fn insert_is_idempotent() {
    let mut registry = Registry::default();
    assert!(registry.insert(8));
    assert!(!registry.insert(8));
    assert_eq!(registry.len(), 1);
    assert_eq!(registry.observers(), vec![8]);
}

#[test]
fn remove_strikes_one_entity() {
    let mut registry = Registry::new(vec![1, 2]);
    assert!(registry.remove(1));
    assert!(!registry.remove(1));
    assert!(!registry.contains(1));
    assert!(registry.contains(2));
    assert_eq!(registry.len(), 1);
}

#[test]
fn a_clone_lists_the_same_entities_and_is_independent() {
    let mut registry = Registry::new(vec![1, 2]);
    let copy = registry.clone();
    registry.insert(3);
    assert_eq!(sorted(copy.observers()), vec![1, 2]);
    assert_eq!(sorted(registry.observers()), vec![1, 2, 3]);
}

#[test]
fn remap_rewrites_every_entity() {
    let mut registry = Registry::new(vec![1, 2, 3]);
    let map = mapping(&[(1, 10), (2, 20), (3, 30), (4, 40)]);
    assert_eq!(registry.map_entities(&map), Ok(()));
    assert_eq!(sorted(registry.observers()), vec![10, 20, 30]);
}

#[test]
fn remap_keeps_generations() {
    let old = (7u64 << 32) | 5;
    let new = (9u64 << 32) | 6;
    let mut registry = Registry::new(vec![old]);
    assert_eq!(registry.map_entities(&mapping(&[(old, new)])), Ok(()));
    assert_eq!(registry.observers(), vec![new]);
}

#[test]
fn remap_merges_entities_with_the_same_image() {
    let mut registry = Registry::new(vec![1, 2]);
    assert_eq!(registry.map_entities(&mapping(&[(1, 5), (2, 5)])), Ok(()));
    assert_eq!(registry.observers(), vec![5]);
}

#[test]
fn remap_of_an_empty_registry_succeeds() {
    let mut registry = Registry::default();
    assert_eq!(registry.map_entities(&EntityMap::default()), Ok(()));
    assert_eq!(registry.len(), 0);
}

#[test]
fn remap_fails_whole_when_an_entity_is_missing() {
    let mut registry = Registry::new(vec![1, 2, 3]);
    let map = mapping(&[(1, 10), (3, 30)]);
    assert_eq!(registry.map_entities(&map), Err(RemapError::EntityNotFound(2)));
    assert_eq!(sorted(registry.observers()), vec![1, 2, 3]);
}

#[test]
fn table_insert_replaces_and_keeps_one_row_per_entity() {
    let mut table: Table<u32> = Table::new();
    assert_eq!(table.len(), 0);
    assert_eq!(table.insert(4, 40), None);
    assert_eq!(table.insert(5, 50), None);
    assert_eq!(table.insert(4, 41), Some(40));
    assert_eq!(table.len(), 2);
    assert_eq!(table.entity_at(0), 4);
    assert_eq!(table.entity_at(1), 5);
    assert_eq!(*table.component_at(0), 41);
    assert_eq!(table.get(5), Some(&50));
    assert_eq!(table.get(6), None);
    assert_eq!(table.find(5), Some(1));
    assert_eq!(table.find(6), None);
    assert!(table.contains(4));
    assert!(!table.contains(6));
}

#[test]
fn table_exchange_hands_out_the_previous_component() {
    let mut table: Table<u32> = Table::new();
    table.insert(1, 10);
    table.insert(2, 20);
    table.insert(3, 30);
    assert_eq!(table.exchange(0, 11), 10);
    assert_eq!(table.get(1), Some(&11));
    assert_eq!(table.get(2), Some(&20));
    assert_eq!(table.get(3), Some(&30));
    assert_eq!(table.exchange(2, 31), 30);
    assert_eq!(table.get(3), Some(&31));
    assert_eq!(table.len(), 3);
}

#[test]
fn table_remove_drops_the_row() {
    let mut table: Table<u32> = Table::new();
    table.insert(1, 10);
    table.insert(2, 20);
    table.insert(3, 30);
    assert_eq!(table.remove(2), Some(20));
    assert_eq!(table.remove(2), None);
    assert_eq!(table.len(), 2);
    assert_eq!(table.get(1), Some(&10));
    assert_eq!(table.get(3), Some(&30));
    assert_eq!(table.entity_at(1), 3);
}
