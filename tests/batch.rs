use std::any::Any;

use lazy_table::{slot_offsets, stride, Lazy, LazyError, Phase, Region, Registry};

type Erased = Box<dyn Any + Send + Sync>;

fn recover<M: 'static>(v: Erased) -> Option<M> {
    v.downcast::<M>().ok().map(|b| *b)
}

fn same<M>(v: M) -> Option<M> {
    Some(v)
}

/// Runs a whole batch over `values`, one per slot of a table of the given stride,
/// and returns the registry and the slot addresses.
fn run_batch<V>(values: Vec<V>, width: usize) -> (Registry<V>, Vec<usize>) {
    let mut registry = Registry::new();
    let table = Region { start: 4096, end: 4096 + width * values.len() };
    let reference = Region { start: 64, end: 64 + width };
    let ids = registry.start_batch(table, reference).unwrap();
    assert_eq!(ids.len(), values.len());
    assert!(registry.publish(ids.clone(), values));
    (registry, ids)
}

#[test]
fn stride_is_reference_length() {
    assert_eq!(stride(Region { start: 1000, end: 1024 }), 24);
    assert_eq!(stride(Region { start: 7, end: 7 }), 0);
}

#[test]
fn walk_visits_every_whole_slot() {
    let table = Region { start: 100, end: 130 };
    assert_eq!(slot_offsets(table, 8), vec![100, 108, 116]);
    assert_eq!(slot_offsets(table, 10), vec![100, 110, 120]);
    assert_eq!(slot_offsets(table, 31), Vec::<usize>::new());
}

#[test]
fn walk_of_empty_table_is_empty() {
    assert!(slot_offsets(Region { start: 50, end: 50 }, 4).is_empty());
}

#[test]
fn walk_reaches_top_of_address_space() {
    let table = Region { start: usize::MAX - 9, end: usize::MAX };
    assert_eq!(slot_offsets(table, 3), vec![usize::MAX - 9, usize::MAX - 6, usize::MAX - 3]);
}

#[test]
fn phases_advance_in_order() {
    let mut registry: Registry<u32> = Registry::new();
    assert_eq!(registry.current_phase(), Phase::Unstarted);
    assert!(registry.begin());
    assert_eq!(registry.current_phase(), Phase::Running);
    assert!(registry.publish(vec![1], vec![5]));
    assert_eq!(registry.current_phase(), Phase::Completed);
}

#[test]
fn batch_starts_only_once() {
    let mut registry: Registry<u32> = Registry::new();
    let table = Region { start: 0, end: 16 };
    let reference = Region { start: 0, end: 4 };
    assert_eq!(registry.start_batch(table, reference), Some(vec![0, 4, 8, 12]));
    assert_eq!(registry.start_batch(table, reference), None);
    assert!(!registry.begin());
    assert_eq!(registry.current_phase(), Phase::Running);
}

#[test]
fn zero_stride_finds_no_entries() {
    let mut registry: Registry<u32> = Registry::new();
    let found = registry.start_batch(Region { start: 0, end: 16 }, Region { start: 8, end: 8 });
    assert_eq!(found, Some(Vec::new()));
}

#[test]
fn publish_needs_a_running_batch() {
    let mut registry: Registry<u32> = Registry::new();
    assert!(!registry.publish(vec![1], vec![5]));
    assert_eq!(registry.current_phase(), Phase::Unstarted);
    assert!(registry.begin());
    assert!(!registry.publish(vec![1, 2], vec![5]));
    assert_eq!(registry.current_phase(), Phase::Running);
    assert!(registry.publish(vec![1, 2], vec![5, 6]));
    assert!(!registry.publish(vec![3], vec![7]));
    assert_eq!(registry.claim(3), None);
    assert_eq!(registry.claim(2), Some(6));
}

#[test]
fn claim_removes_the_result() {
    let (mut registry, ids) = run_batch(vec![10u64, 20], 16);
    assert_eq!(registry.claim(ids[1]), Some(20));
    assert_eq!(registry.claim(ids[1]), None);
    assert_eq!(registry.claim(ids[0]), Some(10));
    assert_eq!(registry.claim(12345), None);
}

#[test]
fn get_before_batch_fails() {
    let mut registry: Registry<Erased> = Registry::new();
    let handle: Lazy<i32> = Lazy::new(4096);
    assert_eq!(handle.get(&mut registry, recover::<i32>).err(), Some(LazyError::NotInitialized));
    assert!(handle.cached().is_none());
    assert!(registry.begin());
    assert_eq!(handle.get(&mut registry, recover::<i32>).err(), Some(LazyError::NotInitialized));
}

#[test]
fn four_integer_globals_in_declaration_order() {
    let (mut registry, ids) = run_batch(vec![1i32, 2, 3, 42], 32);
    let handles: Vec<Lazy<i32>> = ids.iter().map(|&id| Lazy::new(id)).collect();
    assert_eq!(*handles[0].get(&mut registry, same).unwrap(), 1);
    assert_eq!(*handles[1].get(&mut registry, same).unwrap(), 2);
    assert_eq!(*handles[2].get(&mut registry, same).unwrap(), 3);
    assert_eq!(*handles[3].get(&mut registry, same).unwrap(), 42);
}

#[test]
fn retrieval_order_does_not_change_mapping() {
    let (mut registry, ids) = run_batch(vec![1i32, 2, 3, 42], 32);
    let handles: Vec<Lazy<i32>> = ids.iter().map(|&id| Lazy::new(id)).collect();
    assert_eq!(*handles[3].get(&mut registry, same).unwrap(), 42);
    assert_eq!(*handles[1].get(&mut registry, same).unwrap(), 2);
    assert_eq!(*handles[0].get(&mut registry, same).unwrap(), 1);
    assert_eq!(*handles[2].get(&mut registry, same).unwrap(), 3);
}

#[test]
fn repeated_get_returns_the_same_value() {
    let (mut registry, ids) = run_batch(vec![String::from("one"), String::from("two")], 8);
    let handle: Lazy<String> = Lazy::new(ids[0]);
    let first: &String = handle.get(&mut registry, same).unwrap();
    let second: &String = handle.get(&mut registry, same).unwrap();
    assert!(std::ptr::eq(first, second));
    assert_eq!(handle.cached().map(|s| s.as_str()), Some("one"));
    assert_eq!(handle.identity(), ids[0]);
}

#[test]
fn second_batch_leaves_values_alone() {
    let mut registry: Registry<u8> = Registry::new();
    let table = Region { start: 0, end: 2 };
    let reference = Region { start: 0, end: 1 };
    let ids = registry.start_batch(table, reference).unwrap();
    assert!(registry.publish(ids.clone(), vec![7, 9]));
    let handle: Lazy<u8> = Lazy::new(ids[0]);
    assert_eq!(*handle.get(&mut registry, same).unwrap(), 7);
    assert_eq!(registry.start_batch(table, reference), None);
    assert_eq!(registry.current_phase(), Phase::Completed);
    assert_eq!(*handle.get(&mut registry, same).unwrap(), 7);
    assert_eq!(registry.claim(ids[1]), Some(9));
}

#[test]
fn handles_of_different_types_get_their_own_values() {
    let values: Vec<Erased> = vec![Box::new(2i32), Box::new(String::from("42"))];
    let (mut registry, ids) = run_batch(values, 24);
    let number: Lazy<i32> = Lazy::new(ids[0]);
    let text: Lazy<String> = Lazy::new(ids[1]);
    assert_eq!(text.get(&mut registry, recover::<String>).unwrap(), "42");
    assert_eq!(*number.get(&mut registry, recover::<i32>).unwrap(), 2);
}

#[test]
fn wrong_type_is_refused() {
    let values: Vec<Erased> = vec![Box::new(2i32)];
    let (mut registry, ids) = run_batch(values, 24);
    let handle: Lazy<String> = Lazy::new(ids[0]);
    assert_eq!(handle.get(&mut registry, recover::<String>).err(), Some(LazyError::TypeMismatch));
    assert_eq!(handle.get(&mut registry, recover::<String>).err(), Some(LazyError::NotInitialized));
}

#[test]
fn claim_as_reports_each_outcome() {
    let (mut registry, ids) = run_batch(vec![3u32, 4], 4);
    let even = |v: u32| if v % 2 == 0 { Some(v) } else { None };
    assert_eq!(registry.claim_as(ids[0], even), Err(LazyError::TypeMismatch));
    assert_eq!(registry.claim_as(ids[1], even), Ok(4));
    assert_eq!(registry.claim_as(ids[1], even), Err(LazyError::NotInitialized));
}

struct Connection {
    open: bool,
}

impl Connection {
    fn greet(&self) -> &'static str {
        if self.open { "hi from db" } else { "closed" }
    }
}

#[test]
fn resource_and_plain_value_are_independent() {
    let values: Vec<Erased> = vec![Box::new(Connection { open: true }), Box::new(2i32)];
    let (mut registry, ids) = run_batch(values, 48);
    let db: Lazy<Connection> = Lazy::new(ids[0]);
    let plain: Lazy<i32> = Lazy::new(ids[1]);
    assert_eq!(*plain.get(&mut registry, recover::<i32>).unwrap(), 2);
    assert_eq!(db.get(&mut registry, recover::<Connection>).unwrap().greet(), "hi from db");
}

#[test]
fn stride_does_not_depend_on_value_type() {
    let reference = Region { start: 512, end: 560 };
    let (_, small) = run_batch(vec![1u8, 2, 3], stride(reference));
    let (_, large) = run_batch(vec![[0u64; 16], [1u64; 16], [2u64; 16]], stride(reference));
    assert_eq!(small, large);
    assert_eq!(small, vec![4096, 4144, 4192]);
}
