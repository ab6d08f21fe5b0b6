use asset_store::handle::{count_is_unique, count_is_unused, Handle};
use asset_store::storage::{Asset, AssetStorage, HandleAllocator, Processed, Processor};

struct Text(String);

impl Asset for Text {
    type Data = String;
}

fn to_text(d: String) -> Result<Text, String> {
    Ok(Text(d))
}

fn push(storage: &AssetStorage<Text>, data: Result<String, String>, handle: &Handle<Text>, name: &str) {
    storage.pending().push(Processed {
        data,
        format: "txt".to_string(),
        handle: handle.clone(),
        name: name.to_string(),
    });
}

#[test]
fn greeting_scenario() {
    let mut storage: AssetStorage<Text> = AssetStorage::new();
    let h1 = storage.allocate().unwrap();
    let old_id = h1.id();
    push(&storage, Ok("abc".to_string()), &h1, "greeting");
    let errors = storage.process(to_text);
    assert!(errors.is_empty());
    assert_eq!(storage.get(&h1).map(|t| t.0.as_str()), Some("abc"));
    drop(h1);
    let errors = storage.process(to_text);
    assert!(errors.is_empty());
    let h2 = storage.allocate().unwrap();
    assert_eq!(h2.id(), old_id);
    assert!(storage.get(&h2).is_none());
}

#[test]
fn round_trip_integrate_applies_converter() {
    let mut storage: AssetStorage<Text> = AssetStorage::new();
    let h = storage.allocate().unwrap();
    push(&storage, Ok("data".to_string()), &h, "item");
    let errors = storage.process(|d: String| Ok(Text(format!("{}!", d))));
    assert!(errors.is_empty());
    assert_eq!(storage.get(&h).map(|t| t.0.clone()), Some("data!".to_string()));
}

#[test]
fn integrate_single_item() {
    let mut storage: AssetStorage<Text> = AssetStorage::new();
    let h = storage.allocate().unwrap();
    let item = Processed { data: Ok("x".to_string()), format: "txt".to_string(), handle: h.clone(), name: "n".to_string() };
    let r = storage.integrate(item, &to_text);
    assert!(r.is_none());
    assert_eq!(storage.get(&h).map(|t| t.0.clone()), Some("x".to_string()));
}

#[test]
fn failure_isolation_either_order() {
    for failing_first in [true, false] {
        let mut storage: AssetStorage<Text> = AssetStorage::new();
        let good = storage.allocate().unwrap();
        let bad = storage.allocate().unwrap();
        if failing_first {
            push(&storage, Err("broken".to_string()), &bad, "bad");
            push(&storage, Ok("fine".to_string()), &good, "good");
        } else {
            push(&storage, Ok("fine".to_string()), &good, "good");
            push(&storage, Err("broken".to_string()), &bad, "bad");
        }
        let errors = storage.process(to_text);
        assert_eq!(errors.len(), 1);
        assert_eq!(errors[0].name, "bad");
        assert_eq!(errors[0].format, "txt");
        assert_eq!(errors[0].message, "broken");
        assert!(storage.get(&good).is_some());
        assert!(storage.get(&bad).is_none());
    }
}

#[test]
fn converter_failure_is_reported() {
    let mut storage: AssetStorage<Text> = AssetStorage::new();
    let h = storage.allocate().unwrap();
    push(&storage, Ok("raw".to_string()), &h, "asset");
    let errors = storage.process(|_d: String| -> Result<Text, String> { Err("cannot convert".to_string()) });
    assert_eq!(errors.len(), 1);
    assert_eq!(errors[0].message, "cannot convert");
    assert!(storage.get(&h).is_none());
}

#[test]
fn foreign_handle_is_rejected() {
    let mut other: AssetStorage<Text> = AssetStorage::new();
    let h = other.allocate().unwrap();
    let mut storage: AssetStorage<Text> = AssetStorage::new();
    push(&storage, Ok("abc".to_string()), &h, "stray");
    let errors = storage.process(to_text);
    assert_eq!(errors.len(), 1);
    assert_eq!(errors[0].name, "stray");
    assert!(storage.get(&h).is_none());
}

#[test]
fn reclamation_reuses_ids() {
    let mut storage: AssetStorage<Text> = AssetStorage::new();
    let handles: Vec<Handle<Text>> = (0..5).map(|_| storage.allocate().unwrap()).collect();
    for (i, h) in handles.iter().enumerate() {
        push(&storage, Ok(format!("v{}", i)), h, "v");
    }
    assert!(storage.process(to_text).is_empty());
    let mut old_ids: Vec<u32> = handles.iter().map(|h| h.id()).collect();
    drop(handles);
    assert!(storage.process(to_text).is_empty());
    let fresh: Vec<Handle<Text>> = (0..5).map(|_| storage.allocate().unwrap()).collect();
    let mut new_ids: Vec<u32> = fresh.iter().map(|h| h.id()).collect();
    old_ids.sort();
    new_ids.sort();
    assert_eq!(old_ids, new_ids);
    for h in &fresh {
        assert!(storage.get(h).is_none());
    }
}

#[test]
fn held_handles_are_not_reclaimed() {
    let mut storage: AssetStorage<Text> = AssetStorage::new();
    let h = storage.allocate().unwrap();
    push(&storage, Ok("keep".to_string()), &h, "keep");
    storage.process(to_text);
    storage.process(to_text);
    storage.process(to_text);
    assert_eq!(storage.get(&h).map(|t| t.0.clone()), Some("keep".to_string()));
    let next = storage.allocate().unwrap();
    assert_ne!(next.id(), h.id());
}

#[test]
fn unintegrated_dropped_handle_is_reclaimed() {
    let mut storage: AssetStorage<Text> = AssetStorage::new();
    let h = storage.allocate().unwrap();
    let id = h.id();
    drop(h);
    storage.process(to_text);
    let again = storage.allocate().unwrap();
    assert_eq!(again.id(), id);
}

#[test]
fn allocated_ids_are_distinct() {
    let mut storage: AssetStorage<Text> = AssetStorage::new();
    let handles: Vec<Handle<Text>> = (0..100).map(|_| storage.allocate().unwrap()).collect();
    let mut ids: Vec<u32> = handles.iter().map(|h| h.id()).collect();
    ids.sort();
    ids.dedup();
    assert_eq!(ids.len(), 100);
    assert_eq!(ids[0], 0);
    assert_eq!(ids[99], 99);
}

#[test]
fn unused_slots_and_reclaim() {
    let mut storage: AssetStorage<Text> = AssetStorage::new();
    let a = storage.allocate().unwrap();
    let b = storage.allocate().unwrap();
    let b_id = b.id();
    drop(b);
    let flags = storage.unused_slots();
    assert_eq!(flags, vec![false, true]);
    storage.reclaim(&flags);
    let c = storage.allocate().unwrap();
    assert_eq!(c.id(), b_id);
    assert_ne!(c.id(), a.id());
}

#[test]
fn get_mut_changes_value() {
    let mut storage: AssetStorage<Text> = AssetStorage::new();
    let h = storage.allocate().unwrap();
    assert!(storage.get_mut(&h).is_none());
    push(&storage, Ok("old".to_string()), &h, "m");
    storage.process(to_text);
    storage.get_mut(&h).unwrap().0 = "new".to_string();
    assert_eq!(storage.get(&h).map(|t| t.0.clone()), Some("new".to_string()));
}

#[test]
fn uniqueness_of_handles() {
    let mut storage: AssetStorage<Text> = AssetStorage::new();
    let h = storage.allocate().unwrap();
    assert!(h.is_unique());
    let h2 = h.clone();
    assert!(!h.is_unique());
    assert!(h == h2);
    drop(h2);
    assert!(h.is_unique());
    assert!(count_is_unique(2));
    assert!(!count_is_unique(1));
    assert!(count_is_unused(1));
    assert!(!count_is_unused(2));
}

#[test]
fn allocator_counts_up_and_stops() {
    let mut alloc = HandleAllocator::new();
    assert_eq!(alloc.next_id(), Some(0));
    assert_eq!(alloc.next_id(), Some(1));
    let mut last = 1;
    while let Some(id) = alloc.next_id() {
        assert_eq!(id, last + 1);
        last = id;
    }
    assert_eq!(last, 1048575);
    assert_eq!(alloc.next_id(), None);
}

#[test]
fn processor_constructs() {
    let _p: Processor<Text> = Processor::new();
}
