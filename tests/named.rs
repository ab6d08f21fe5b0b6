use std::collections::HashMap;

use asset_store::named::{FindNamed, NameCache, Named, NamedStorage};

#[test]
fn named_new_keeps_name() {
    assert_eq!(Named::new("Super Cool Entity".to_string()).name, "Super Cool Entity");
    assert_eq!(Named::new(format!("Entity Number {}", 7)).name, "Entity Number 7");
}

#[test]
fn cache_hooks() {
    let mut cache = NameCache::new();
    cache.on_update(3, &Named::new("a".to_string()));
    assert_eq!(cache.lookup("a"), Some(3));
    let v = cache.on_remove(4, Named::new("a".to_string()));
    assert_eq!(v.name, "a");
    assert_eq!(cache.lookup("a"), Some(3));
    cache.on_remove(3, Named::new("a".to_string()));
    assert_eq!(cache.lookup("a"), None);
}

#[test]
fn on_update_drops_stale_name() {
    let mut cache = NameCache::new();
    cache.on_update(3, &Named::new("a".to_string()));
    cache.on_update(3, &Named::new("b".to_string()));
    assert_eq!(cache.lookup("a"), None);
    assert_eq!(cache.lookup("b"), Some(3));
    cache.on_update(4, &Named::new("b".to_string()));
    cache.on_update(3, &Named::new("c".to_string()));
    assert_eq!(cache.lookup("b"), Some(4));
    assert_eq!(cache.lookup("c"), Some(3));
}

#[test]
fn insert_find_remove() {
    let mut s = NamedStorage::new();
    assert!(s.insert(2, Named::new("two".to_string())).is_none());
    assert_eq!(s.find("two"), Some(2));
    assert_eq!(s.get(2).map(|n| n.name.clone()), Some("two".to_string()));
    let old = s.insert(2, Named::new("deux".to_string()));
    assert_eq!(old.map(|n| n.name), Some("two".to_string()));
    assert_eq!(s.find("two"), None);
    assert_eq!(s.find("deux"), Some(2));
    assert_eq!(s.remove(2).map(|n| n.name), Some("deux".to_string()));
    assert_eq!(s.find("deux"), None);
    assert!(s.remove(2).is_none());
    assert!(s.remove(100).is_none());
}

#[test]
fn duplicate_names_repoint_on_remove() {
    let mut s = NamedStorage::new();
    s.insert(0, Named::new("x".to_string()));
    s.insert(1, Named::new("x".to_string()));
    assert_eq!(s.find("x"), Some(1));
    s.remove(1);
    assert_eq!(s.find("x"), Some(0));
    s.remove(0);
    assert_eq!(s.find("x"), None);
}

fn check_against_model(s: &NamedStorage, model: &HashMap<u32, String>, names: &[String]) {
    for name in names {
        match s.find(name) {
            Some(id) => assert_eq!(model.get(&id), Some(name)),
            None => assert!(model.values().all(|v| v != name)),
        }
    }
    for (id, name) in model {
        assert_eq!(s.get(*id).map(|n| n.name.clone()), Some(name.clone()));
    }
}

#[test]
fn cache_consistency_random_operations() {
    let names: Vec<String> = (0..8).map(|i| format!("name{}", i)).collect();
    let mut s = NamedStorage::new();
    let mut model: HashMap<u32, String> = HashMap::new();
    let mut seed: u64 = 0x2545F4914F6CDD1D;
    for _ in 0..1000 {
        seed = seed.wrapping_mul(6364136223846793005).wrapping_add(1442695040888963407);
        let op = (seed >> 33) % 3;
        let id = ((seed >> 40) % 12) as u32;
        let name = names[((seed >> 50) % 8) as usize].clone();
        if op == 2 {
            let r = s.remove(id);
            assert_eq!(r.map(|n| n.name), model.remove(&id));
        } else {
            let r = s.insert(id, Named::new(name.clone()));
            assert_eq!(r.map(|n| n.name), model.insert(id, name));
        }
        check_against_model(&s, &model, &names);
    }
}
