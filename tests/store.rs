use fragments::store::Store;

const NAME: u64 = 1;
const CONTENT: u64 = 2;

#[test]
fn spawned_entities_are_distinct_and_alive() {
    let mut s = Store::new();
    let a = s.spawn(None).unwrap();
    let b = s.spawn(None).unwrap();
    let c = s.spawn(Some(a)).unwrap();
    assert_ne!(a, b);
    assert_ne!(a, c);
    assert_ne!(b, c);
    assert!(s.is_alive(a) && s.is_alive(b) && s.is_alive(c));
    assert_eq!(s.len(), 3);
    assert_eq!(s.parent(c), Some(a));
    assert_eq!(s.parent(a), None);
    assert!(s.is_widget(c));
}

#[test]
fn spawn_under_dead_parent_fails() {
    let mut s = Store::new();
    let a = s.spawn(None).unwrap();
    s.despawn(a);
    assert_eq!(s.spawn(Some(a)), None);
    assert_eq!(s.len(), 0);
}

#[test]
fn set_and_get_values() {
    let mut s = Store::new();
    let a = s.spawn(None).unwrap();
    assert_eq!(s.get(a, NAME), None);
    assert!(s.set(a, NAME, "Application".to_string()));
    assert_eq!(s.get(a, NAME), Some("Application".to_string()));
    assert!(s.set(a, NAME, "Other".to_string()));
    assert_eq!(s.get(a, NAME), Some("Other".to_string()));
    assert_eq!(s.get(a, CONTENT), None);
}

#[test]
fn set_on_despawned_entity_is_a_no_op() {
    let mut s = Store::new();
    let a = s.spawn(None).unwrap();
    s.despawn(a);
    assert!(!s.set(a, NAME, "x".to_string()));
    assert_eq!(s.get(a, NAME), None);
    assert!(!s.is_alive(a));
}

#[test]
fn despawn_removes_every_descendant() {
    let mut s = Store::new();
    let root = s.spawn(None).unwrap();
    let child = s.spawn(Some(root)).unwrap();
    let grandchild = s.spawn(Some(child)).unwrap();
    let sibling = s.spawn(None).unwrap();
    let nephew = s.spawn(Some(sibling)).unwrap();
    s.set(grandchild, CONTENT, "deep".to_string());
    s.set(nephew, CONTENT, "kept".to_string());
    s.despawn(root);
    assert!(!s.is_alive(root));
    assert!(!s.is_alive(child));
    assert!(!s.is_alive(grandchild));
    assert_eq!(s.get(grandchild, CONTENT), None);
    assert!(s.is_alive(sibling));
    assert!(s.is_alive(nephew));
    assert_eq!(s.get(nephew, CONTENT), Some("kept".to_string()));
    assert_eq!(s.len(), 2);
}

#[test]
fn despawning_a_gone_entity_changes_nothing() {
    let mut s = Store::new();
    let a = s.spawn(None).unwrap();
    let b = s.spawn(Some(a)).unwrap();
    s.despawn(b);
    s.despawn(b);
    assert!(s.is_alive(a));
    assert_eq!(s.len(), 1);
}

#[test]
fn clear_keeps_the_entity_and_its_marker() {
    let mut s = Store::new();
    let root = s.spawn(None).unwrap();
    let f = s.spawn(Some(root)).unwrap();
    let child = s.spawn(Some(f)).unwrap();
    s.set(f, NAME, "n".to_string());
    s.set(f, CONTENT, "c".to_string());
    s.clear(f);
    assert!(s.is_alive(f));
    assert!(s.is_widget(f));
    assert_eq!(s.parent(f), Some(root));
    assert_eq!(s.get(f, NAME), None);
    assert_eq!(s.get(f, CONTENT), None);
    assert!(!s.is_alive(child));
    assert!(s.is_alive(root));
}

#[test]
fn children_are_listed_in_spawn_order() {
    let mut s = Store::new();
    let root = s.spawn(None).unwrap();
    let a = s.spawn(Some(root)).unwrap();
    let _deep = s.spawn(Some(a)).unwrap();
    let b = s.spawn(Some(root)).unwrap();
    assert_eq!(s.children(root), vec![a, b]);
    s.despawn(a);
    assert_eq!(s.children(root), vec![b]);
}

#[test]
fn batch_writes_last_write_wins() {
    let mut s = Store::new();
    let a = s.spawn(None).unwrap();
    let batch = vec![
        (NAME, "first".to_string()),
        (CONTENT, "c".to_string()),
        (NAME, "second".to_string()),
    ];
    assert!(s.write_batch(a, batch));
    assert_eq!(s.get(a, NAME), Some("second".to_string()));
    assert_eq!(s.get(a, CONTENT), Some("c".to_string()));
}

#[test]
fn keys_are_not_reused_while_live() {
    let mut s = Store::new();
    let a = s.spawn(None).unwrap();
    let b = s.spawn(None).unwrap();
    s.despawn(a);
    let c = s.spawn(None).unwrap();
    assert_ne!(c, b);
    assert_ne!(c, a);
    assert!(s.is_alive(b) && s.is_alive(c));
}
