use rmultimap::multi_map::MultiMap;

fn b(s: &str) -> Vec<u8> {
    s.as_bytes().to_vec()
}

fn list(items: &[&str]) -> Vec<Vec<u8>> {
    items.iter().map(|s| b(s)).collect()
}

#[test]
fn new_map_is_empty() {
    let m = MultiMap::new();
    assert_eq!(m.len(), 0);
    assert_eq!(m.key_len(b"f"), 0);
    assert!(m.values(b"f").is_none());
}

#[test]
fn insert_then_insert_appends_in_order() {
    let mut m = MultiMap::new();
    m.insert(b("f"), list(&["a", "b"]));
    m.insert(b("f"), list(&["c"]));
    assert_eq!(m.values(b"f"), Some(&list(&["a", "b", "c"])));
    assert_eq!(m.key_len(b"f"), 3);
    assert_eq!(m.len(), 1);
}

#[test]
fn insert_keeps_duplicates() {
    let mut m = MultiMap::new();
    m.insert(b("f"), list(&["x", "x"]));
    m.insert(b("f"), list(&["x"]));
    assert_eq!(m.key_len(b"f"), 3);
}

#[test]
fn insert_with_no_values_leaves_the_map_unchanged() {
    let mut m = MultiMap::new();
    m.insert(b("f"), Vec::new());
    assert_eq!(m.len(), 0);
    assert!(m.values(b"f").is_none());
    assert_eq!(m.key_len(b"f"), 0);
    m.insert(b("g"), list(&["a"]));
    m.insert(b("g"), Vec::new());
    assert_eq!(m.len(), 1);
    assert_eq!(m.values(b"g"), Some(&list(&["a"])));
}

#[test]
fn fields_are_independent() {
    let mut m = MultiMap::new();
    m.insert(b("f1"), list(&["a", "b"]));
    m.insert(b("f2"), list(&["c"]));
    assert_eq!(m.len(), 2);
    assert_eq!(m.key_len(b"f1"), 2);
    assert_eq!(m.key_len(b"f2"), 1);
    assert_eq!(m.values(b"f2"), Some(&list(&["c"])));
    assert_eq!(m.key_len(b"f3"), 0);
}

#[test]
fn delete_existing_field() {
    let mut m = MultiMap::new();
    m.insert(b("f"), list(&["a"]));
    m.insert(b("g"), list(&["b"]));
    assert_eq!(m.delete_key(b"f"), 1);
    assert!(m.values(b"f").is_none());
    assert_eq!(m.key_len(b"f"), 0);
    assert_eq!(m.len(), 1);
    assert_eq!(m.values(b"g"), Some(&list(&["b"])));
}

#[test]
fn delete_missing_field_changes_nothing() {
    let mut m = MultiMap::new();
    m.insert(b("f"), list(&["a", "b"]));
    assert_eq!(m.delete_key(b"g"), 0);
    assert_eq!(m.len(), 1);
    assert_eq!(m.values(b"f"), Some(&list(&["a", "b"])));
}

#[test]
fn entries_follow_first_insertion() {
    let mut m = MultiMap::new();
    m.insert(b("f2"), list(&["c"]));
    m.insert(b("f1"), list(&["a"]));
    m.insert(b("f2"), list(&["d"]));
    let (k0, v0) = m.entry(0);
    let (k1, v1) = m.entry(1);
    assert_eq!(k0, &b("f2"));
    assert_eq!(v0, &list(&["c", "d"]));
    assert_eq!(k1, &b("f1"));
    assert_eq!(v1, &list(&["a"]));
}

#[test]
fn binary_fields_and_values() {
    let mut m = MultiMap::new();
    m.insert(vec![0u8, 255, 0], vec![vec![0u8], vec![]]);
    assert_eq!(m.key_len(&[0u8, 255, 0]), 2);
    assert_eq!(m.key_len(&[0u8, 255]), 0);
}

#[test]
fn default_and_clone() {
    let mut m = MultiMap::default();
    assert_eq!(m.len(), 0);
    m.insert(b("f"), list(&["a"]));
    let c = m.clone();
    m.insert(b("f"), list(&["b"]));
    assert_eq!(c.key_len(b"f"), 1);
    assert_eq!(m.key_len(b"f"), 2);
}
