use rmultimap::codec::{fits_snapshot, load, save};
use rmultimap::multi_map::MultiMap;

fn b(s: &str) -> Vec<u8> {
    s.as_bytes().to_vec()
}

fn list(items: &[&str]) -> Vec<Vec<u8>> {
    items.iter().map(|s| b(s)).collect()
}

fn le(n: u64) -> Vec<u8> {
    n.to_le_bytes().to_vec()
}

#[test]
fn snapshot_two_fields_reloads() {
    let mut m = MultiMap::new();
    m.insert(b("f1"), list(&["a", "b"]));
    m.insert(b("f2"), list(&["c"]));
    let bytes = save(&m);
    let back = load(&bytes).unwrap();
    assert_eq!(back.key_len(b"f1"), 2);
    assert_eq!(back.key_len(b"f2"), 1);
    assert_eq!(back.len(), 2);
    assert_eq!(back.values(b"f1"), Some(&list(&["a", "b"])));
    assert_eq!(back.values(b"f2"), Some(&list(&["c"])));
}

#[test]
fn snapshot_layout_is_exact() {
    let mut m = MultiMap::new();
    m.insert(b("fd"), list(&["x", ""]));
    let mut want = le(1);
    want.extend(le(3));
    want.extend(b"fd\0");
    want.extend(le(2));
    want.extend(le(2));
    want.extend(b"x\0");
    want.extend(le(1));
    want.extend(b"\0");
    assert_eq!(save(&m), want);
}

#[test]
fn snapshot_of_empty_map() {
    let m = MultiMap::new();
    let bytes = save(&m);
    assert_eq!(bytes, le(0));
    assert_eq!(load(&bytes).unwrap().len(), 0);
}

#[test]
fn snapshot_round_trip_binary_values() {
    let mut m = MultiMap::new();
    m.insert(vec![1, 0, 2], vec![vec![0, 0], vec![255]]);
    m.insert(b("g"), list(&["v"]));
    let back = load(&save(&m)).unwrap();
    assert_eq!(back.len(), 2);
    assert_eq!(back.values(&[1, 0, 2]), Some(&vec![vec![0u8, 0], vec![255u8]]));
    assert_eq!(back.values(b"g"), Some(&list(&["v"])));
}

#[test]
fn load_rejects_short_input() {
    assert!(load(&[]).is_none());
    assert!(load(&[1, 0, 0]).is_none());
    assert!(load(&le(1)).is_none());
}

#[test]
fn load_rejects_missing_terminator() {
    let mut s = le(1);
    s.extend(le(2));
    s.extend(b"fx");
    s.extend(le(0));
    assert!(load(&s).is_none());
}

#[test]
fn load_rejects_zero_length_record() {
    let mut s = le(1);
    s.extend(le(0));
    s.extend(le(0));
    assert!(load(&s).is_none());
}

#[test]
fn load_rejects_trailing_bytes() {
    let mut s = le(0);
    s.push(7);
    assert!(load(&s).is_none());
}

#[test]
fn load_appends_repeated_field_records() {
    let mut s = le(2);
    for v in ["a", "b"] {
        s.extend(le(2));
        s.extend(b"f\0");
        s.extend(le(1));
        s.extend(le(2));
        s.extend(v.as_bytes());
        s.push(0);
    }
    let m = load(&s).unwrap();
    assert_eq!(m.len(), 1);
    assert_eq!(m.values(b"f"), Some(&list(&["a", "b"])));
}

#[test]
fn load_skips_field_without_values() {
    let mut s = le(1);
    s.extend(le(2));
    s.extend(b"f\0");
    s.extend(le(0));
    let m = load(&s).unwrap();
    assert_eq!(m.len(), 0);
}

#[test]
fn ordinary_maps_fit_a_snapshot() {
    let mut m = MultiMap::new();
    assert!(fits_snapshot(&m));
    m.insert(b("f"), list(&["a", ""]));
    assert!(fits_snapshot(&m));
}

#[test]
fn empty_insert_survives_round_trip() {
    let mut m = MultiMap::new();
    m.insert(b("f"), Vec::new());
    m.insert(b("g"), list(&["x"]));
    let back = load(&save(&m)).unwrap();
    assert_eq!(back.len(), m.len());
    assert_eq!(back.values(b"g"), Some(&list(&["x"])));
    assert!(back.values(b"f").is_none());
}
