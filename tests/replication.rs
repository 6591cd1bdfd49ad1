use rmultimap::multi_map::MultiMap;
use rmultimap::replication::{rewrite_ops, EMIT_FLAGS, INSERT_COMMAND};

fn b(s: &str) -> Vec<u8> {
    s.as_bytes().to_vec()
}

#[test]
fn one_operation_per_value_in_order() {
    let mut m = MultiMap::new();
    m.insert(b("f1"), vec![b("a"), b("b")]);
    m.insert(b("f2"), vec![b("c")]);
    let ops = rewrite_ops(b"k", &m);
    let got: Vec<(Vec<u8>, Vec<u8>, Vec<u8>)> = ops
        .into_iter()
        .map(|o| (o.key, o.field, o.value))
        .collect();
    assert_eq!(
        got,
        vec![
            (b("k"), b("f1"), b("a")),
            (b("k"), b("f1"), b("b")),
            (b("k"), b("f2"), b("c")),
        ]
    );
}

#[test]
fn replaying_operations_rebuilds_the_map() {
    let mut m = MultiMap::new();
    m.insert(b("x"), vec![b("1"), b("2"), b("1")]);
    m.insert(b("y"), vec![b("3")]);
    let mut r = MultiMap::new();
    for o in rewrite_ops(b"k", &m) {
        r.insert(o.field, vec![o.value]);
    }
    assert_eq!(r.len(), 2);
    assert_eq!(r.values(b"x"), m.values(b"x"));
    assert_eq!(r.values(b"y"), m.values(b"y"));
}

#[test]
fn empty_map_emits_nothing() {
    let m = MultiMap::new();
    assert!(rewrite_ops(b"k", &m).is_empty());
}

#[test]
fn emitted_command_and_flags() {
    assert_eq!(INSERT_COMMAND, "multimap.insert");
    assert_eq!(EMIT_FLAGS, "scc");
}
