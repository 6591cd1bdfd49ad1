use rmultimap::command::{
    arity_ok, delete_command, insert_command, length_command, values_command, Command, KeySlot,
    Reply, WRONG_TYPE_MESSAGE,
};

fn args(items: &[&str]) -> Vec<Vec<u8>> {
    items.iter().map(|s| s.as_bytes().to_vec()).collect()
}

#[test]
fn insert_length_values_delete_scenario() {
    let mut slot = KeySlot::Empty;
    assert_eq!(insert_command(&mut slot, &args(&["INSERT", "k", "f", "x", "y"])), Reply::Acknowledged);
    assert_eq!(length_command(&slot, &args(&["LENGTH", "k", "f"])), Reply::Integer(2));
    assert_eq!(
        values_command(&slot, &args(&["VALUES", "k", "f"])),
        Reply::Array(args(&["x", "y"]))
    );
    assert_eq!(delete_command(&mut slot, &args(&["DELETE", "k", "f"])), Reply::Integer(1));
    assert_eq!(length_command(&slot, &args(&["LENGTH", "k", "f"])), Reply::Integer(0));
    assert_eq!(delete_command(&mut slot, &args(&["DELETE", "k", "f"])), Reply::Integer(0));
}

#[test]
fn foreign_key_refuses_every_command() {
    let mut slot = KeySlot::Foreign;
    assert_eq!(insert_command(&mut slot, &args(&["INSERT", "k", "f", "x"])), Reply::WrongType);
    assert!(matches!(slot, KeySlot::Foreign));
    assert_eq!(length_command(&slot, &args(&["LENGTH", "k", "f"])), Reply::WrongType);
    assert_eq!(values_command(&slot, &args(&["VALUES", "k", "f"])), Reply::WrongType);
    assert_eq!(delete_command(&mut slot, &args(&["DELETE", "k", "f"])), Reply::WrongType);
    assert!(matches!(slot, KeySlot::Foreign));
    assert!(WRONG_TYPE_MESSAGE.starts_with("WRONGTYPE"));
}

#[test]
fn empty_key_reads_are_zero() {
    let mut slot = KeySlot::Empty;
    assert_eq!(length_command(&slot, &args(&["LENGTH", "k", "f"])), Reply::Integer(0));
    assert_eq!(values_command(&slot, &args(&["VALUES", "k", "f"])), Reply::Array(Vec::new()));
    assert_eq!(delete_command(&mut slot, &args(&["DELETE", "k", "f"])), Reply::Integer(0));
    assert!(matches!(slot, KeySlot::Empty));
}

#[test]
fn missing_field_in_present_map() {
    let mut slot = KeySlot::Empty;
    insert_command(&mut slot, &args(&["INSERT", "k", "f", "x"]));
    assert_eq!(length_command(&slot, &args(&["LENGTH", "k", "g"])), Reply::Integer(0));
    assert_eq!(values_command(&slot, &args(&["VALUES", "k", "g"])), Reply::Array(Vec::new()));
    assert_eq!(delete_command(&mut slot, &args(&["DELETE", "k", "g"])), Reply::Integer(0));
}

#[test]
fn wrong_arity_is_reported_first() {
    let mut slot = KeySlot::Foreign;
    assert_eq!(insert_command(&mut slot, &args(&["INSERT", "k", "f"])), Reply::WrongArity);
    assert_eq!(length_command(&slot, &args(&["LENGTH", "k"])), Reply::WrongArity);
    assert_eq!(values_command(&slot, &args(&["VALUES", "k", "f", "g"])), Reply::WrongArity);
    let mut empty = KeySlot::Empty;
    assert_eq!(delete_command(&mut empty, &args(&["DELETE"])), Reply::WrongArity);
    assert!(matches!(empty, KeySlot::Empty));
    assert_eq!(insert_command(&mut empty, &args(&["INSERT", "k", "f"])), Reply::WrongArity);
    assert!(matches!(empty, KeySlot::Empty));
}

#[test]
fn arity_rules() {
    assert!(arity_ok(Command::Insert, 4));
    assert!(arity_ok(Command::Insert, 9));
    assert!(!arity_ok(Command::Insert, 3));
    assert!(arity_ok(Command::Length, 3));
    assert!(!arity_ok(Command::Values, 4));
    assert!(!arity_ok(Command::Delete, 2));
}

#[test]
fn insert_appends_to_existing_map() {
    let mut slot = KeySlot::Empty;
    insert_command(&mut slot, &args(&["INSERT", "k", "f", "a", "b"]));
    insert_command(&mut slot, &args(&["INSERT", "k", "f", "c"]));
    assert_eq!(
        values_command(&slot, &args(&["VALUES", "k", "f"])),
        Reply::Array(args(&["a", "b", "c"]))
    );
    match &slot {
        KeySlot::Present(m) => assert_eq!(m.len(), 1),
        _ => panic!("the slot should hold a map"),
    }
}

#[test]
fn only_wrong_type_carries_the_fixed_message() {
    assert_eq!(Reply::WrongType.error_message(), Some(WRONG_TYPE_MESSAGE));
    assert_eq!(
        WRONG_TYPE_MESSAGE,
        "WRONGTYPE Operation against a key holding the wrong kind of value"
    );
    assert_eq!(Reply::WrongArity.error_message(), None);
    assert_eq!(Reply::Acknowledged.error_message(), None);
    assert_eq!(Reply::Integer(1).error_message(), None);
}
