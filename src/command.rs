//! The command layer: each command checks its arity, then the occupancy of the host key
//! slot, and only then reads or changes the map held there.
use vstd::prelude::*;

use crate::bytes::{append_copies, copy_bytes, deep_view};
use crate::multi_map::{appended, values_or_empty, MultiMap};

verus! {

/// What a host key slot holds.
pub enum KeySlot {
    /// No value.
    Empty,
    /// A value of another type.
    Foreign,
    /// A map of this type.
    Present(MultiMap),
}

/// The reply of a command.
#[derive(Debug, PartialEq, Eq)]
pub enum Reply {
    /// The simple acknowledgment of an insert: the host then records the command
    /// verbatim in its durability log and sends it to replicas.
    Acknowledged,
    Integer(i64),
    Array(Vec<Vec<u8>>),
    /// The command had the wrong number of arguments.
    WrongArity,
    /// The key holds a value of another type.
    WrongType,
}

/// The four commands.
#[derive(Clone, Copy, PartialEq, Eq, Debug)]
pub enum Command {
    Insert,
    Length,
    Values,
    Delete,
}

/// The message sent for a wrong-type error.
pub const WRONG_TYPE_MESSAGE: &'static str = "WRONGTYPE Operation against a key holding the wrong kind of value";

impl Reply {
    /// The fixed message of a wrong-type error. An arity error carries the host's own
    /// standard message, and the other replies are no errors.
    pub fn error_message(&self) -> (r: Option<&'static str>)
        ensures
            *self is WrongType ==> r == Some(WRONG_TYPE_MESSAGE),
            !(*self is WrongType) ==> r is None,
    {
        match self {
            Reply::WrongType => Some(WRONG_TYPE_MESSAGE),
            _ => None,
        }
    }
}

/// The name under which the host registers the data type.
pub const TYPE_NAME: &'static str = "rmultimap";

/// The version of the snapshot format.
pub const ENCODING_VERSION: i32 = 1;

/// The map that a slot holds, where it holds one.
pub open spec fn slot_map(s: KeySlot) -> Option<Map<Seq<u8>, Seq<Seq<u8>>>> {
    match s {
        KeySlot::Present(m) => Some(m@),
        _ => None,
    }
}

/// The map that a slot holds, or the empty map where it holds none.
pub open spec fn slot_map_or_empty(s: KeySlot) -> Map<Seq<u8>, Seq<Seq<u8>>> {
    match s {
        KeySlot::Present(m) => m@,
        _ => Map::empty(),
    }
}

/// A slot whose map, if any, is well formed.
pub open spec fn slot_wf(s: KeySlot) -> bool {
    match s {
        KeySlot::Present(m) => m.wf(),
        _ => true,
    }
}

/// Whether `argc` arguments, the command name included, suit the command: an insert
/// takes a key, a field and at least one value; the others take a key and a field.
pub open spec fn arity_fits(cmd: Command, argc: int) -> bool {
    match cmd {
        Command::Insert => argc >= 4,
        _ => argc == 3,
    }
}

/// Whether `argc` arguments, the command name included, suit `cmd`.
pub fn arity_ok(cmd: Command, argc: usize) -> (r: bool)
    ensures
        r == arity_fits(cmd, argc as int),
{
    match cmd {
        Command::Insert => argc >= 4,
        _ => argc == 3,
    }
}

/// Whether the slot holds a value of another type.
pub fn is_foreign(slot: &KeySlot) -> (r: bool)
    ensures
        r == (*slot is Foreign),
{
    match slot {
        KeySlot::Foreign => true,
        _ => false,
    }
}

/// `INSERT key field value...`: appends the values to the field, creating the map in an
/// empty slot first.
pub fn insert_command(slot: &mut KeySlot, args: &Vec<Vec<u8>>) -> (r: Reply)
    requires
        slot_wf(*old(slot)),
    ensures
        slot_wf(*final(slot)),
        !arity_fits(Command::Insert, args@.len() as int) ==> r is WrongArity && *final(slot)
            == *old(slot),
        arity_fits(Command::Insert, args@.len() as int) && *old(slot) is Foreign ==> r is WrongType
            && *final(slot) == *old(slot),
        arity_fits(Command::Insert, args@.len() as int) && !(*old(slot) is Foreign) ==> r is Acknowledged
            && slot_map(*final(slot)) == Some(
            appended(
                slot_map_or_empty(*old(slot)),
                args@[2]@,
                deep_view(args@.subrange(3, args@.len() as int)),
            ),
        ),
{
    if !arity_ok(Command::Insert, args.len()) {
        return Reply::WrongArity;
    }
    if is_foreign(slot) {
        return Reply::WrongType;
    }
    let mut values: Vec<Vec<u8>> = Vec::new();
    let mut i: usize = 3;
    while i < args.len()
        invariant
            3 <= i <= args@.len(),
            deep_view(values@) == deep_view(args@.subrange(3, i as int)),
        decreases args@.len() - i,
    {
        let ghost prev = values@;
        values.push(copy_bytes(args[i].as_slice()));
        assert(deep_view(values@) =~= deep_view(prev).push(args@[i as int]@));
        assert(deep_view(args@.subrange(3, i + 1)) =~= deep_view(args@.subrange(3, i as int)).push(
            args@[i as int]@,
        ));
        i = i + 1;
    }
    if let KeySlot::Empty = slot {
        *slot = KeySlot::Present(MultiMap::new());
    }
    match slot {
        KeySlot::Present(m) => {
            m.insert(copy_bytes(args[2].as_slice()), values);
        },
        _ => {},
    }
    Reply::Acknowledged
}

/// `LENGTH key field`: the number of values under the field, 0 where the field or the
/// map is absent.
pub fn length_command(slot: &KeySlot, args: &Vec<Vec<u8>>) -> (r: Reply)
    requires
        slot_wf(*slot),
    ensures
        !arity_fits(Command::Length, args@.len() as int) ==> r is WrongArity,
        arity_fits(Command::Length, args@.len() as int) && *slot is Foreign ==> r is WrongType,
        arity_fits(Command::Length, args@.len() as int) && !(*slot is Foreign) ==> r == Reply::Integer(
            values_or_empty(slot_map_or_empty(*slot), args@[2]@).len() as i64,
        ),
{
    if !arity_ok(Command::Length, args.len()) {
        return Reply::WrongArity;
    }
    match slot {
        KeySlot::Foreign => Reply::WrongType,
        KeySlot::Empty => Reply::Integer(0),
        KeySlot::Present(m) => Reply::Integer(m.key_len(args[2].as_slice()) as i64),
    }
}

/// `VALUES key field`: the values under the field, in order; an empty array where the
/// field or the map is absent.
pub fn values_command(slot: &KeySlot, args: &Vec<Vec<u8>>) -> (r: Reply)
    requires
        slot_wf(*slot),
    ensures
        !arity_fits(Command::Values, args@.len() as int) ==> r is WrongArity,
        arity_fits(Command::Values, args@.len() as int) && *slot is Foreign ==> r is WrongType,
        arity_fits(Command::Values, args@.len() as int) && !(*slot is Foreign) ==> (r matches Reply::Array(
            vs) && deep_view(vs@) == values_or_empty(slot_map_or_empty(*slot), args@[2]@)),
{
    if !arity_ok(Command::Values, args.len()) {
        return Reply::WrongArity;
    }
    match slot {
        KeySlot::Foreign => Reply::WrongType,
        KeySlot::Empty => {
            let out: Vec<Vec<u8>> = Vec::new();
            assert(deep_view(out@) =~= Seq::<Seq<u8>>::empty());
            Reply::Array(out)
        },
        KeySlot::Present(m) => {
            let mut out: Vec<Vec<u8>> = Vec::new();
            match m.values(args[2].as_slice()) {
                Some(vs) => {
                    append_copies(&mut out, vs);
                    assert(deep_view(out@) =~= deep_view(vs@));
                },
                None => {
                    assert(deep_view(out@) =~= Seq::<Seq<u8>>::empty());
                },
            }
            Reply::Array(out)
        },
    }
}

/// `DELETE key field`: removes the field and its values; replies 1 where the field
/// existed and 0 otherwise.
pub fn delete_command(slot: &mut KeySlot, args: &Vec<Vec<u8>>) -> (r: Reply)
    requires
        slot_wf(*old(slot)),
    ensures
        slot_wf(*final(slot)),
        !arity_fits(Command::Delete, args@.len() as int) ==> r is WrongArity && *final(slot)
            == *old(slot),
        arity_fits(Command::Delete, args@.len() as int) && *old(slot) is Foreign ==> r is WrongType
            && *final(slot) == *old(slot),
        arity_fits(Command::Delete, args@.len() as int) && *old(slot) is Empty ==> r == Reply::Integer(0)
            && *final(slot) == *old(slot),
        arity_fits(Command::Delete, args@.len() as int) && *old(slot) is Present ==> r
            == Reply::Integer(
            if slot_map_or_empty(*old(slot)).contains_key(args@[2]@) {
                1i64
            } else {
                0i64
            },
        ) && slot_map(*final(slot)) == Some(slot_map_or_empty(*old(slot)).remove(args@[2]@)),
{
    if !arity_ok(Command::Delete, args.len()) {
        return Reply::WrongArity;
    }
    match slot {
        KeySlot::Foreign => Reply::WrongType,
        KeySlot::Empty => Reply::Integer(0),
        KeySlot::Present(m) => Reply::Integer(m.delete_key(args[2].as_slice())),
    }
}

} // verus!
