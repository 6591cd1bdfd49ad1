//! The replication emitter: a map turned into single-value insert operations that,
//! replayed in order, rebuild it.
use vstd::prelude::*;

use crate::bytes::{copy_bytes, deep_view};
use crate::codec::{lemma_records_map, records_map};
use crate::multi_map::{appended, values_or_empty, EntryView, MultiMap};

verus! {

/// The command that each emitted operation calls: the single-value insert.
pub const INSERT_COMMAND: &'static str = "multimap.insert";

/// The propagation flags of each emitted operation: `s` may be called from scripts, and
/// each `c` has the operation recorded in the command log and sent to replicas.
pub const EMIT_FLAGS: &'static str = "scc";

/// One operation for the replication log: the command `INSERT_COMMAND` called with
/// `key`, `field` and `value`, emitted with the flags `EMIT_FLAGS`.
#[derive(Debug, PartialEq, Eq)]
pub struct InsertOp {
    pub key: Vec<u8>,
    pub field: Vec<u8>,
    pub value: Vec<u8>,
}

/// The field and value of each operation, as plain sequences.
pub open spec fn op_pairs(ops: Seq<InsertOp>) -> Seq<(Seq<u8>, Seq<u8>)> {
    ops.map_values(|o: InsertOp| (o.field@, o.value@))
}

/// The (field, value) pairs of one entry, in the order of its values.
pub open spec fn entry_pairs(e: EntryView) -> Seq<(Seq<u8>, Seq<u8>)> {
    e.1.map_values(|v: Seq<u8>| (e.0, v))
}

/// The (field, value) pairs of all entries, entry after entry.
pub open spec fn emitted(es: Seq<EntryView>) -> Seq<(Seq<u8>, Seq<u8>)>
    decreases es.len(),
{
    if es.len() == 0 {
        Seq::empty()
    } else {
        emitted(es.drop_last()) + entry_pairs(es.last())
    }
}

/// The map that replaying single-value inserts of `pairs`, in order, builds from `m`.
pub open spec fn replay(m: Map<Seq<u8>, Seq<Seq<u8>>>, pairs: Seq<(Seq<u8>, Seq<u8>)>) -> Map<
    Seq<u8>,
    Seq<Seq<u8>>,
>
    decreases pairs.len(),
{
    if pairs.len() == 0 {
        m
    } else {
        appended(
            replay(m, pairs.drop_last()),
            pairs.last().0,
            seq![pairs.last().1],
        )
    }
}

/// The operations that rewrite the map stored under `key`: one per stored value, each
/// field in iteration order and its values in order.
pub fn rewrite_ops(key: &[u8], m: &MultiMap) -> (r: Vec<InsertOp>)
    requires
        m.wf(),
    ensures
        op_pairs(r@) == emitted(m.entries()),
        forall|i: int| 0 <= i < r@.len() ==> (#[trigger] r@[i]).key@ == key@,
{
    let n = m.len();
    let ghost es = m.entries();
    let mut ops: Vec<InsertOp> = Vec::new();
    let mut i: usize = 0;
    assert(op_pairs(ops@) =~= emitted(es.subrange(0, 0)));
    while i < n
        invariant
            m.wf(),
            n == es.len(),
            es == m.entries(),
            0 <= i <= n,
            op_pairs(ops@) == emitted(es.subrange(0, i as int)),
            forall|k: int| 0 <= k < ops@.len() ==> (#[trigger] ops@[k]).key@ == key@,
        decreases n - i,
    {
        let (field, vs) = m.entry(i);
        let ghost e = es[i as int];
        let ghost before = op_pairs(ops@);
        let mut j: usize = 0;
        while j < vs.len()
            invariant
                deep_view(vs@) == e.1,
                field@ == e.0,
                0 <= j <= vs@.len(),
                op_pairs(ops@) == before + entry_pairs(e).subrange(0, j as int),
                forall|k: int| 0 <= k < ops@.len() ==> (#[trigger] ops@[k]).key@ == key@,
            decreases vs@.len() - j,
        {
            let op = InsertOp {
                key: copy_bytes(key),
                field: copy_bytes(field.as_slice()),
                value: copy_bytes(vs[j].as_slice()),
            };
            let ghost prev = ops@;
            ops.push(op);
            proof {
                assert(op_pairs(ops@) =~= op_pairs(prev).push((e.0, e.1[j as int])));
                assert(entry_pairs(e).subrange(0, j + 1) =~= entry_pairs(e).subrange(0, j as int).push(
                    (e.0, e.1[j as int]),
                ));
            }
            j = j + 1;
            assert(op_pairs(ops@) =~= before + entry_pairs(e).subrange(0, j as int));
        }
        assert(entry_pairs(e).subrange(0, vs@.len() as int) =~= entry_pairs(e));
        assert(es.subrange(0, i + 1).drop_last() =~= es.subrange(0, i as int));
        i = i + 1;
    }
    assert(es.subrange(0, n as int) =~= es);
    ops
}

proof fn lemma_replay_concat(
    m: Map<Seq<u8>, Seq<Seq<u8>>>,
    a: Seq<(Seq<u8>, Seq<u8>)>,
    b: Seq<(Seq<u8>, Seq<u8>)>,
)
    ensures
        replay(m, a + b) == replay(replay(m, a), b),
    decreases b.len(),
{
    if b.len() == 0 {
        assert(a + b =~= a);
    } else {
        assert((a + b).drop_last() =~= a + b.drop_last());
        lemma_replay_concat(m, a, b.drop_last());
    }
}

proof fn lemma_replay_entry(m: Map<Seq<u8>, Seq<Seq<u8>>>, e: EntryView)
    ensures
        replay(m, entry_pairs(e)) == (if e.1.len() == 0 {
            m
        } else {
            appended(m, e.0, e.1)
        }),
    decreases e.1.len(),
{
    if e.1.len() > 0 {
        let d: EntryView = (e.0, e.1.drop_last());
        assert(entry_pairs(e).drop_last() =~= entry_pairs(d));
        lemma_replay_entry(m, d);
        let v = e.1.last();
        if d.1.len() == 0 {
            assert(seq![v] =~= e.1);
        } else {
            assert(values_or_empty(m, e.0) + d.1 + seq![v] =~= values_or_empty(m, e.0) + e.1);
            assert(appended(appended(m, e.0, d.1), e.0, seq![v]) =~= appended(m, e.0, e.1));
        }
    } else {
        assert(entry_pairs(e) =~= Seq::<(Seq<u8>, Seq<u8>)>::empty());
    }
}

proof fn lemma_replay_records(es: Seq<EntryView>)
    ensures
        replay(Map::empty(), emitted(es)) == records_map(es),
    decreases es.len(),
{
    if es.len() > 0 {
        lemma_replay_records(es.drop_last());
        lemma_replay_concat(Map::empty(), emitted(es.drop_last()), entry_pairs(es.last()));
        lemma_replay_entry(replay(Map::empty(), emitted(es.drop_last())), es.last());
    }
}

/// Replaying, from an empty map, one single-value insert per emitted (field, value)
/// pair, in the order emitted, rebuilds the map.
pub proof fn lemma_replay_rebuilds(m: &MultiMap)
    requires
        m.wf(),
    ensures
        replay(Map::empty(), emitted(m.entries())) == m@,
{
    let es = m.entries();
    m.lemma_entries();
    lemma_replay_records(es);
    lemma_records_map(es);
}

} // verus!
