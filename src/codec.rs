//! The snapshot codec. A snapshot is a little-endian `u64` field count, then for each
//! field its name as a string record, a `u64` value count, and each value as a string
//! record. A string record is a `u64` length equal to the byte length plus one, the
//! bytes, and a zero terminator byte.
use vstd::prelude::*;

use crate::bytes::{append_bytes, copy_bytes, copy_range, deep_view};
use crate::multi_map::{
    appended, distinct_fields, has_field, map_of_entries, values_or_empty, EntryView, MultiMap,
};

verus! {

/// The eight little-endian bytes of `n`.
pub open spec fn le8(n: u64) -> Seq<u8> {
    seq![
        n as u8,
        (n >> 8u64) as u8,
        (n >> 16u64) as u8,
        (n >> 24u64) as u8,
        (n >> 32u64) as u8,
        (n >> 40u64) as u8,
        (n >> 48u64) as u8,
        (n >> 56u64) as u8,
    ]
}

/// The number whose little-endian bytes are the first eight of `b`.
pub open spec fn from_le8(b: Seq<u8>) -> u64
    recommends
        b.len() >= 8,
{
    (b[0] as u64) | ((b[1] as u64) << 8u64) | ((b[2] as u64) << 16u64) | ((b[3] as u64) << 24u64)
        | ((b[4] as u64) << 32u64) | ((b[5] as u64) << 40u64) | ((b[6] as u64) << 48u64) | ((
    b[7] as u64) << 56u64)
}

/// The string record of `x`.
pub open spec fn encode_str(x: Seq<u8>) -> Seq<u8> {
    le8((x.len() + 1) as u64) + x + seq![0u8]
}

/// The parts written one after another.
pub open spec fn join(parts: Seq<Seq<u8>>) -> Seq<u8>
    decreases parts.len(),
{
    if parts.len() == 0 {
        Seq::empty()
    } else {
        parts[0] + join(parts.drop_first())
    }
}

/// The string records of `vs`, in order.
pub open spec fn encode_values(vs: Seq<Seq<u8>>) -> Seq<u8> {
    join(vs.map_values(|v: Seq<u8>| encode_str(v)))
}

/// The record of one field: its name, its value count and its values.
pub open spec fn encode_entry(e: EntryView) -> Seq<u8> {
    encode_str(e.0) + le8(e.1.len() as u64) + encode_values(e.1)
}

/// The snapshot of a list of entries, written in that order.
pub open spec fn encode_snapshot(es: Seq<EntryView>) -> Seq<u8> {
    le8(es.len() as u64) + join(es.map_values(|e: EntryView| encode_entry(e)))
}

/// Every length that a snapshot of `m` writes fits its `u64` slot.
pub open spec fn snapshot_fits(m: Map<Seq<u8>, Seq<Seq<u8>>>) -> bool {
    &&& m.dom().len() <= u64::MAX
    &&& forall|k: Seq<u8>|
        #[trigger] m.contains_key(k) ==> k.len() < u64::MAX && m[k].len() <= u64::MAX && forall|
            j: int,
        | 0 <= j < m[k].len() ==> (#[trigger] m[k][j]).len() < u64::MAX
}

/// A `u64` read at `pos`, with the position after it.
pub open spec fn read_u64(s: Seq<u8>, pos: int) -> Option<(u64, int)> {
    if 0 <= pos && pos + 8 <= s.len() {
        Some((from_le8(s.subrange(pos, pos + 8)), pos + 8))
    } else {
        None
    }
}

/// A string record read at `pos`, with the position after it.
pub open spec fn read_str(s: Seq<u8>, pos: int) -> Option<(Seq<u8>, int)> {
    match read_u64(s, pos) {
        Some((n, p)) => if 1 <= n && p + n <= s.len() && s[p + n - 1] == 0 {
            Some((s.subrange(p, p + n - 1), p + n))
        } else {
            None
        },
        None => None,
    }
}

/// `count` string records read from `pos` on, with the position after them.
pub open spec fn read_values(s: Seq<u8>, pos: int, count: nat) -> Option<(Seq<Seq<u8>>, int)>
    decreases count,
{
    if count == 0 {
        Some((Seq::empty(), pos))
    } else {
        match read_str(s, pos) {
            Some((v, p)) => match read_values(s, p, (count - 1) as nat) {
                Some((vs, q)) => Some((seq![v] + vs, q)),
                None => None,
            },
            None => None,
        }
    }
}

/// One field record read at `pos`, with the position after it.
pub open spec fn read_entry(s: Seq<u8>, pos: int) -> Option<(EntryView, int)> {
    match read_str(s, pos) {
        Some((k, p)) => match read_u64(s, p) {
            Some((n, q)) => match read_values(s, q, n as nat) {
                Some((vs, r)) => Some(((k, vs), r)),
                None => None,
            },
            None => None,
        },
        None => None,
    }
}

/// `count` field records read from `pos` on, with the position after them.
pub open spec fn read_entries(s: Seq<u8>, pos: int, count: nat) -> Option<(Seq<EntryView>, int)>
    decreases count,
{
    if count == 0 {
        Some((Seq::empty(), pos))
    } else {
        match read_entry(s, pos) {
            Some((e, p)) => match read_entries(s, p, (count - 1) as nat) {
                Some((es, q)) => Some((seq![e] + es, q)),
                None => None,
            },
            None => None,
        }
    }
}

/// The field records of a whole snapshot, or `None` where `s` is not one: too short,
/// a record without its terminator, or bytes left over.
pub open spec fn parse_snapshot(s: Seq<u8>) -> Option<Seq<EntryView>> {
    match read_u64(s, 0) {
        Some((n, p)) => match read_entries(s, p, n as nat) {
            Some((es, q)) => if q == s.len() {
                Some(es)
            } else {
                None
            },
            None => None,
        },
        None => None,
    }
}

/// The map that inserting each value of each record, one at a time and in order, builds
/// from an empty map.
pub open spec fn records_map(es: Seq<EntryView>) -> Map<Seq<u8>, Seq<Seq<u8>>>
    decreases es.len(),
{
    if es.len() == 0 {
        Map::empty()
    } else {
        let m = records_map(es.drop_last());
        let e = es.last();
        if e.1.len() == 0 {
            m
        } else {
            appended(m, e.0, e.1)
        }
    }
}

pub proof fn lemma_le8(n: u64)
    ensures
        le8(n).len() == 8,
        from_le8(le8(n)) == n,
{
    assert((((n as u8) as u64) | ((((n >> 8u64) as u8) as u64) << 8u64) | ((((n >> 16u64) as u8) as u64)
        << 16u64) | ((((n >> 24u64) as u8) as u64) << 24u64) | ((((n >> 32u64) as u8) as u64) << 32u64)
        | ((((n >> 40u64) as u8) as u64) << 40u64) | ((((n >> 48u64) as u8) as u64) << 48u64) | ((((n
        >> 56u64) as u8) as u64) << 56u64)) == n) by (bit_vector);
}

proof fn lemma_join_push(parts: Seq<Seq<u8>>, x: Seq<u8>)
    ensures
        join(parts.push(x)) == join(parts) + x,
    decreases parts.len(),
{
    if parts.len() == 0 {
        assert(parts.push(x).drop_first() =~= Seq::<Seq<u8>>::empty());
        assert(parts.push(x)[0] == x);
        assert(join(parts.push(x).drop_first()) == Seq::<u8>::empty());
        assert(join(parts.push(x)) =~= x);
    } else {
        assert(parts.push(x).drop_first() =~= parts.drop_first().push(x));
        lemma_join_push(parts.drop_first(), x);
        assert(join(parts.push(x)) =~= join(parts) + x);
    }
}

fn push_u64(out: &mut Vec<u8>, n: u64)
    ensures
        final(out)@ == old(out)@ + le8(n),
{
    let ghost start = out@;
    out.push(n as u8);
    out.push((n >> 8) as u8);
    out.push((n >> 16) as u8);
    out.push((n >> 24) as u8);
    out.push((n >> 32) as u8);
    out.push((n >> 40) as u8);
    out.push((n >> 48) as u8);
    out.push((n >> 56) as u8);
    assert(out@ =~= start + le8(n));
}

fn push_str(out: &mut Vec<u8>, x: &[u8])
    requires
        x@.len() < u64::MAX,
    ensures
        final(out)@ == old(out)@ + encode_str(x@),
{
    let ghost start = out@;
    push_u64(out, x.len() as u64 + 1);
    append_bytes(out, x);
    out.push(0);
    assert(out@ =~= start + encode_str(x@));
}

fn values_fit(vs: &Vec<Vec<u8>>) -> (r: bool)
    ensures
        r == forall|j: int| 0 <= j < vs@.len() ==> (#[trigger] vs@[j])@.len() < u64::MAX,
{
    let mut j: usize = 0;
    while j < vs.len()
        invariant
            0 <= j <= vs@.len(),
            forall|b: int| 0 <= b < j ==> (#[trigger] vs@[b])@.len() < u64::MAX,
        decreases vs@.len() - j,
    {
        if vs[j].len() as u64 == u64::MAX {
            return false;
        }
        j = j + 1;
    }
    true
}

/// Whether every length that a snapshot of `m` writes fits its `u64` slot, which is what
/// `save` asks of its map.
pub fn fits_snapshot(m: &MultiMap) -> (r: bool)
    requires
        m.wf(),
    ensures
        r == snapshot_fits(m@),
{
    proof {
        m.lemma_entries();
        m.lemma_len();
    }
    let n = m.len();
    let ghost es = m.entries();
    let mut i: usize = 0;
    while i < n
        invariant
            m.wf(),
            n == es.len(),
            es == m.entries(),
            0 <= i <= n,
            forall|k: int|
                0 <= k < es.len() ==> m@.contains_key(#[trigger] es[k].0) && m@[es[k].0] == es[k].1,
            forall|a: int|
                0 <= a < i ==> (#[trigger] es[a]).0.len() < u64::MAX && es[a].1.len() <= u64::MAX
                    && forall|j: int|
                    0 <= j < es[a].1.len() ==> (#[trigger] es[a].1[j]).len() < u64::MAX,
        decreases n - i,
    {
        let (k, vs) = m.entry(i);
        if k.len() as u64 == u64::MAX {
            assert(m@.contains_key(es[i as int].0));
            return false;
        }
        if !values_fit(vs) {
            proof {
                let key = es[i as int].0;
                assert(m@.contains_key(key));
                let j = choose|j: int| 0 <= j < vs@.len() && vs@[j]@.len() >= u64::MAX;
                assert(m@[key][j] == vs@[j]@);
            }
            return false;
        }
        let count = vs.len();
        assert(count as int == es[i as int].1.len());
        i = i + 1;
    }
    assert forall|k: Seq<u8>| #[trigger] m@.contains_key(k) implies k.len() < u64::MAX && m@[k].len()
        <= u64::MAX && forall|j: int| 0 <= j < m@[k].len() ==> (#[trigger] m@[k][j]).len()
        < u64::MAX by {
        let a = choose|a: int| 0 <= a < es.len() && (#[trigger] es[a]).0 == k;
        assert(m@[k] == es[a].1);
        assert(es[a].1.len() <= u64::MAX);
    }
    true
}

/// Writes the snapshot of `m`: its fields in iteration order, each with its values in
/// order.
pub fn save(m: &MultiMap) -> (r: Vec<u8>)
    requires
        m.wf(),
        snapshot_fits(m@),
    ensures
        r@ == encode_snapshot(m.entries()),
{
    proof {
        m.lemma_entries();
    }
    let n = m.len();
    let ghost es = m.entries();
    let ghost parts = es.map_values(|e: EntryView| encode_entry(e));
    let mut out: Vec<u8> = Vec::new();
    push_u64(&mut out, n as u64);
    let mut i: usize = 0;
    while i < n
        invariant
            m.wf(),
            n == es.len(),
            es == m.entries(),
            parts == es.map_values(|e: EntryView| encode_entry(e)),
            snapshot_fits(m@),
            forall|k: int|
                0 <= k < es.len() ==> m@.contains_key(#[trigger] es[k].0) && m@[es[k].0] == es[k].1,
            0 <= i <= n,
            out@ == le8(n as u64) + join(parts.subrange(0, i as int)),
        decreases n - i,
    {
        let (k, vs) = m.entry(i);
        let ghost e = es[i as int];
        let ghost before = out@;
        let ghost vparts = e.1.map_values(|v: Seq<u8>| encode_str(v));
        push_str(&mut out, k.as_slice());
        push_u64(&mut out, vs.len() as u64);
        let ghost head = out@;
        let mut j: usize = 0;
        while j < vs.len()
            invariant
                deep_view(vs@) == e.1,
                vparts == e.1.map_values(|v: Seq<u8>| encode_str(v)),
                snapshot_fits(m@),
                m@.contains_key(e.0),
                m@[e.0] == e.1,
                0 <= j <= vs@.len(),
                out@ == head + join(vparts.subrange(0, j as int)),
            decreases vs@.len() - j,
        {
            assert(vs@[j as int]@ == m@[e.0][j as int]);
            push_str(&mut out, vs[j].as_slice());
            proof {
                lemma_join_push(vparts.subrange(0, j as int), vparts[j as int]);
                assert(vparts.subrange(0, j + 1) =~= vparts.subrange(0, j as int).push(vparts[j as int]));
            }
            j = j + 1;
            assert(out@ =~= head + join(vparts.subrange(0, j as int)));
        }
        proof {
            assert(vparts.subrange(0, vs@.len() as int) =~= vparts);
            assert(out@ =~= before + encode_entry(e));
            lemma_join_push(parts.subrange(0, i as int), parts[i as int]);
            assert(parts.subrange(0, i + 1) =~= parts.subrange(0, i as int).push(parts[i as int]));
        }
        i = i + 1;
        assert(out@ =~= le8(n as u64) + join(parts.subrange(0, i as int)));
    }
    assert(parts.subrange(0, n as int) =~= parts);
    out
}

fn read_u64_at(s: &[u8], pos: usize) -> (r: Option<(u64, usize)>)
    ensures
        r matches Some((n, p)) ==> read_u64(s@, pos as int) == Some((n, p as int)) && p <= s@.len(),
        r is None ==> read_u64(s@, pos as int) is None,
{
    if pos > s.len() || s.len() - pos < 8 {
        return None;
    }
    let ghost b = s@.subrange(pos as int, pos + 8);
    let n: u64 = (s[pos] as u64) | ((s[pos + 1] as u64) << 8) | ((s[pos + 2] as u64) << 16) | ((
    s[pos + 3] as u64) << 24) | ((s[pos + 4] as u64) << 32) | ((s[pos + 5] as u64) << 40) | ((s[pos
        + 6] as u64) << 48) | ((s[pos + 7] as u64) << 56);
    assert(b[0] == s@[pos as int] && b[1] == s@[pos + 1] && b[2] == s@[pos + 2] && b[3] == s@[pos
        + 3] && b[4] == s@[pos + 4] && b[5] == s@[pos + 5] && b[6] == s@[pos + 6] && b[7] == s@[pos
        + 7]);
    Some((n, pos + 8))
}

fn read_str_at(s: &[u8], pos: usize) -> (r: Option<(Vec<u8>, usize)>)
    ensures
        r matches Some((v, p)) ==> read_str(s@, pos as int) == Some((v@, p as int)) && p <= s@.len(),
        r is None ==> read_str(s@, pos as int) is None,
{
    match read_u64_at(s, pos) {
        None => None,
        Some((n, p)) => {
            if n < 1 || n > (s.len() - p) as u64 {
                return None;
            }
            let end = p + n as usize;
            if s[end - 1] != 0 {
                return None;
            }
            Some((copy_range(s, p, end - 1), end))
        },
    }
}

/// Reads a snapshot back: for each field record, each value is inserted on its own, in
/// the order read. Returns `None` where `s` is not a whole snapshot.
pub fn load(s: &[u8]) -> (r: Option<MultiMap>)
    ensures
        r is Some <==> parse_snapshot(s@) is Some,
        r matches Some(m) ==> m.wf() && m@ == records_map(parse_snapshot(s@)->0),
{
    let (count, start) = match read_u64_at(s, 0) {
        Some(x) => x,
        None => {
            return None;
        },
    };
    let ghost total = read_entries(s@, start as int, count as nat);
    let mut m = MultiMap::new();
    let mut pos: usize = start;
    let ghost mut done: Seq<EntryView> = Seq::empty();
    let mut i: u64 = 0;
    assert(records_map(done) =~= m@);
    while i < count
        invariant
            m.wf(),
            i <= count,
            read_u64(s@, 0) == Some((count, start as int)),
            total == read_entries(s@, start as int, count as nat),
            pos <= s@.len(),
            m@ == records_map(done),
            read_entries(s@, pos as int, (count - i) as nat) matches Some((rest, q)) ==> total
                == Some((done + rest, q)),
            read_entries(s@, pos as int, (count - i) as nat) is None ==> total is None,
        decreases count - i,
    {
        let ghost left = (count - i) as nat;
        let (k, p1) = match read_str_at(s, pos) {
            Some(x) => x,
            None => {
                return None;
            },
        };
        let (nv, p2) = match read_u64_at(s, p1) {
            Some(x) => x,
            None => {
                return None;
            },
        };
        let ghost vtotal = read_values(s@, p2 as int, nv as nat);
        let ghost m0 = m@;
        let ghost mut vdone: Seq<Seq<u8>> = Seq::empty();
        let mut vpos: usize = p2;
        let mut j: u64 = 0;
        while j < nv
            invariant
                m.wf(),
                j <= nv,
                vpos <= s@.len(),
                vtotal == read_values(s@, p2 as int, nv as nat),
                read_u64(s@, 0) == Some((count, start as int)),
                total == read_entries(s@, start as int, count as nat),
                read_str(s@, pos as int) == Some((k@, p1 as int)),
                read_u64(s@, p1 as int) == Some((nv, p2 as int)),
                left > 0,
                read_entries(s@, pos as int, left) is None ==> total is None,
                vdone.len() == j,
                m@ == (if j == 0 {
                    m0
                } else {
                    appended(m0, k@, vdone)
                }),
                read_values(s@, vpos as int, (nv - j) as nat) matches Some((rest, q)) ==> vtotal
                    == Some((vdone + rest, q)),
                read_values(s@, vpos as int, (nv - j) as nat) is None ==> vtotal is None,
            decreases nv - j,
        {
            let (v, p3) = match read_str_at(s, vpos) {
                Some(x) => x,
                None => {
                    return None;
                },
            };
            let ghost prev = m@;
            let ghost vv = v@;
            let single: Vec<Vec<u8>> = vec![v];
            let ghost one = seq![vv];
            assert(deep_view(single@) =~= one);
            m.insert(copy_bytes(k.as_slice()), single);
            proof {
                assert(m@ == appended(prev, k@, one));
                if j == 0 {
                    assert(vdone.push(vv) =~= one);
                    assert(values_or_empty(m0, k@) + one =~= values_or_empty(m0, k@) + vdone.push(vv));
                } else {
                    assert(values_or_empty(prev, k@) == values_or_empty(m0, k@) + vdone);
                    assert(values_or_empty(m0, k@) + vdone + one =~= values_or_empty(m0, k@) + vdone.push(vv));
                    assert(prev.contains_key(k@));
                    assert(m@ =~= appended(m0, k@, vdone.push(vv)));
                }
                match read_values(s@, p3 as int, (nv - j - 1) as nat) {
                    Some((rest, q)) => {
                        assert(vdone.push(vv) + rest =~= vdone + (seq![vv] + rest));
                    },
                    None => {},
                }
                vdone = vdone.push(vv);
            }
            vpos = p3;
            j = j + 1;
        }
        proof {
            let e = (k@, vdone);
            assert(read_values(s@, p2 as int, nv as nat) == Some((vdone, vpos as int)));
            assert(read_entry(s@, pos as int) == Some((e, vpos as int)));
            assert(done.push(e).drop_last() =~= done);
            match read_entries(s@, vpos as int, (left - 1) as nat) {
                Some((rest, q)) => {
                    assert(done.push(e) + rest =~= done + (seq![e] + rest));
                },
                None => {},
            }
            done = done.push(e);
        }
        pos = vpos;
        i = i + 1;
    }
    if pos != s.len() {
        return None;
    }
    Some(m)
}

/// The bytes of `s` from `pos` on begin with `t`.
pub open spec fn holds_at(s: Seq<u8>, pos: int, t: Seq<u8>) -> bool {
    0 <= pos && pos + t.len() <= s.len() && s.subrange(pos, pos + t.len()) == t
}

proof fn lemma_split(s: Seq<u8>, pos: int, a: Seq<u8>, b: Seq<u8>)
    requires
        holds_at(s, pos, a + b),
    ensures
        holds_at(s, pos, a),
        holds_at(s, pos + a.len(), b),
{
    assert(s.subrange(pos, pos + a.len()) =~= (a + b).subrange(0, a.len() as int));
    assert((a + b).subrange(0, a.len() as int) =~= a);
    assert(s.subrange(pos + a.len(), pos + a.len() + b.len()) =~= (a + b).subrange(
        a.len() as int,
        (a.len() + b.len()) as int,
    ));
    assert((a + b).subrange(a.len() as int, (a.len() + b.len()) as int) =~= b);
}

proof fn lemma_read_u64(s: Seq<u8>, pos: int, n: u64)
    requires
        holds_at(s, pos, le8(n)),
    ensures
        read_u64(s, pos) == Some((n, pos + 8)),
{
    lemma_le8(n);
}

proof fn lemma_read_str(s: Seq<u8>, pos: int, x: Seq<u8>)
    requires
        holds_at(s, pos, encode_str(x)),
        x.len() < u64::MAX,
    ensures
        read_str(s, pos) == Some((x, pos + encode_str(x).len())),
{
    let n = (x.len() + 1) as u64;
    lemma_split(s, pos, le8(n) + x, seq![0u8]);
    lemma_split(s, pos, le8(n), x);
    lemma_read_u64(s, pos, n);
    lemma_le8(n);
    assert(s.subrange(pos + 8 + x.len(), pos + 9 + x.len())[0] == 0u8);
}

proof fn lemma_read_values(s: Seq<u8>, pos: int, vs: Seq<Seq<u8>>)
    requires
        holds_at(s, pos, encode_values(vs)),
        forall|j: int| 0 <= j < vs.len() ==> (#[trigger] vs[j]).len() < u64::MAX,
    ensures
        read_values(s, pos, vs.len()) == Some((vs, pos + encode_values(vs).len())),
    decreases vs.len(),
{
    if vs.len() > 0 {
        let parts = vs.map_values(|v: Seq<u8>| encode_str(v));
        assert(parts.drop_first() =~= vs.drop_first().map_values(|v: Seq<u8>| encode_str(v)));
        assert(encode_values(vs) == encode_str(vs[0]) + encode_values(vs.drop_first()));
        lemma_split(s, pos, encode_str(vs[0]), encode_values(vs.drop_first()));
        lemma_read_str(s, pos, vs[0]);
        assert forall|j: int| 0 <= j < vs.drop_first().len() implies (
        #[trigger] vs.drop_first()[j]).len() < u64::MAX by {
            assert(vs.drop_first()[j] == vs[j + 1]);
        }
        lemma_read_values(s, pos + encode_str(vs[0]).len(), vs.drop_first());
        assert(seq![vs[0]] + vs.drop_first() =~= vs);
    } else {
        assert(encode_values(vs) == Seq::<u8>::empty());
    }
}

/// Every field and value of `es` fits the lengths a snapshot writes.
pub open spec fn entries_fit(es: Seq<EntryView>) -> bool {
    forall|i: int|
        0 <= i < es.len() ==> (#[trigger] es[i]).0.len() < u64::MAX && es[i].1.len() <= u64::MAX
            && forall|j: int| 0 <= j < es[i].1.len() ==> (#[trigger] es[i].1[j]).len() < u64::MAX
}

proof fn lemma_read_entries(s: Seq<u8>, pos: int, es: Seq<EntryView>)
    requires
        holds_at(s, pos, join(es.map_values(|e: EntryView| encode_entry(e)))),
        entries_fit(es),
    ensures
        read_entries(s, pos, es.len()) == Some(
            (es, pos + join(es.map_values(|e: EntryView| encode_entry(e))).len()),
        ),
    decreases es.len(),
{
    let parts = es.map_values(|e: EntryView| encode_entry(e));
    if es.len() > 0 {
        let e = es[0];
        let rest = es.drop_first();
        assert(parts.drop_first() =~= rest.map_values(|e: EntryView| encode_entry(e)));
        assert(join(parts) == encode_entry(e) + join(parts.drop_first()));
        lemma_split(s, pos, encode_entry(e), join(parts.drop_first()));
        lemma_split(s, pos, encode_str(e.0) + le8(e.1.len() as u64), encode_values(e.1));
        lemma_split(s, pos, encode_str(e.0), le8(e.1.len() as u64));
        lemma_read_str(s, pos, e.0);
        lemma_read_u64(s, pos + encode_str(e.0).len(), e.1.len() as u64);
        lemma_le8(e.1.len() as u64);
        lemma_read_values(s, pos + encode_str(e.0).len() + 8, e.1);
        assert(read_entry(s, pos) == Some((e, pos + encode_entry(e).len())));
        assert(entries_fit(rest)) by {
            assert forall|i: int| 0 <= i < rest.len() implies rest[i] == es[i + 1] by {}
        }
        lemma_read_entries(s, pos + encode_entry(e).len(), rest);
        assert(seq![e] + rest =~= es);
    } else {
        assert(join(parts) == Seq::<u8>::empty());
    }
}

pub(crate) proof fn lemma_records_map(es: Seq<EntryView>)
    requires
        distinct_fields(es),
        forall|i: int| 0 <= i < es.len() ==> (#[trigger] es[i]).1.len() > 0,
    ensures
        records_map(es) == map_of_entries(es),
    decreases es.len(),
{
    if es.len() == 0 {
        assert(map_of_entries(es) =~= Map::<Seq<u8>, Seq<Seq<u8>>>::empty());
    } else {
        let d = es.drop_last();
        let n = es.len() - 1;
        let e = es.last();
        assert forall|i: int| 0 <= i < d.len() implies #[trigger] d[i] == es[i] by {}
        lemma_records_map(d);
        let md = map_of_entries(d);
        assert(!md.contains_key(e.0)) by {
            if has_field(d, e.0) {
                let a = choose|a: int| 0 <= a < d.len() && (#[trigger] d[a]).0 == e.0;
                assert(es[a].0 == es[n].0);
            }
        }
        assert forall|k: Seq<u8>| #[trigger] has_field(es, k) == (has_field(d, k) || k == e.0) by {
            if has_field(d, k) {
                let a = choose|a: int| 0 <= a < d.len() && (#[trigger] d[a]).0 == k;
                assert(es[a].0 == k);
            }
            if k == e.0 {
                assert(es[n].0 == k);
            }
            if has_field(es, k) && k != e.0 {
                let a = choose|a: int| 0 <= a < es.len() && (#[trigger] es[a]).0 == k;
                assert(d[a].0 == k);
            }
        }
        let me = map_of_entries(es);
        assert forall|k: Seq<u8>| #[trigger] me.contains_key(k) implies me[k] == md.insert(e.0, e.1)[k] by {
            let a = choose|a: int| 0 <= a < es.len() && (#[trigger] es[a]).0 == k;
            if k == e.0 {
                assert(a == n);
            } else {
                assert(d[a].0 == k);
                let b = choose|b: int| 0 <= b < d.len() && (#[trigger] d[b]).0 == k;
                assert(es[b].0 == k);
                assert(a == b);
            }
        }
        assert(values_or_empty(md, e.0) + e.1 =~= e.1);
        assert(me =~= md.insert(e.0, e.1));
    }
}

/// Reading back the snapshot that `save` writes for a map gives its entries, and
/// inserting their values one at a time rebuilds the same map: the same fields, the same
/// values under each, in the same order, and so the same number of fields.
pub proof fn lemma_snapshot_round_trip(m: &MultiMap)
    requires
        m.wf(),
        snapshot_fits(m@),
    ensures
        parse_snapshot(encode_snapshot(m.entries())) == Some(m.entries()),
        records_map(m.entries()) == m@,
{
    let es = m.entries();
    m.lemma_entries();
    m.lemma_len();
    assert(entries_fit(es)) by {
        assert forall|i: int| 0 <= i < es.len() implies (#[trigger] es[i]).0.len() < u64::MAX
            && es[i].1.len() <= u64::MAX && forall|j: int|
            0 <= j < es[i].1.len() ==> (#[trigger] es[i].1[j]).len() < u64::MAX by {
            assert(m@.contains_key(es[i].0));
        }
    }
    let s = encode_snapshot(es);
    let body = join(es.map_values(|e: EntryView| encode_entry(e)));
    assert(s.subrange(0, s.len() as int) =~= s);
    lemma_split(s, 0, le8(es.len() as u64), body);
    lemma_read_u64(s, 0, es.len() as u64);
    lemma_le8(es.len() as u64);
    lemma_read_entries(s, 8, es);
    lemma_records_map(es);
}

} // verus!
