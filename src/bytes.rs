use vstd::prelude::*;

verus! {

/// The views of a sequence of byte vectors.
pub open spec fn deep_view(v: Seq<Vec<u8>>) -> Seq<Seq<u8>> {
    v.map_values(|b: Vec<u8>| b@)
}

/// Whether two byte strings hold the same bytes.
pub fn bytes_equal(a: &[u8], b: &[u8]) -> (r: bool)
    ensures
        r == (a@ == b@),
{
    if a.len() != b.len() {
        return false;
    }
    let mut i: usize = 0;
    while i < a.len()
        invariant
            a@.len() == b@.len(),
            0 <= i <= a@.len(),
            forall|j: int| 0 <= j < i ==> a@[j] == b@[j],
        decreases a@.len() - i,
    {
        if a[i] != b[i] {
            return false;
        }
        i = i + 1;
    }
    assert(a@ =~= b@);
    true
}

/// A fresh vector holding the bytes of `s`.
pub fn copy_bytes(s: &[u8]) -> (r: Vec<u8>)
    ensures
        r@ == s@,
{
    let mut r: Vec<u8> = Vec::new();
    let mut i: usize = 0;
    while i < s.len()
        invariant
            0 <= i <= s@.len(),
            r@ == s@.subrange(0, i as int),
        decreases s@.len() - i,
    {
        r.push(s[i]);
        i = i + 1;
        assert(r@ =~= s@.subrange(0, i as int));
    }
    assert(r@ =~= s@);
    r
}

/// Appends a copy of each of `values`, in order, to `list`.
pub fn append_copies(list: &mut Vec<Vec<u8>>, values: &Vec<Vec<u8>>)
    ensures
        deep_view(final(list)@) == deep_view(old(list)@) + deep_view(values@),
{
    let ghost start = deep_view(list@);
    let mut j: usize = 0;
    while j < values.len()
        invariant
            0 <= j <= values@.len(),
            deep_view(list@) == start + deep_view(values@.subrange(0, j as int)),
        decreases values@.len() - j,
    {
        let ghost before = list@;
        list.push(copy_bytes(values[j].as_slice()));
        assert(deep_view(list@) =~= deep_view(before).push(values@[j as int]@));
        assert(deep_view(values@.subrange(0, j + 1)) =~= deep_view(values@.subrange(0, j as int)).push(
            values@[j as int]@,
        ));
        j = j + 1;
        assert(deep_view(list@) =~= start + deep_view(values@.subrange(0, j as int)));
    }
    assert(values@.subrange(0, values@.len() as int) =~= values@);
}

/// Appends the bytes of `s`, in order, to `out`.
pub fn append_bytes(out: &mut Vec<u8>, s: &[u8])
    ensures
        final(out)@ == old(out)@ + s@,
{
    let ghost start = out@;
    let mut i: usize = 0;
    while i < s.len()
        invariant
            0 <= i <= s@.len(),
            out@ == start + s@.subrange(0, i as int),
        decreases s@.len() - i,
    {
        out.push(s[i]);
        i = i + 1;
        assert(out@ =~= start + s@.subrange(0, i as int));
    }
    assert(s@.subrange(0, s@.len() as int) =~= s@);
}

/// A fresh vector holding the bytes of `s` from `lo` up to `hi`.
pub fn copy_range(s: &[u8], lo: usize, hi: usize) -> (r: Vec<u8>)
    requires
        lo <= hi <= s@.len(),
    ensures
        r@ == s@.subrange(lo as int, hi as int),
{
    let mut r: Vec<u8> = Vec::new();
    let mut i: usize = lo;
    while i < hi
        invariant
            lo <= i <= hi <= s@.len(),
            r@ == s@.subrange(lo as int, i as int),
        decreases hi - i,
    {
        r.push(s[i]);
        i = i + 1;
        assert(r@ =~= s@.subrange(lo as int, i as int));
    }
    r
}

} // verus!
