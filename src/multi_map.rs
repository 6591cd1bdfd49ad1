//! The container: a map from field names to ordered, appendable lists of values.
use vstd::prelude::*;

use crate::bytes::{append_copies, bytes_equal, deep_view};

verus! {

/// One field and its values, as plain sequences.
pub type EntryView = (Seq<u8>, Seq<Seq<u8>>);

/// Whether some entry of `e` is named `k`.
pub open spec fn has_field(e: Seq<EntryView>, k: Seq<u8>) -> bool {
    exists|i: int| 0 <= i < e.len() && (#[trigger] e[i]).0 == k
}

/// No two entries of `e` share a name.
pub open spec fn distinct_fields(e: Seq<EntryView>) -> bool {
    forall|i: int, j: int|
        0 <= i < e.len() && 0 <= j < e.len() && i != j ==> (#[trigger] e[i]).0 != (#[trigger] e[j]).0
}

/// The map that a list of entries with distinct names describes.
pub open spec fn map_of_entries(e: Seq<EntryView>) -> Map<Seq<u8>, Seq<Seq<u8>>> {
    Map::new(
        |k: Seq<u8>| has_field(e, k),
        |k: Seq<u8>| e[choose|i: int| 0 <= i < e.len() && (#[trigger] e[i]).0 == k].1,
    )
}

/// The values stored under `k` in `m`, empty where `k` is absent.
pub open spec fn values_or_empty(m: Map<Seq<u8>, Seq<Seq<u8>>>, k: Seq<u8>) -> Seq<Seq<u8>> {
    if m.contains_key(k) {
        m[k]
    } else {
        Seq::empty()
    }
}

/// The map after appending `vs` to the list of `k`, creating that list where absent.
pub open spec fn appended(m: Map<Seq<u8>, Seq<Seq<u8>>>, k: Seq<u8>, vs: Seq<Seq<u8>>) -> Map<
    Seq<u8>,
    Seq<Seq<u8>>,
> {
    m.insert(k, values_or_empty(m, k) + vs)
}

/// The map after inserting `vs` under `k`: unchanged where `vs` is empty, else `vs`
/// appended to the list of `k`.
pub open spec fn inserted(m: Map<Seq<u8>, Seq<Seq<u8>>>, k: Seq<u8>, vs: Seq<Seq<u8>>) -> Map<
    Seq<u8>,
    Seq<Seq<u8>>,
> {
    if vs.len() == 0 {
        m
    } else {
        appended(m, k, vs)
    }
}

/// Appending `x` and then `y` to the list of a field leaves the same map as appending
/// `x + y` at once; for a field that was absent, its list is then `x + y`.
pub proof fn lemma_insert_appends(
    m: Map<Seq<u8>, Seq<Seq<u8>>>,
    k: Seq<u8>,
    x: Seq<Seq<u8>>,
    y: Seq<Seq<u8>>,
)
    ensures
        appended(appended(m, k, x), k, y) == appended(m, k, x + y),
        !m.contains_key(k) ==> appended(appended(m, k, x), k, y)[k] == x + y,
        inserted(inserted(m, k, x), k, y) == inserted(m, k, x + y),
        !m.contains_key(k) && x.len() + y.len() > 0 ==> inserted(inserted(m, k, x), k, y)[k] == x
            + y,
{
    if x.len() == 0 {
        assert(x + y =~= y);
    }
    if y.len() == 0 {
        assert(x + y =~= x);
    }
    assert(values_or_empty(m, k) + x + y =~= values_or_empty(m, k) + (x + y));
    assert(appended(appended(m, k, x), k, y) =~= appended(m, k, x + y));
    if !m.contains_key(k) {
        assert(Seq::<Seq<u8>>::empty() + (x + y) =~= x + y);
    }
}

/// Deleting a field leaves it absent, and deleting an absent field changes nothing.
pub proof fn lemma_delete_field(m: Map<Seq<u8>, Seq<Seq<u8>>>, k: Seq<u8>)
    ensures
        !m.remove(k).contains_key(k),
        !m.contains_key(k) ==> m.remove(k) == m,
{
    if !m.contains_key(k) {
        assert(m.remove(k) =~= m);
    }
}

/// A map of byte-string fields to ordered lists of byte-string values. The entries are
/// kept in the order in which their fields were first inserted; that order is the
/// iteration order and is not part of the map's meaning.
#[derive(Clone, Debug)]
pub struct MultiMap {
    names: Vec<Vec<u8>>,
    lists: Vec<Vec<Vec<u8>>>,
}

impl MultiMap {
    /// The entries in iteration order.
    pub closed spec fn entries(&self) -> Seq<EntryView> {
        Seq::new(self.names@.len(), |i: int| (self.names@[i]@, deep_view(self.lists@[i]@)))
    }

    /// The map's well-formedness: one list per field, no field twice, and no empty list.
    pub closed spec fn wf(&self) -> bool {
        &&& self.names@.len() == self.lists@.len()
        &&& distinct_fields(self.entries())
        &&& forall|i: int| 0 <= i < self.lists@.len() ==> (#[trigger] self.lists@[i])@.len() > 0
    }

    /// New returns an empty map.
    pub fn new() -> (r: MultiMap)
        ensures
            r.wf(),
            r@ == Map::<Seq<u8>, Seq<Seq<u8>>>::empty(),
            r.entries().len() == 0,
    {
        let r = MultiMap { names: Vec::new(), lists: Vec::new() };
        assert(r@ =~= Map::<Seq<u8>, Seq<Seq<u8>>>::empty());
        r
    }

    /// The position of the entry named `key`, if any.
    fn find(&self, key: &[u8]) -> (r: Option<usize>)
        requires
            self.wf(),
        ensures
            r matches Some(i) ==> i < self.entries().len() && self.entries()[i as int].0 == key@,
            r is None ==> !has_field(self.entries(), key@),
    {
        let mut i: usize = 0;
        while i < self.names.len()
            invariant
                self.wf(),
                0 <= i <= self.names@.len(),
                forall|j: int| 0 <= j < i ==> (#[trigger] self.entries()[j]).0 != key@,
            decreases self.names@.len() - i,
        {
            if bytes_equal(self.names[i].as_slice(), key) {
                return Some(i);
            }
            i = i + 1;
        }
        None
    }

    proof fn lemma_lookup(&self, i: int)
        requires
            self.wf(),
            0 <= i < self.entries().len(),
        ensures
            self@.contains_key(self.entries()[i].0),
            self@[self.entries()[i].0] == self.entries()[i].1,
    {
        let e = self.entries();
        let k = e[i].0;
        assert(has_field(e, k));
        let j = choose|j: int| 0 <= j < e.len() && (#[trigger] e[j]).0 == k;
        assert(j == i);
    }

    /// Insert will append all `values`, in order, to the list of `key`, creating that
    /// list where the field is absent. With no values the map is left as it is: no field
    /// is ever held with an empty list.
    pub fn insert(&mut self, key: Vec<u8>, values: Vec<Vec<u8>>)
        requires
            old(self).wf(),
        ensures
            final(self).wf(),
            final(self)@ == inserted(old(self)@, key@, deep_view(values@)),
    {
        if values.len() == 0 {
            return;
        }
        let found = self.find(key.as_slice());
        match found {
            Some(i) => {
                proof {
                    self.lemma_lookup(i as int);
                }
                let ghost e0 = self.entries();
                let ghost m0 = self@;
                let mut list: Vec<Vec<u8>> = Vec::new();
                std::mem::swap(&mut self.lists[i], &mut list);
                append_copies(&mut list, &values);
                self.lists.set(i, list);
                assert forall|a: int| 0 <= a < self.lists@.len() implies (
                #[trigger] self.lists@[a])@.len() > 0 by {
                    if a == i {
                        assert(deep_view(self.lists@[a]@).len() == self.lists@[a]@.len());
                    } else {
                        assert(self.lists@[a] == old(self).lists@[a]);
                    }
                }
                let ghost e1 = self.entries();
                assert(e1 =~= e0.update(i as int, (key@, m0[key@] + deep_view(values@))));
                assert forall|a: int, b: int|
                    0 <= a < e1.len() && 0 <= b < e1.len() && a != b implies (#[trigger] e1[a]).0
                    != (#[trigger] e1[b]).0 by {
                    assert(e1[a].0 == e0[a].0);
                    assert(e1[b].0 == e0[b].0);
                }
                assert forall|k: Seq<u8>| #[trigger] has_field(e1, k) == has_field(e0, k) by {
                    if has_field(e0, k) {
                        let a = choose|a: int| 0 <= a < e0.len() && (#[trigger] e0[a]).0 == k;
                        assert(e1[a].0 == k);
                    }
                    if has_field(e1, k) {
                        let a = choose|a: int| 0 <= a < e1.len() && (#[trigger] e1[a]).0 == k;
                        assert(e0[a].0 == k);
                    }
                }
                assert forall|k: Seq<u8>| #[trigger] has_field(e1, k) implies self@[k]
                    == appended(m0, key@, deep_view(values@))[k] by {
                    let a = choose|a: int| 0 <= a < e1.len() && (#[trigger] e1[a]).0 == k;
                    self.lemma_lookup(a);
                    if a != i {
                        assert(e0[a] == e1[a]);
                    }
                }
                assert(self@ =~= appended(m0, key@, deep_view(values@)));
            },
            None => {
                let ghost e0 = self.entries();
                let ghost m0 = self@;
                let mut list: Vec<Vec<u8>> = Vec::new();
                append_copies(&mut list, &values);
                assert(deep_view(list@) =~= deep_view(values@));
                self.names.push(key);
                self.lists.push(list);
                assert forall|a: int| 0 <= a < self.lists@.len() implies (
                #[trigger] self.lists@[a])@.len() > 0 by {
                    if a < e0.len() {
                        assert(self.lists@[a] == old(self).lists@[a]);
                    } else {
                        assert(deep_view(self.lists@[a]@).len() == self.lists@[a]@.len());
                    }
                }
                let ghost e1 = self.entries();
                let ghost n = e0.len() as int;
                assert(e1 =~= e0.push((key@, deep_view(values@))));
                assert forall|k: Seq<u8>| #[trigger] has_field(e1, k) == (has_field(e0, k) || k
                    == key@) by {
                    if has_field(e0, k) {
                        let a = choose|a: int| 0 <= a < e0.len() && (#[trigger] e0[a]).0 == k;
                        assert(e1[a].0 == k);
                    }
                    if k == key@ {
                        assert(e1[n].0 == k);
                    }
                    if has_field(e1, k) && k != key@ {
                        let a = choose|a: int| 0 <= a < e1.len() && (#[trigger] e1[a]).0 == k;
                        assert(e0[a].0 == k);
                    }
                }
                assert forall|k: Seq<u8>| #[trigger] has_field(e1, k) implies self@[k]
                    == appended(m0, key@, deep_view(values@))[k] by {
                    let a = choose|a: int| 0 <= a < e1.len() && (#[trigger] e1[a]).0 == k;
                    self.lemma_lookup(a);
                    if a != n {
                        assert(e0[a] == e1[a]);
                        assert(has_field(e0, k));
                        let b = choose|b: int| 0 <= b < e0.len() && (#[trigger] e0[b]).0 == k;
                        assert(b == a) by {
                            assert(e1[b].0 == k);
                        }
                    }
                }
                assert(self@ =~= appended(m0, key@, deep_view(values@)));
            },
        }
    }

    /// Given a key, return the number of values stored under it, 0 where it is absent.
    pub fn key_len(&self, key: &[u8]) -> (r: usize)
        requires
            self.wf(),
        ensures
            r == values_or_empty(self@, key@).len(),
    {
        match self.find(key) {
            Some(i) => {
                proof {
                    self.lemma_lookup(i as int);
                }
                self.lists[i].len()
            },
            None => 0,
        }
    }

    /// Given a key, return its list of values, or `None` where the field is absent.
    pub fn values(&self, key: &[u8]) -> (r: Option<&Vec<Vec<u8>>>)
        requires
            self.wf(),
        ensures
            r is Some <==> self@.contains_key(key@),
            r matches Some(v) ==> deep_view(v@) == self@[key@],
    {
        match self.find(key) {
            Some(i) => {
                proof {
                    self.lemma_lookup(i as int);
                }
                Some(&self.lists[i])
            },
            None => None,
        }
    }

    /// Given a key, remove it and its values. The result is 1 where the field existed
    /// and 0 where it did not.
    pub fn delete_key(&mut self, key: &[u8]) -> (r: i64)
        requires
            old(self).wf(),
        ensures
            final(self).wf(),
            r == (if old(self)@.contains_key(key@) { 1i64 } else { 0i64 }),
            final(self)@ == old(self)@.remove(key@),
    {
        match self.find(key) {
            Some(i) => {
                proof {
                    self.lemma_lookup(i as int);
                }
                let ghost e0 = self.entries();
                let ghost m0 = self@;
                self.names.remove(i);
                self.lists.remove(i);
                let ghost e1 = self.entries();
                assert(e1 =~= e0.remove(i as int));
                assert forall|k: Seq<u8>| #[trigger] has_field(e1, k) == (has_field(e0, k) && k
                    != key@) by {
                    if has_field(e1, k) {
                        let a = choose|a: int| 0 <= a < e1.len() && (#[trigger] e1[a]).0 == k;
                        if a < i {
                            assert(e0[a].0 == k);
                        } else {
                            assert(e0[a + 1].0 == k);
                        }
                    }
                    if has_field(e0, k) && k != key@ {
                        let a = choose|a: int| 0 <= a < e0.len() && (#[trigger] e0[a]).0 == k;
                        if a < i {
                            assert(e1[a].0 == k);
                        } else {
                            assert(a != i);
                            assert(e1[a - 1].0 == k);
                        }
                    }
                }
                assert forall|k: Seq<u8>| #[trigger] has_field(e1, k) implies self@[k]
                    == m0[k] by {
                    let a = choose|a: int| 0 <= a < e1.len() && (#[trigger] e1[a]).0 == k;
                    self.lemma_lookup(a);
                    if a < i {
                        assert(e0[a] == e1[a]);
                        old(self).lemma_lookup(a);
                    } else {
                        assert(e0[a + 1] == e1[a]);
                        old(self).lemma_lookup(a + 1);
                    }
                }
                assert(self@ =~= m0.remove(key@));
                1
            },
            None => {
                assert(self@ =~= self@.remove(key@));
                0
            },
        }
    }

    /// Return the number of fields in the map.
    pub fn len(&self) -> (r: usize)
        requires
            self.wf(),
        ensures
            r == self.entries().len(),
            r == self@.dom().len(),
    {
        proof {
            self.lemma_len();
        }
        self.names.len()
    }

    /// The number of fields is the number of entries.
    pub proof fn lemma_len(&self)
        requires
            self.wf(),
        ensures
            self@.dom().len() == self.entries().len(),
    {
        let e = self.entries();
        let names = e.map_values(|p: EntryView| p.0);
        assert(names.no_duplicates()) by {
            assert forall|a: int, b: int|
                0 <= a < names.len() && 0 <= b < names.len() && a != b implies names[a]
                != names[b] by {
                assert(e[a].0 != e[b].0);
            }
        }
        assert(self@.dom() =~= names.to_set()) by {
            assert forall|k: Seq<u8>| #[trigger] self@.dom().contains(k) <==> names.to_set().contains(k) by {
                if self@.dom().contains(k) {
                    let a = choose|a: int| 0 <= a < e.len() && (#[trigger] e[a]).0 == k;
                    assert(names[a] == k);
                }
                if names.to_set().contains(k) {
                    let a = choose|a: int| 0 <= a < names.len() && names[a] == k;
                    assert(e[a].0 == k);
                }
            }
        }
        names.unique_seq_to_set();
    }

    /// The field name and the values of the `i`-th entry in iteration order.
    pub fn entry(&self, i: usize) -> (r: (&Vec<u8>, &Vec<Vec<u8>>))
        requires
            self.wf(),
            i < self.entries().len(),
        ensures
            r.0@ == self.entries()[i as int].0,
            deep_view(r.1@) == self.entries()[i as int].1,
    {
        (&self.names[i], &self.lists[i])
    }

    /// The entries list every field of the map once, with its values.
    pub proof fn lemma_entries(&self)
        requires
            self.wf(),
        ensures
            distinct_fields(self.entries()),
            self@ == map_of_entries(self.entries()),
            forall|k: Seq<u8>| #[trigger] self@.contains_key(k) <==> has_field(self.entries(), k),
            forall|i: int|
                0 <= i < self.entries().len() ==> self@.contains_key(#[trigger] self.entries()[i].0)
                    && self@[self.entries()[i].0] == self.entries()[i].1,
            forall|i: int| 0 <= i < self.entries().len() ==> (#[trigger] self.entries()[i]).1.len() > 0,
            forall|k: Seq<u8>| #[trigger] self@.contains_key(k) ==> self@[k].len() > 0,
    {
        assert forall|i: int| 0 <= i < self.entries().len() implies (
        #[trigger] self.entries()[i]).1.len() > 0 by {
            assert(self.lists@[i]@.len() > 0);
        }
        assert forall|k: Seq<u8>| #[trigger] self@.contains_key(k) implies self@[k].len() > 0 by {
            let a = choose|a: int| 0 <= a < self.entries().len() && (#[trigger] self.entries()[a]).0 == k;
            self.lemma_lookup(a);
        }
        assert forall|i: int| 0 <= i < self.entries().len() implies self@.contains_key(
            #[trigger] self.entries()[i].0,
        ) && self@[self.entries()[i].0] == self.entries()[i].1 by {
            self.lemma_lookup(i);
        }
    }
}

impl Default for MultiMap {
    fn default() -> (r: MultiMap)
        ensures
            r.wf(),
            r@ == Map::<Seq<u8>, Seq<Seq<u8>>>::empty(),
    {
        MultiMap::new()
    }
}

impl View for MultiMap {
    type V = Map<Seq<u8>, Seq<Seq<u8>>>;

    closed spec fn view(&self) -> Self::V {
        map_of_entries(self.entries())
    }
}

} // verus!
