//! An in-memory byte store partitioned by column, written through atomic
//! changesets.

use crate::column::Column;
use crate::order::{lemma_lex_asym, lemma_lex_total, lemma_lex_trans, lex_less, lex_lt};
use vstd::prelude::*;

verus! {

/// The raw key of a store: a column and the bytes of a key in it.
pub type RawKey = (Column, Seq<u8>);

/// One stored pair.
pub struct Entry {
    pub column: Column,
    pub key: Vec<u8>,
    pub value: Vec<u8>,
}

pub open spec fn entry_key(e: Entry) -> RawKey {
    (e.column, e.key@)
}

/// No two entries share a raw key.
pub open spec fn unique_keys(s: Seq<Entry>) -> bool {
    forall|i: int, j: int|
        0 <= i < s.len() && 0 <= j < s.len() && i != j ==> entry_key(#[trigger] s[i])
            != entry_key(#[trigger] s[j])
}

/// The map that a sequence of entries spells (a later entry wins).
pub open spec fn map_of(s: Seq<Entry>) -> Map<RawKey, Seq<u8>>
    decreases s.len(),
{
    if s.len() == 0 {
        Map::empty()
    } else {
        map_of(s.drop_last()).insert(entry_key(s.last()), s.last().value@)
    }
}

pub proof fn lemma_map_of_domain(s: Seq<Entry>, k: RawKey)
    ensures
        map_of(s).contains_key(k) <==> exists|i: int| 0 <= i < s.len() && entry_key(s[i]) == k,
    decreases s.len(),
{
    if s.len() > 0 {
        lemma_map_of_domain(s.drop_last(), k);
        if map_of(s.drop_last()).contains_key(k) {
            let i = choose|i: int| 0 <= i < s.drop_last().len() && entry_key(s.drop_last()[i]) == k;
            assert(entry_key(s[i]) == k);
        }
        if exists|i: int| 0 <= i < s.len() && entry_key(s[i]) == k {
            let i = choose|i: int| 0 <= i < s.len() && entry_key(s[i]) == k;
            if i < s.len() - 1 {
                assert(entry_key(s.drop_last()[i]) == k);
            }
        }
    }
}

pub proof fn lemma_map_of_index(s: Seq<Entry>, i: int)
    requires
        unique_keys(s),
        0 <= i < s.len(),
    ensures
        map_of(s).contains_key(entry_key(s[i])),
        map_of(s)[entry_key(s[i])] == s[i].value@,
    decreases s.len(),
{
    if i < s.len() - 1 {
        let t = s.drop_last();
        assert(unique_keys(t)) by {
            assert forall|a: int, b: int|
                0 <= a < t.len() && 0 <= b < t.len() && a != b implies entry_key(t[a])
                != entry_key(t[b]) by {
                assert(t[a] == s[a] && t[b] == s[b]);
            }
        }
        assert(t[i] == s[i]);
        lemma_map_of_index(t, i);
        assert(entry_key(s[i]) != entry_key(s[s.len() - 1]));
    }
}

pub proof fn lemma_map_of_remove(s: Seq<Entry>, i: int)
    requires
        unique_keys(s),
        0 <= i < s.len(),
    ensures
        unique_keys(s.remove(i)),
        map_of(s.remove(i)) == map_of(s).remove(entry_key(s[i])),
    decreases s.len(),
{
    let r = s.remove(i);
    assert(unique_keys(r)) by {
        assert forall|a: int, b: int|
            0 <= a < r.len() && 0 <= b < r.len() && a != b implies entry_key(r[a]) != entry_key(
            r[b],
        ) by {
            let sa = if a < i { a } else { a + 1 };
            let sb = if b < i { b } else { b + 1 };
            assert(r[a] == s[sa] && r[b] == s[sb]);
        }
    }
    let t = s.drop_last();
    let k = entry_key(s[i]);
    assert(unique_keys(t)) by {
        assert forall|a: int, b: int|
            0 <= a < t.len() && 0 <= b < t.len() && a != b implies entry_key(t[a]) != entry_key(
            t[b],
        ) by {
            assert(t[a] == s[a] && t[b] == s[b]);
        }
    }
    if i == s.len() - 1 {
        assert(r =~= t);
        if map_of(t).contains_key(k) {
            lemma_map_of_domain(t, k);
            let j = choose|j: int| 0 <= j < t.len() && entry_key(t[j]) == k;
            assert(t[j] == s[j]);
        }
        assert(map_of(r) =~= map_of(s).remove(k));
    } else {
        lemma_map_of_remove(t, i);
        assert(t[i] == s[i]);
        assert(r.drop_last() =~= t.remove(i));
        assert(r.last() == s.last());
        assert(entry_key(s.last()) != k);
        assert(map_of(r) =~= map_of(s).remove(k));
    }
}

/// Whether `p` starts `k`.
pub open spec fn has_prefix(k: Seq<u8>, p: Seq<u8>) -> bool {
    p.len() <= k.len() && k.subrange(0, p.len() as int) == p
}

/// Whether `k` starts with the bytes `p`.
pub fn starts_with(k: &[u8], p: &[u8]) -> (r: bool)
    ensures
        r == has_prefix(k@, p@),
{
    if p.len() > k.len() {
        return false;
    }
    bytes_eq(vstd::slice::slice_subrange(k, 0, p.len()), p)
}

/// Entry sequences with the same keys and values, position by position,
/// spell the same map.
pub proof fn lemma_map_of_same_views(s1: Seq<Entry>, s2: Seq<Entry>)
    requires
        s1.len() == s2.len(),
        forall|j: int|
            0 <= j < s1.len() ==> entry_key(#[trigger] s1[j]) == entry_key(s2[j]) && s1[j].value@
                == s2[j].value@,
    ensures
        map_of(s1) == map_of(s2),
    decreases s1.len(),
{
    if s1.len() > 0 {
        lemma_map_of_same_views(s1.drop_last(), s2.drop_last());
        assert(entry_key(s1[s1.len() - 1]) == entry_key(s2[s1.len() - 1]));
    }
}

/// Which way an iteration walks the keys.
#[derive(Debug, Clone, Copy, PartialEq, Eq, Structural)]
pub enum IterDirection {
    Forward,
    Reverse,
}

/// Key and value bytes of each pair.
pub open spec fn pair_views(s: Seq<(Vec<u8>, Vec<u8>)>) -> Seq<(Seq<u8>, Seq<u8>)> {
    s.map_values(|p: (Vec<u8>, Vec<u8>)| (p.0@, p.1@))
}

/// Pairs in strictly increasing key order.
pub open spec fn ascending(s: Seq<(Seq<u8>, Seq<u8>)>) -> bool {
    forall|i: int, j: int| 0 <= i < j < s.len() ==> lex_lt((#[trigger] s[i]).0, (#[trigger] s[j]).0)
}

/// Pairs in strictly decreasing key order.
pub open spec fn descending(s: Seq<(Seq<u8>, Seq<u8>)>) -> bool {
    forall|i: int, j: int| 0 <= i < j < s.len() ==> lex_lt((#[trigger] s[j]).0, (#[trigger] s[i]).0)
}

/// Whether `l` is a pair of `column` in `m`.
pub open spec fn in_column(m: Map<RawKey, Seq<u8>>, column: Column, l: (Seq<u8>, Seq<u8>)) -> bool {
    m.contains_key((column, l.0)) && m[(column, l.0)] == l.1
}

/// The pairs of `v`, whose keys are distinct, in key order.
fn sort_pairs(v: &Vec<(Vec<u8>, Vec<u8>)>) -> (r: Vec<(Vec<u8>, Vec<u8>)>)
    requires
        forall|a: int, b: int|
            0 <= a < v@.len() && 0 <= b < v@.len() && a != b ==> (#[trigger] v@[a]).0@ != (
            #[trigger] v@[b]).0@,
    ensures
        ascending(pair_views(r@)),
        forall|l: (Seq<u8>, Seq<u8>)| pair_views(r@).contains(l) <==> pair_views(v@).contains(l),
{
    let mut out: Vec<(Vec<u8>, Vec<u8>)> = Vec::new();
    let mut i: usize = 0;
    while i < v.len()
        invariant
            i <= v@.len(),
            ascending(pair_views(out@)),
            forall|l: (Seq<u8>, Seq<u8>)|
                pair_views(out@).contains(l) <==> pair_views(v@.subrange(0, i as int)).contains(l),
            forall|a: int, b: int|
                0 <= a < v@.len() && 0 <= b < v@.len() && a != b ==> (#[trigger] v@[a]).0@ != (
                #[trigger] v@[b]).0@,
        decreases v@.len() - i,
    {
        let key = copy_bytes(v[i].0.as_slice());
        let ghost lv = (v@[i as int].0@, v@[i as int].1@);
        let mut p: usize = 0;
        while p < out.len() && lex_less(out[p].0.as_slice(), key.as_slice())
            invariant
                p <= out@.len(),
                forall|q: int| 0 <= q < p ==> lex_lt((#[trigger] out@[q]).0@, key@),
            decreases out@.len() - p,
        {
            p = p + 1;
        }
        let ghost before = out@;
        let ghost bv = pair_views(before);
        let ghost done = pair_views(v@.subrange(0, i as int));
        proof {
            assert(forall|l: (Seq<u8>, Seq<u8>)| bv.contains(l) <==> done.contains(l));
            if p < before.len() {
                assert(bv.contains(bv[p as int]));
                let a = choose|a: int| 0 <= a < done.len() && done[a] == bv[p as int];
                assert(v@[a] == v@.subrange(0, i as int)[a]);
                assert(v@[a].0@ != v@[i as int].0@);
                assert(!lex_lt(before[p as int].0@, key@));
                lemma_lex_total(before[p as int].0@, key@);
            }
        }
        let value = copy_bytes(v[i].1.as_slice());
        out.insert(p, (key, value));
        proof {
            let nv = pair_views(out@);
            assert(nv =~= bv.insert(p as int, lv));
            assert forall|a: int, b: int| 0 <= a < b < nv.len() implies lex_lt(
                (#[trigger] nv[a]).0,
                (#[trigger] nv[b]).0,
            ) by {
                if b < p {
                    assert(nv[a] == bv[a] && nv[b] == bv[b]);
                } else if b == p {
                    assert(nv[a] == bv[a]);
                } else if a == p {
                    assert(nv[b] == bv[b - 1]);
                    if b - 1 > p {
                        lemma_lex_trans(lv.0, bv[p as int].0, bv[b - 1].0);
                    }
                } else if a < p {
                    assert(nv[a] == bv[a] && nv[b] == bv[b - 1]);
                } else {
                    assert(nv[a] == bv[a - 1] && nv[b] == bv[b - 1]);
                }
            }
            let nd = pair_views(v@.subrange(0, i as int + 1));
            assert(nd =~= done.push(lv));
            assert forall|l: (Seq<u8>, Seq<u8>)| nv.contains(l) <==> nd.contains(l) by {
                if nv.contains(l) {
                    let a = choose|a: int| 0 <= a < nv.len() && nv[a] == l;
                    if a < p {
                        assert(bv[a] == l && bv.contains(l));
                        let d = choose|d: int| 0 <= d < done.len() && done[d] == l;
                        assert(nd[d] == l);
                    } else if a > p {
                        assert(bv[a - 1] == l && bv.contains(l));
                        let d = choose|d: int| 0 <= d < done.len() && done[d] == l;
                        assert(nd[d] == l);
                    } else {
                        assert(nd[i as int] == l);
                    }
                }
                if nd.contains(l) {
                    let d = choose|d: int| 0 <= d < nd.len() && nd[d] == l;
                    if d < i {
                        assert(done[d] == l && done.contains(l));
                        let a = choose|a: int| 0 <= a < bv.len() && bv[a] == l;
                        if a < p {
                            assert(bv.insert(p as int, lv)[a] == bv[a]);
                            assert(nv[a] == l);
                        } else {
                            assert(bv.insert(p as int, lv)[a + 1] == bv[a]);
                            assert(nv[a + 1] == l);
                        }
                    } else {
                        assert(nv[p as int] == l);
                    }
                }
            }
        }
        i = i + 1;
    }
    assert(v@.subrange(0, i as int) =~= v@);
    out
}

/// One write of a changeset: `Some` puts a value, `None` removes the key.
pub struct WriteOp {
    pub column: Column,
    pub key: Vec<u8>,
    pub value: Option<Vec<u8>>,
}

pub open spec fn op_value(v: Option<Vec<u8>>) -> Option<Seq<u8>> {
    match v {
        Some(b) => Some(b@),
        None => None,
    }
}

/// What one write does to the map of a store.
pub open spec fn apply_op(m: Map<RawKey, Seq<u8>>, op: WriteOp) -> Map<RawKey, Seq<u8>> {
    match op_value(op.value) {
        Some(v) => m.insert((op.column, op.key@), v),
        None => m.remove((op.column, op.key@)),
    }
}

/// What a sequence of writes does, in order.
pub open spec fn apply_ops(m: Map<RawKey, Seq<u8>>, ops: Seq<WriteOp>) -> Map<RawKey, Seq<u8>>
    decreases ops.len(),
{
    if ops.len() == 0 {
        m
    } else {
        apply_op(apply_ops(m, ops.drop_last()), ops.last())
    }
}

/// A batch of writes, applied all together or not at all.
pub struct Changeset {
    pub ops: Vec<WriteOp>,
}

impl Changeset {
    pub fn new() -> (r: Changeset)
        ensures
            r.ops@.len() == 0,
    {
        Changeset { ops: Vec::new() }
    }

    /// Adds the write of `value` under `key` in `column`.
    pub fn put(&mut self, column: Column, key: Vec<u8>, value: Vec<u8>)
        ensures
            final(self).ops@ == old(self).ops@.push(WriteOp { column, key, value: Some(value) }),
    {
        self.ops.push(WriteOp { column, key, value: Some(value) });
    }

    /// Adds the removal of `key` in `column`.
    pub fn delete(&mut self, column: Column, key: Vec<u8>)
        ensures
            final(self).ops@ == old(self).ops@.push(WriteOp { column, key, value: None }),
    {
        self.ops.push(WriteOp { column, key, value: None });
    }
}

/// The store: its entries, no two under one raw key.
pub struct InMemoryStore {
    entries: Vec<Entry>,
}

impl View for InMemoryStore {
    type V = Map<RawKey, Seq<u8>>;

    closed spec fn view(&self) -> Map<RawKey, Seq<u8>> {
        map_of(self.entries@)
    }
}

/// A fresh copy of bytes.
pub fn copy_bytes(b: &[u8]) -> (r: Vec<u8>)
    ensures
        r@ == b@,
{
    vstd::slice::slice_to_vec(b)
}

/// Whether two byte strings are equal.
pub fn bytes_eq(a: &[u8], b: &[u8]) -> (r: bool)
    ensures
        r == (a@ == b@),
{
    if a.len() != b.len() {
        return false;
    }
    let mut i: usize = 0;
    while i < a.len()
        invariant
            i <= a@.len() == b@.len(),
            forall|j: int| 0 <= j < i ==> a@[j] == b@[j],
        decreases a@.len() - i,
    {
        if a[i] != b[i] {
            return false;
        }
        i = i + 1;
    }
    assert(a@ =~= b@);
    true
}

impl InMemoryStore {
    #[verifier::type_invariant]
    closed spec fn inv(&self) -> bool {
        unique_keys(self.entries@)
    }

    /// An empty store.
    pub fn new() -> (r: InMemoryStore)
        ensures
            r@ == Map::<RawKey, Seq<u8>>::empty(),
    {
        InMemoryStore { entries: Vec::new() }
    }

    /// A copy of the store, to stage writes on.
    pub fn snapshot(&self) -> (r: InMemoryStore)
        ensures
            r@ == self@,
    {
        proof {
            use_type_invariant(self);
        }
        let mut entries: Vec<Entry> = Vec::new();
        let mut i: usize = 0;
        while i < self.entries.len()
            invariant
                i <= self.entries@.len(),
                entries@.len() == i,
                forall|j: int|
                    0 <= j < i ==> entry_key(#[trigger] entries@[j]) == entry_key(self.entries@[j])
                        && entries@[j].value@ == self.entries@[j].value@,
            decreases self.entries@.len() - i,
        {
            let e = &self.entries[i];
            entries.push(
                Entry {
                    column: e.column,
                    key: copy_bytes(e.key.as_slice()),
                    value: copy_bytes(e.value.as_slice()),
                },
            );
            i = i + 1;
        }
        proof {
            assert(unique_keys(entries@)) by {
                assert forall|a: int, b: int|
                    0 <= a < entries@.len() && 0 <= b < entries@.len() && a != b implies entry_key(
                    entries@[a],
                ) != entry_key(entries@[b]) by {
                    assert(entry_key(entries@[a]) == entry_key(self.entries@[a]));
                    assert(entry_key(entries@[b]) == entry_key(self.entries@[b]));
                }
            }
            lemma_map_of_same_views(entries@, self.entries@);
        }
        InMemoryStore { entries }
    }

    /// Where the entry under `(column, key)` stands, if there is one.
    fn find(&self, column: Column, key: &[u8]) -> (r: Option<usize>)
        ensures
            match r {
                Some(i) => i < self.entries@.len() && entry_key(self.entries@[i as int]) == (
                column,
                key@,
                ),
                None => !self@.contains_key((column, key@)),
            },
    {
        proof {
            use_type_invariant(self);
        }
        let mut i: usize = 0;
        while i < self.entries.len()
            invariant
                i <= self.entries@.len(),
                forall|j: int| 0 <= j < i ==> entry_key(#[trigger] self.entries@[j]) != (column, key@),
            decreases self.entries@.len() - i,
        {
            let e = &self.entries[i];
            if e.column.as_u32() == column.as_u32() && bytes_eq(e.key.as_slice(), key) {
                proof {
                    crate::column::lemma_column_id_injective(e.column, column);
                }
                return Some(i);
            }
            i = i + 1;
        }
        proof {
            lemma_map_of_domain(self.entries@, (column, key@));
        }
        None
    }

    /// The value under `(column, key)`.
    pub fn get(&self, column: Column, key: &[u8]) -> (r: Option<Vec<u8>>)
        ensures
            r is Some == self@.contains_key((column, key@)),
            r matches Some(v) ==> v@ == self@[(column, key@)],
    {
        proof {
            use_type_invariant(self);
        }
        match self.find(column, key) {
            Some(i) => {
                proof {
                    lemma_map_of_index(self.entries@, i as int);
                }
                Some(copy_bytes(self.entries[i].value.as_slice()))
            },
            None => None,
        }
    }

    /// Whether a value is stored under `(column, key)`.
    pub fn contains_key(&self, column: Column, key: &[u8]) -> (r: bool)
        ensures
            r == self@.contains_key((column, key@)),
    {
        proof {
            use_type_invariant(self);
        }
        match self.find(column, key) {
            Some(i) => {
                proof {
                    lemma_map_of_index(self.entries@, i as int);
                }
                true
            },
            None => false,
        }
    }

    /// The length of the value under `(column, key)`.
    pub fn size_of_value(&self, column: Column, key: &[u8]) -> (r: Option<usize>)
        ensures
            r is Some == self@.contains_key((column, key@)),
            r matches Some(n) ==> n == self@[(column, key@)].len(),
    {
        proof {
            use_type_invariant(self);
        }
        match self.find(column, key) {
            Some(i) => {
                proof {
                    lemma_map_of_index(self.entries@, i as int);
                }
                Some(self.entries[i].value.len())
            },
            None => None,
        }
    }

    /// Every pair of `column` whose key starts with `prefix`, each once, in
    /// no particular order.
    pub fn prefix_scan(&self, column: Column, prefix: &[u8]) -> (r: Vec<(Vec<u8>, Vec<u8>)>)
        ensures
            forall|q: int|
                0 <= q < r@.len() ==> {
                    &&& self@.contains_key((column, (#[trigger] r@[q]).0@))
                    &&& self@[(column, r@[q].0@)] == r@[q].1@
                    &&& has_prefix(r@[q].0@, prefix@)
                },
            forall|k: Seq<u8>|
                self@.contains_key((column, k)) && has_prefix(k, prefix@) ==> exists|q: int|
                    0 <= q < r@.len() && (#[trigger] r@[q]).0@ == k,
            forall|a: int, b: int|
                0 <= a < r@.len() && 0 <= b < r@.len() && a != b ==> (#[trigger] r@[a]).0@ != (
                #[trigger] r@[b]).0@,
    {
        proof {
            use_type_invariant(self);
        }
        let mut r: Vec<(Vec<u8>, Vec<u8>)> = Vec::new();
        let mut i: usize = 0;
        while i < self.entries.len()
            invariant
                i <= self.entries@.len(),
                unique_keys(self.entries@),
                forall|q: int|
                    0 <= q < r@.len() ==> exists|j: int|
                        0 <= j < i && entry_key(self.entries@[j]) == (column, (#[trigger] r@[q]).0@)
                            && self.entries@[j].value@ == r@[q].1@,
                forall|q: int| 0 <= q < r@.len() ==> has_prefix((#[trigger] r@[q]).0@, prefix@),
                forall|j: int|
                    0 <= j < i && (#[trigger] self.entries@[j]).column == column && has_prefix(
                        self.entries@[j].key@,
                        prefix@,
                    ) ==> exists|q: int| 0 <= q < r@.len() && (#[trigger] r@[q]).0@ == self.entries@[j].key@,
                forall|a: int, b: int|
                    0 <= a < r@.len() && 0 <= b < r@.len() && a != b ==> (#[trigger] r@[a]).0@
                        != (#[trigger] r@[b]).0@,
            decreases self.entries@.len() - i,
        {
            let e = &self.entries[i];
            if e.column.as_u32() == column.as_u32() && starts_with(e.key.as_slice(), prefix) {
                proof {
                    crate::column::lemma_column_id_injective(e.column, column);
                }
                let ghost old_r = r@;
                let pair = (copy_bytes(e.key.as_slice()), copy_bytes(e.value.as_slice()));
                r.push(pair);
                proof {
                    assert forall|q: int| 0 <= q < old_r.len() implies r@[q].0@ != e.key@ by {
                        assert(r@[q] == old_r[q]);
                        let j = choose|j: int|
                            0 <= j < i && entry_key(self.entries@[j]) == (column, old_r[q].0@)
                                && self.entries@[j].value@ == old_r[q].1@;
                        assert(entry_key(self.entries@[j]) != entry_key(self.entries@[i as int]));
                    }
                    assert forall|q: int| 0 <= q < r@.len() implies exists|j: int|
                        0 <= j < i + 1 && entry_key(self.entries@[j]) == (column, (#[trigger] r@[q]).0@)
                            && self.entries@[j].value@ == r@[q].1@ by {
                        if q < old_r.len() {
                            assert(r@[q] == old_r[q]);
                        } else {
                            assert(entry_key(self.entries@[i as int]) == (column, r@[q].0@));
                        }
                    }
                    assert forall|j: int|
                        0 <= j < i + 1 && (#[trigger] self.entries@[j]).column == column && has_prefix(
                            self.entries@[j].key@,
                            prefix@,
                        ) implies exists|q: int| 0 <= q < r@.len() && (#[trigger] r@[q]).0@ == self.entries@[j].key@ by {
                        if j < i {
                            let q = choose|q: int| 0 <= q < old_r.len() && (#[trigger] old_r[q]).0@ == self.entries@[j].key@;
                            assert(r@[q] == old_r[q]);
                        } else {
                            assert(r@[old_r.len() as int].0@ == self.entries@[j].key@);
                        }
                    }
                }
            }
            i = i + 1;
        }
        proof {
            assert forall|q: int| 0 <= q < r@.len() implies {
                &&& self@.contains_key((column, (#[trigger] r@[q]).0@))
                &&& self@[(column, r@[q].0@)] == r@[q].1@
            } by {
                let j = choose|j: int|
                    0 <= j < i && entry_key(self.entries@[j]) == (column, r@[q].0@)
                        && self.entries@[j].value@ == r@[q].1@;
                lemma_map_of_index(self.entries@, j);
            }
            assert forall|k: Seq<u8>|
                self@.contains_key((column, k)) && has_prefix(k, prefix@) implies exists|q: int|
                    0 <= q < r@.len() && (#[trigger] r@[q]).0@ == k by {
                lemma_map_of_domain(self.entries@, (column, k));
                let j = choose|j: int| 0 <= j < self.entries@.len() && entry_key(self.entries@[j]) == (column, k);
                assert(self.entries@[j].column == column);
            }
        }
        r
    }

    /// Every pair of `column`, in key order or its reverse.
    pub fn iter_all(&self, column: Column, direction: IterDirection) -> (r: Vec<(Vec<u8>, Vec<u8>)>)
        ensures
            forall|l: (Seq<u8>, Seq<u8>)| pair_views(r@).contains(l) <==> in_column(self@, column, l),
            direction == IterDirection::Forward ==> ascending(pair_views(r@)),
            direction == IterDirection::Reverse ==> descending(pair_views(r@)),
    {
        let empty: Vec<u8> = Vec::new();
        let scan = self.prefix_scan(column, empty.as_slice());
        let sorted = sort_pairs(&scan);
        proof {
            assert forall|l: (Seq<u8>, Seq<u8>)| pair_views(scan@).contains(l) <==> in_column(self@, column, l) by {
                if pair_views(scan@).contains(l) {
                    let q = choose|q: int| 0 <= q < pair_views(scan@).len() && pair_views(scan@)[q] == l;
                    assert(scan@[q].0@ == l.0);
                }
                if in_column(self@, column, l) {
                    assert(l.0.subrange(0, 0) =~= empty@);
                    assert(has_prefix(l.0, empty@));
                    let q = choose|q: int| 0 <= q < scan@.len() && (#[trigger] scan@[q]).0@ == l.0;
                    assert(pair_views(scan@)[q] == l);
                }
            }
        }
        match direction {
            IterDirection::Forward => sorted,
            IterDirection::Reverse => {
                let mut rev: Vec<(Vec<u8>, Vec<u8>)> = Vec::new();
                let mut i: usize = sorted.len();
                while i > 0
                    invariant
                        i <= sorted@.len(),
                        rev@.len() == sorted@.len() - i,
                        forall|j: int|
                            0 <= j < rev@.len() ==> pair_views(rev@)[j] == pair_views(sorted@)[sorted@.len() - 1 - j],
                    decreases i,
                {
                    i = i - 1;
                    let pair = (copy_bytes(sorted[i].0.as_slice()), copy_bytes(sorted[i].1.as_slice()));
                    let ghost old_rev = rev@;
                    rev.push(pair);
                    proof {
                        assert forall|j: int|
                            0 <= j < rev@.len() implies pair_views(rev@)[j] == pair_views(sorted@)[sorted@.len() - 1 - j] by {
                            if j < old_rev.len() {
                                assert(rev@[j] == old_rev[j]);
                                assert(pair_views(old_rev)[j] == pair_views(sorted@)[sorted@.len() - 1 - j]);
                            } else {
                                assert(rev@[j] == pair);
                                assert(sorted@.len() - 1 - j == i);
                            }
                        }
                    }
                }
                proof {
                    let rv = pair_views(rev@);
                    let sv = pair_views(sorted@);
                    let n = sv.len();
                    assert forall|a: int, b: int| 0 <= a < b < rv.len() implies lex_lt(
                        (#[trigger] rv[b]).0,
                        (#[trigger] rv[a]).0,
                    ) by {
                        assert(rv[b] == sv[n - 1 - b] && rv[a] == sv[n - 1 - a]);
                    }
                    assert forall|l: (Seq<u8>, Seq<u8>)| rv.contains(l) <==> sv.contains(l) by {
                        if rv.contains(l) {
                            let a = choose|a: int| 0 <= a < rv.len() && rv[a] == l;
                            assert(sv[n - 1 - a] == l);
                        }
                        if sv.contains(l) {
                            let a = choose|a: int| 0 <= a < sv.len() && sv[a] == l;
                            assert(rv[n - 1 - a] == l);
                        }
                    }
                }
                rev
            },
        }
    }

    /// Puts or removes one value.
    fn apply_one(&mut self, column: Column, key: &[u8], value: Option<&Vec<u8>>)
        ensures
            final(self)@ == match value {
                Some(v) => old(self)@.insert((column, key@), v@),
                None => old(self)@.remove((column, key@)),
            },
    {
        proof {
            use_type_invariant(&*self);
        }
        let found = self.find(column, key);
        let mut entries: Vec<Entry> = Vec::new();
        std::mem::swap(&mut entries, &mut self.entries);
        if let Some(i) = found {
            proof {
                lemma_map_of_remove(entries@, i as int);
            }
            entries.remove(i);
        }
        let ghost mid = entries@;
        assert(unique_keys(mid) && !map_of(mid).contains_key((column, key@)));
        if let Some(v) = value {
            let e = Entry { column, key: copy_bytes(key), value: copy_bytes(v.as_slice()) };
            proof {
                assert forall|j: int| 0 <= j < mid.len() implies entry_key(mid[j]) != (column, key@) by {
                    lemma_map_of_domain(mid, (column, key@));
                }
            }
            entries.push(e);
            assert(entries@.drop_last() =~= mid);
            assert(unique_keys(entries@));
        }
        std::mem::swap(&mut entries, &mut self.entries);
        assert(self@ =~= match value {
            Some(v) => old(self)@.insert((column, key@), v@),
            None => old(self)@.remove((column, key@)),
        });
    }

    /// Applies every write of `changeset`, in order, as one step: a holder of
    /// the store sees it before or after, never in between.
    pub fn commit(&mut self, changeset: &Changeset)
        ensures
            final(self)@ == apply_ops(old(self)@, changeset.ops@),
    {
        let mut i: usize = 0;
        while i < changeset.ops.len()
            invariant
                i <= changeset.ops@.len(),
                self@ == apply_ops(old(self)@, changeset.ops@.subrange(0, i as int)),
            decreases changeset.ops@.len() - i,
        {
            let op = &changeset.ops[i];
            proof {
                assert(changeset.ops@.subrange(0, i as int + 1).drop_last() =~= changeset.ops@.subrange(0, i as int));
            }
            match &op.value {
                Some(v) => self.apply_one(op.column, op.key.as_slice(), Some(v)),
                None => self.apply_one(op.column, op.key.as_slice(), None),
            }
            i = i + 1;
        }
        assert(changeset.ops@.subrange(0, i as int) =~= changeset.ops@);
    }
}

} // verus!
