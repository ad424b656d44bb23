//! Contract state and its Merkle root: each contract's slots form one tree
//! whose root depends only on the slots that are stored.

use crate::codec::{be_encode, encode_u64, DecodeError};
use crate::column::Column;
use crate::kv_store::{apply_ops, copy_bytes, has_prefix, Changeset, InMemoryStore, RawKey, WriteOp};
use crate::structured::{
    lookup_result, raw_key, StorageError, StructuredStorage, TableWithStructure,
};
use crate::order::{lemma_lex_asym, lemma_lex_total, lemma_lex_trans, lex_less, lex_lt};
use crate::types::{id_from_prefix, ID_LEN};
use vstd::prelude::*;

verus! {

/// The SHA-256 digest of some bytes.
pub uninterp spec fn sha256_of(data: Seq<u8>) -> Seq<u8>;

/// Relies on `sha2::Sha256::digest`: the SHA-256 digest of `data`, which is
/// 32 bytes long.
#[verifier::external_body]
fn sha256(data: &[u8]) -> (r: Vec<u8>)
    ensures
        r@ == sha256_of(data@),
        r@.len() == 32,
{
    <sha2::Sha256 as sha2::Digest>::digest(data).to_vec()
}

/// The key of one storage slot: the contract, then the slot in it.
#[derive(Debug, Clone, Copy, PartialEq, Eq)]
pub struct ContractsStateKey {
    pub contract_id: [u8; 32],
    pub state_key: [u8; 32],
}

/// Contract storage slots, merkleized per contract.
pub struct ContractsState;

impl TableWithStructure for ContractsState {
    type Key = ContractsStateKey;

    type Value = [u8; 32];

    open spec fn spec_column() -> Column {
        Column::ContractsState
    }

    open spec fn key_bytes(k: ContractsStateKey) -> Seq<u8> {
        k.contract_id@ + k.state_key@
    }

    open spec fn value_bytes(v: [u8; 32]) -> Seq<u8> {
        v@
    }

    open spec fn same_value(a: [u8; 32], b: [u8; 32]) -> bool {
        a == b
    }

    proof fn lemma_value_injective(a: [u8; 32], b: [u8; 32]) {
        assert(a =~= b);
    }

    fn column() -> (c: Column) {
        Column::ContractsState
    }

    fn encode_key(k: &ContractsStateKey) -> (r: Vec<u8>) {
        let mut r = copy_bytes(k.contract_id.as_slice());
        let mut tail = copy_bytes(k.state_key.as_slice());
        r.append(&mut tail);
        r
    }

    fn encode_value(v: &[u8; 32]) -> (r: Vec<u8>) {
        copy_bytes(v.as_slice())
    }

    fn decode_value(b: &[u8]) -> (r: Result<[u8; 32], DecodeError>) {
        if b.len() != ID_LEN {
            return Err(DecodeError::WrongLength { expected: ID_LEN, found: b.len() });
        }
        let v = id_from_prefix(b);
        assert(v@ =~= b@);
        Ok(v)
    }
}

/// A leaf of a contract's tree: slot key and slot value.
pub type LeafView = (Seq<u8>, Seq<u8>);

pub open spec fn leaf_views(s: Seq<(Vec<u8>, Vec<u8>)>) -> Seq<LeafView> {
    s.map_values(|p: (Vec<u8>, Vec<u8>)| (p.0@, p.1@))
}

/// Leaves in strictly increasing key order.
pub open spec fn sorted_leaves(s: Seq<LeafView>) -> bool {
    forall|i: int, j: int| 0 <= i < j < s.len() ==> lex_lt((#[trigger] s[i]).0, (#[trigger] s[j]).0)
}

/// Whether the map holds `l` as a slot of contract `c`.
pub open spec fn in_tree(m: Map<RawKey, Seq<u8>>, c: Seq<u8>, l: LeafView) -> bool {
    &&& l.0.len() == 32
    &&& m.contains_key((Column::ContractsState, c + l.0))
    &&& m[(Column::ContractsState, c + l.0)] == l.1
}

/// `s` lists the slots of contract `c` in `m`, in key order.
pub open spec fn listing(m: Map<RawKey, Seq<u8>>, c: Seq<u8>, s: Seq<LeafView>) -> bool {
    &&& sorted_leaves(s)
    &&& forall|l: LeafView| s.contains(l) <==> in_tree(m, c, l)
}

/// Two sorted sequences of the same leaves are one sequence.
pub proof fn lemma_sorted_unique(s1: Seq<LeafView>, s2: Seq<LeafView>)
    requires
        sorted_leaves(s1),
        sorted_leaves(s2),
        forall|l: LeafView| s1.contains(l) <==> s2.contains(l),
    ensures
        s1 == s2,
    decreases s1.len(),
{
    if s1.len() == 0 {
        if s2.len() > 0 {
            assert(s2.contains(s2[0]));
        }
        assert(s1 =~= s2);
    } else {
        assert(s1.contains(s1[0]));
        assert(s2.len() > 0);
        assert(s2.contains(s2[0]));
        let h1 = s1[0];
        let h2 = s2[0];
        let j = choose|j: int| 0 <= j < s2.len() && s2[j] == h1;
        let i = choose|i: int| 0 <= i < s1.len() && s1[i] == h2;
        if j > 0 {
            assert(lex_lt(h2.0, h1.0));
            if i > 0 {
                assert(lex_lt(h1.0, h2.0));
                lemma_lex_asym(h1.0, h2.0);
            } else {
                lemma_lex_asym(h1.0, h1.0);
            }
        }
        assert(h1 == h2);
        let t1 = s1.drop_first();
        let t2 = s2.drop_first();
        assert(sorted_leaves(t1)) by {
            assert forall|a: int, b: int| 0 <= a < b < t1.len() implies lex_lt(
                (#[trigger] t1[a]).0,
                (#[trigger] t1[b]).0,
            ) by {
                assert(t1[a] == s1[a + 1] && t1[b] == s1[b + 1]);
            }
        }
        assert(sorted_leaves(t2)) by {
            assert forall|a: int, b: int| 0 <= a < b < t2.len() implies lex_lt(
                (#[trigger] t2[a]).0,
                (#[trigger] t2[b]).0,
            ) by {
                assert(t2[a] == s2[a + 1] && t2[b] == s2[b + 1]);
            }
        }
        assert forall|l: LeafView| t1.contains(l) implies t2.contains(l) by {
            let a = choose|a: int| 0 <= a < t1.len() && t1[a] == l;
            assert(s1[a + 1] == l);
            assert(lex_lt(h1.0, l.0));
            lemma_lex_asym(h1.0, h1.0);
            assert(s2.contains(l));
            let b = choose|b: int| 0 <= b < s2.len() && s2[b] == l;
            assert(b != 0);
            assert(t2[b - 1] == l);
        }
        assert forall|l: LeafView| t2.contains(l) implies t1.contains(l) by {
            let a = choose|a: int| 0 <= a < t2.len() && t2[a] == l;
            assert(s2[a + 1] == l);
            assert(lex_lt(h2.0, l.0));
            lemma_lex_asym(h2.0, h2.0);
            assert(s1.contains(l));
            let b = choose|b: int| 0 <= b < s1.len() && s1[b] == l;
            assert(b != 0);
            assert(t1[b - 1] == l);
        }
        lemma_sorted_unique(t1, t2);
        assert(s1 =~= s2) by {
            assert forall|k: int| 0 <= k < s1.len() implies s1[k] == s2[k] by {
                if k > 0 {
                    assert(s1[k] == t1[k - 1]);
                    assert(s2[k] == t2[k - 1]);
                }
            }
        }
    }
}

/// The hash of one leaf: a zero byte, the slot key, the slot value.
pub open spec fn leaf_hash(l: LeafView) -> Seq<u8> {
    sha256_of(seq![0u8] + l.0 + l.1)
}

/// The hash of an inner node: a one byte, then the two children.
pub open spec fn node_hash(a: Seq<u8>, b: Seq<u8>) -> Seq<u8> {
    sha256_of(seq![1u8] + a + b)
}

/// The root of a binary tree over leaves in order, split at the middle; the
/// empty tree's root is the digest of no bytes.
pub open spec fn merkle_root(s: Seq<LeafView>) -> Seq<u8>
    decreases s.len(),
{
    if s.len() == 0 {
        sha256_of(Seq::empty())
    } else if s.len() == 1 {
        leaf_hash(s[0])
    } else {
        node_hash(
            merkle_root(s.subrange(0, s.len() as int / 2)),
            merkle_root(s.subrange(s.len() as int / 2, s.len() as int)),
        )
    }
}

/// `r` is the root of contract `c`'s slots in `m`.
pub open spec fn is_tree_root(m: Map<RawKey, Seq<u8>>, c: Seq<u8>, r: Seq<u8>) -> bool {
    exists|s: Seq<LeafView>| listing(m, c, s) && r == merkle_root(s)
}

/// The root of leaves already in order.
fn merkle_root_of(leaves: &[(Vec<u8>, Vec<u8>)]) -> (r: Vec<u8>)
    ensures
        r@ == merkle_root(leaf_views(leaves@)),
    decreases leaves@.len(),
{
    let n = leaves.len();
    if n == 0 {
        let empty: Vec<u8> = Vec::new();
        assert(empty@ =~= Seq::<u8>::empty());
        return sha256(empty.as_slice());
    }
    let mut buf: Vec<u8> = Vec::new();
    if n == 1 {
        buf.push(0u8);
        let mut k = copy_bytes(leaves[0].0.as_slice());
        let mut v = copy_bytes(leaves[0].1.as_slice());
        buf.append(&mut k);
        buf.append(&mut v);
        assert(buf@ =~= seq![0u8] + leaf_views(leaves@)[0].0 + leaf_views(leaves@)[0].1);
    } else {
        let mid = n / 2;
        let mut left = merkle_root_of(vstd::slice::slice_subrange(leaves, 0, mid));
        let mut right = merkle_root_of(vstd::slice::slice_subrange(leaves, mid, n));
        assert(leaf_views(leaves@.subrange(0, mid as int)) =~= leaf_views(leaves@).subrange(0, mid as int));
        assert(leaf_views(leaves@.subrange(mid as int, n as int)) =~= leaf_views(leaves@).subrange(mid as int, n as int));
        let ghost l = left@;
        let ghost rr = right@;
        buf.push(1u8);
        buf.append(&mut left);
        buf.append(&mut right);
        assert(buf@ =~= seq![1u8] + l + rr);
    }
    sha256(buf.as_slice())
}

/// Whether a scanned pair is a slot `l` of contract `c`.
pub open spec fn scanned_as(p: (Vec<u8>, Vec<u8>), c: Seq<u8>, l: LeafView) -> bool {
    p.0@.len() == 64 && p.0@ == c + l.0 && p.1@ == l.1
}

/// The slots of a contract in key order.
fn sorted_slots(storage: &StructuredStorage, contract_id: &[u8; 32]) -> (r: Vec<(Vec<u8>, Vec<u8>)>)
    ensures
        listing(storage@, contract_id@, leaf_views(r@)),
{
    let c = contract_id.as_slice();
    let scan = storage.storage.prefix_scan(Column::ContractsState, c);
    let mut out: Vec<(Vec<u8>, Vec<u8>)> = Vec::new();
    let mut i: usize = 0;
    while i < scan.len()
        invariant
            i <= scan@.len(),
            c@ == contract_id@,
            c@.len() == 32,
            sorted_leaves(leaf_views(out@)),
            forall|q: int| 0 <= q < out@.len() ==> (#[trigger] out@[q]).0@.len() == 32,
            forall|l: LeafView|
                leaf_views(out@).contains(l) <==> exists|q: int|
                    0 <= q < i && #[trigger] scanned_as(scan@[q], c@, l),
            forall|a: int, b: int|
                0 <= a < scan@.len() && 0 <= b < scan@.len() && a != b ==> (#[trigger] scan@[a]).0@
                    != (#[trigger] scan@[b]).0@,
            forall|q: int|
                0 <= q < scan@.len() ==> {
                    &&& storage@.contains_key((Column::ContractsState, (#[trigger] scan@[q]).0@))
                    &&& storage@[(Column::ContractsState, scan@[q].0@)] == scan@[q].1@
                    &&& has_prefix(scan@[q].0@, c@)
                },
            forall|k: Seq<u8>|
                storage@.contains_key((Column::ContractsState, k)) && has_prefix(k, c@) ==> exists|q: int|
                    0 <= q < scan@.len() && (#[trigger] scan@[q]).0@ == k,
        decreases scan@.len() - i,
    {
        let key = &scan[i].0;
        if key.len() == 2 * ID_LEN {
            let sk = copy_bytes(vstd::slice::slice_subrange(key.as_slice(), ID_LEN, 2 * ID_LEN));
            let ghost lv: LeafView = (sk@, scan@[i as int].1@);
            proof {
                assert(has_prefix(scan@[i as int].0@, c@));
                assert(key@ =~= c@ + sk@);
                assert(scanned_as(scan@[i as int], c@, lv));
            }
            let mut p: usize = 0;
            while p < out.len() && lex_less(out[p].0.as_slice(), sk.as_slice())
                invariant
                    p <= out@.len(),
                    sk@.len() == 32,
                    forall|q: int| 0 <= q < out@.len() ==> (#[trigger] out@[q]).0@.len() == 32,
                    forall|q: int| 0 <= q < p ==> lex_lt((#[trigger] out@[q]).0@, sk@),
                decreases out@.len() - p,
            {
                p = p + 1;
            }
            let ghost before = out@;
            let ghost bv = leaf_views(before);
            // no slot of the tree so far has this key
            proof {
                assert forall|q: int| 0 <= q < before.len() implies (#[trigger] before[q]).0@ != sk@ by {
                    assert(bv.contains(bv[q]));
                    let a = choose|a: int| 0 <= a < i && #[trigger] scanned_as(scan@[a], c@, bv[q]);
                    assert(scan@[a].0@ != scan@[i as int].0@);
                }
                if p < before.len() {
                    assert(!lex_lt(before[p as int].0@, sk@));
                    lemma_lex_total(before[p as int].0@, sk@);
                }
            }
            let v = copy_bytes(scan[i].1.as_slice());
            out.insert(p, (sk, v));
            proof {
                let nv = leaf_views(out@);
                assert(nv =~= bv.insert(p as int, lv));
                assert forall|a: int, b: int| 0 <= a < b < nv.len() implies lex_lt(
                    (#[trigger] nv[a]).0,
                    (#[trigger] nv[b]).0,
                ) by {
                    if b < p {
                        assert(nv[a] == bv[a] && nv[b] == bv[b]);
                    } else if b == p {
                        assert(nv[a] == bv[a]);
                    } else if a == p {
                        assert(nv[b] == bv[b - 1]);
                        if b - 1 > p {
                            lemma_lex_trans(sk@, bv[p as int].0, bv[b - 1].0);
                        }
                    } else if a < p {
                        assert(nv[a] == bv[a] && nv[b] == bv[b - 1]);
                    } else {
                        assert(nv[a] == bv[a - 1] && nv[b] == bv[b - 1]);
                    }
                }
                assert forall|l: LeafView|
                    nv.contains(l) <==> exists|q: int|
                        0 <= q < i + 1 && #[trigger] scanned_as(scan@[q], c@, l) by {
                    if nv.contains(l) {
                        let a = choose|a: int| 0 <= a < nv.len() && nv[a] == l;
                        if a < p {
                            assert(bv[a] == l && bv.contains(l));
                        } else if a > p {
                            assert(bv[a - 1] == l && bv.contains(l));
                        }
                    }
                    if exists|q: int| 0 <= q < i + 1 && #[trigger] scanned_as(scan@[q], c@, l) {
                        let q = choose|q: int| 0 <= q < i + 1 && #[trigger] scanned_as(scan@[q], c@, l);
                        if q < i {
                            assert(bv.contains(l));
                            let a = choose|a: int| 0 <= a < bv.len() && bv[a] == l;
                            if a < p {
                                assert(nv[a] == l);
                            } else {
                                assert(nv[a + 1] == l);
                            }
                        } else {
                            assert(l.0 =~= scan@[q].0@.subrange(32, 64));
                            assert(lv.0 =~= scan@[q].0@.subrange(32, 64));
                            assert(nv[p as int] == l);
                        }
                    }
                }
            }
        } else {
            proof {
                assert forall|l: LeafView|
                    leaf_views(out@).contains(l) <==> exists|q: int|
                        0 <= q < i + 1 && #[trigger] scanned_as(scan@[q], c@, l) by {
                    if exists|q: int| 0 <= q < i + 1 && #[trigger] scanned_as(scan@[q], c@, l) {
                        let q = choose|q: int| 0 <= q < i + 1 && #[trigger] scanned_as(scan@[q], c@, l);
                        assert(q != i);
                    }
                }
            }
        }
        i = i + 1;
    }
    proof {
        let m = storage@;
        assert forall|l: LeafView| leaf_views(out@).contains(l) <==> in_tree(m, c@, l) by {
            if leaf_views(out@).contains(l) {
                let q = choose|q: int| 0 <= q < i && #[trigger] scanned_as(scan@[q], c@, l);
                assert(l.0 =~= scan@[q].0@.subrange(32, 64));
            }
            if in_tree(m, c@, l) {
                assert((c@ + l.0).subrange(0, 32) =~= c@);
                assert(has_prefix(c@ + l.0, c@));
                let q = choose|q: int| 0 <= q < scan@.len() && (#[trigger] scan@[q]).0@ == c@ + l.0;
                assert(scanned_as(scan@[q], c@, l));
            }
        }
    }
    out
}

impl StructuredStorage {
    /// The Merkle root of contract `contract_id`'s storage slots.
    pub fn root(&self, contract_id: &[u8; 32]) -> (r: Vec<u8>)
        ensures
            is_tree_root(self@, contract_id@, r@),
    {
        let leaves = sorted_slots(self, contract_id);
        let r = merkle_root_of(leaves.as_slice());
        assert(listing(self@, contract_id@, leaf_views(leaves@)));
        r
    }
}

/// What a contract's metadata row holds: the tree's root, then its number of
/// leaves as eight big-endian bytes.
pub open spec fn is_tree_metadata(m: Map<RawKey, Seq<u8>>, c: Seq<u8>, bytes: Seq<u8>) -> bool {
    exists|s: Seq<LeafView>| listing(m, c, s) && bytes == merkle_root(s) + be_encode(s.len(), 8)
}

/// The metadata row of contract `c` in map `m`.
fn tree_metadata(store: &InMemoryStore, contract_id: &[u8; 32]) -> (r: Vec<u8>)
    ensures
        is_tree_metadata(store@, contract_id@, r@),
{
    let tmp = StructuredStorage { storage: store.snapshot() };
    let leaves = sorted_slots(&tmp, contract_id);
    let mut r = merkle_root_of(leaves.as_slice());
    let count = encode_u64(leaves.len() as u64);
    let mut tail = copy_bytes(count.as_bytes());
    let ghost root = r@;
    r.append(&mut tail);
    assert(leaf_views(leaves@).len() == leaves@.len());
    assert(r@ == merkle_root(leaf_views(leaves@)) + be_encode(leaf_views(leaves@).len(), 8));
    r
}

impl StructuredStorage {
    /// Writes one slot and its contract's tree metadata in one changeset, and
    /// returns the slot's previous value.
    pub fn insert_slot(&mut self, key: &ContractsStateKey, value: &[u8; 32]) -> (r: Result<
        Option<[u8; 32]>,
        StorageError,
    >)
        ensures
            lookup_result::<ContractsState>(old(self)@, *key, r),
            ({
                let data = old(self)@.insert(raw_key::<ContractsState>(*key), value@);
                exists|meta: Seq<u8>|
                    is_tree_metadata(data, key.contract_id@, meta) && final(self)@ == data.insert(
                        (Column::ContractsStateMerkleMetadata, key.contract_id@),
                        meta,
                    )
            }),
    {
        let k = ContractsState::encode_key(key);
        let previous = self.storage.get(Column::ContractsState, k.as_slice());
        let mut staged = self.storage.snapshot();
        let mut first = Changeset::new();
        first.put(Column::ContractsState, copy_bytes(k.as_slice()), copy_bytes(value.as_slice()));
        staged.commit(&first);
        let meta = tree_metadata(&staged, &key.contract_id);
        let ghost mv = meta@;
        let mut changes = Changeset::new();
        changes.put(Column::ContractsState, k, copy_bytes(value.as_slice()));
        changes.put(Column::ContractsStateMerkleMetadata, copy_bytes(key.contract_id.as_slice()), meta);
        self.storage.commit(&changes);
        proof {
            reveal_with_fuel(apply_ops, 3);
            assert(first.ops@.drop_last() =~= Seq::<WriteOp>::empty());
            assert(changes.ops@.drop_last().drop_last() =~= Seq::<WriteOp>::empty());
            assert(is_tree_metadata(staged@, key.contract_id@, mv));
            assert(staged@ == old(self)@.insert(raw_key::<ContractsState>(*key), value@));
            assert(self@ == staged@.insert((Column::ContractsStateMerkleMetadata, key.contract_id@), mv));
        }
        match previous {
            None => Ok(None),
            Some(b) => match ContractsState::decode_value(b.as_slice()) {
                Ok(v) => Ok(Some(v)),
                Err(e) => Err(StorageError::Codec(e)),
            },
        }
    }

    /// Removes one slot and rewrites its contract's tree metadata in one
    /// changeset, and returns the slot's previous value.
    pub fn remove_slot(&mut self, key: &ContractsStateKey) -> (r: Result<
        Option<[u8; 32]>,
        StorageError,
    >)
        ensures
            lookup_result::<ContractsState>(old(self)@, *key, r),
            ({
                let data = old(self)@.remove(raw_key::<ContractsState>(*key));
                exists|meta: Seq<u8>|
                    is_tree_metadata(data, key.contract_id@, meta) && final(self)@ == data.insert(
                        (Column::ContractsStateMerkleMetadata, key.contract_id@),
                        meta,
                    )
            }),
    {
        let k = ContractsState::encode_key(key);
        let previous = self.storage.get(Column::ContractsState, k.as_slice());
        let mut staged = self.storage.snapshot();
        let mut first = Changeset::new();
        first.delete(Column::ContractsState, copy_bytes(k.as_slice()));
        staged.commit(&first);
        let meta = tree_metadata(&staged, &key.contract_id);
        let ghost mv = meta@;
        let mut changes = Changeset::new();
        changes.delete(Column::ContractsState, k);
        changes.put(Column::ContractsStateMerkleMetadata, copy_bytes(key.contract_id.as_slice()), meta);
        self.storage.commit(&changes);
        proof {
            reveal_with_fuel(apply_ops, 3);
            assert(first.ops@.drop_last() =~= Seq::<WriteOp>::empty());
            assert(changes.ops@.drop_last().drop_last() =~= Seq::<WriteOp>::empty());
            assert(is_tree_metadata(staged@, key.contract_id@, mv));
            assert(staged@ == old(self)@.remove(raw_key::<ContractsState>(*key)));
            assert(self@ == staged@.insert((Column::ContractsStateMerkleMetadata, key.contract_id@), mv));
        }
        match previous {
            None => Ok(None),
            Some(b) => match ContractsState::decode_value(b.as_slice()) {
                Ok(v) => Ok(Some(v)),
                Err(e) => Err(StorageError::Codec(e)),
            },
        }
    }
}

/// A tree's root depends only on its final slots: changesets that leave the
/// same slots of contract `c`, in whatever order they wrote them, give the
/// same root.
pub proof fn lemma_root_determinism(
    m: Map<RawKey, Seq<u8>>,
    ops1: Seq<WriteOp>,
    ops2: Seq<WriteOp>,
    c: Seq<u8>,
    r1: Seq<u8>,
    r2: Seq<u8>,
)
    requires
        forall|l: LeafView| in_tree(apply_ops(m, ops1), c, l) <==> in_tree(apply_ops(m, ops2), c, l),
        is_tree_root(apply_ops(m, ops1), c, r1),
        is_tree_root(apply_ops(m, ops2), c, r2),
    ensures
        r1 == r2,
{
    let s1 = choose|s: Seq<LeafView>| listing(apply_ops(m, ops1), c, s) && r1 == merkle_root(s);
    let s2 = choose|s: Seq<LeafView>| listing(apply_ops(m, ops2), c, s) && r2 == merkle_root(s);
    lemma_sorted_unique(s1, s2);
}

} // verus!
