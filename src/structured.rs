//! The typed layer over the byte store: each table names its column and the
//! codecs of its keys and values, and one generic adapter serves them all.

use crate::codec::DecodeError;
use crate::column::Column;
use crate::kv_store::{Changeset, InMemoryStore, RawKey};
use vstd::prelude::*;

verus! {

/// Why a storage operation failed. A missing key is no error.
#[derive(Debug, Clone, Copy, PartialEq, Eq, Structural)]
pub enum StorageError {
    /// Stored bytes did not decode as the table's value.
    Codec(DecodeError),
    /// A row that the caller needs is not there.
    NotFound,
    /// A read buffer's length differs from the stored value's.
    BufferSize { expected: usize, found: usize },
}

/// A table: its column, and how its keys and values become bytes.
pub trait TableWithStructure {
    type Key;

    type Value;

    /// The column the table is stored under.
    spec fn spec_column() -> Column;

    /// The bytes a key is stored under.
    spec fn key_bytes(k: Self::Key) -> Seq<u8>;

    /// The bytes a value is stored as.
    spec fn value_bytes(v: Self::Value) -> Seq<u8>;

    /// Whether two values are the same value of the table (equal, or equal
    /// contents where the value owns a buffer).
    spec fn same_value(a: Self::Value, b: Self::Value) -> bool;

    /// Values stored as the same bytes are the same value.
    proof fn lemma_value_injective(a: Self::Value, b: Self::Value)
        requires
            Self::value_bytes(a) == Self::value_bytes(b),
        ensures
            Self::same_value(a, b),
    ;

    fn column() -> (c: Column)
        ensures
            c == Self::spec_column(),
    ;

    fn encode_key(k: &Self::Key) -> (r: Vec<u8>)
        ensures
            r@ == Self::key_bytes(*k),
    ;

    fn encode_value(v: &Self::Value) -> (r: Vec<u8>)
        ensures
            r@ == Self::value_bytes(*v),
    ;

    /// Decodes exactly the bytes that some value is stored as.
    fn decode_value(b: &[u8]) -> (r: Result<Self::Value, DecodeError>)
        ensures
            match r {
                Ok(v) => Self::value_bytes(v) == b@,
                Err(_) => forall|v: Self::Value| Self::value_bytes(v) != b@,
            },
    ;
}

/// The raw key of `k` in table `M`.
pub open spec fn raw_key<M: TableWithStructure>(k: M::Key) -> RawKey {
    (M::spec_column(), M::key_bytes(k))
}

/// Whether `bytes` are the stored form of some value of `M`.
pub open spec fn decodable<M: TableWithStructure>(bytes: Seq<u8>) -> bool {
    exists|v: M::Value| M::value_bytes(v) == bytes
}

/// What a typed lookup owes for the raw map `m`: nothing when the key is
/// absent, the value whose bytes are stored when they decode, else an error.
pub open spec fn lookup_result<M: TableWithStructure>(
    m: Map<RawKey, Seq<u8>>,
    k: M::Key,
    r: Result<Option<M::Value>, StorageError>,
) -> bool {
    let rk = raw_key::<M>(k);
    if !m.contains_key(rk) {
        r == Ok::<Option<M::Value>, StorageError>(None)
    } else if decodable::<M>(m[rk]) {
        r matches Ok(Some(v)) && M::value_bytes(v) == m[rk]
    } else {
        r matches Err(StorageError::Codec(_))
    }
}

/// Tables served by the generic adapter, as opposed to those with a layout
/// of their own.
pub trait UseStructuredImplementation<M: TableWithStructure> {

}

/// The generic adapter from tables to the byte store.
pub struct StructuredStorage {
    pub storage: InMemoryStore,
}

impl View for StructuredStorage {
    type V = Map<RawKey, Seq<u8>>;

    open spec fn view(&self) -> Map<RawKey, Seq<u8>> {
        self.storage@
    }
}

/// Decodes stored bytes, if there are any.
fn decode_stored<M: TableWithStructure>(stored: Option<Vec<u8>>) -> (r: Result<
    Option<M::Value>,
    StorageError,
>)
    ensures
        stored is None ==> r == Ok::<Option<M::Value>, StorageError>(None),
        stored matches Some(b) ==> (decodable::<M>(b@) ==> (r matches Ok(Some(v))
            && M::value_bytes(v) == b@)) && (!decodable::<M>(b@) ==> r matches Err(
            StorageError::Codec(_),
        )),
{
    match stored {
        None => Ok(None),
        Some(b) => match M::decode_value(b.as_slice()) {
            Ok(v) => Ok(Some(v)),
            Err(e) => Err(StorageError::Codec(e)),
        },
    }
}

impl StructuredStorage {
    pub fn new() -> (r: StructuredStorage)
        ensures
            r@ == Map::<RawKey, Seq<u8>>::empty(),
    {
        StructuredStorage { storage: InMemoryStore::new() }
    }

    /// The value under `key` in table `M`.
    pub fn get<M: TableWithStructure>(&self, key: &M::Key) -> (r: Result<
        Option<M::Value>,
        StorageError,
    >)
        ensures
            lookup_result::<M>(self@, *key, r),
    {
        let k = M::encode_key(key);
        decode_stored::<M>(self.storage.get(M::column(), k.as_slice()))
    }

    /// Whether table `M` holds a value under `key`.
    pub fn contains_key<M: TableWithStructure>(&self, key: &M::Key) -> (r: bool)
        ensures
            r == self@.contains_key(raw_key::<M>(*key)),
    {
        let k = M::encode_key(key);
        self.storage.contains_key(M::column(), k.as_slice())
    }

    /// Stores `value` under `key` in table `M`, in one changeset, and returns
    /// the value that was there before.
    pub fn insert<M: TableWithStructure>(&mut self, key: &M::Key, value: &M::Value) -> (r: Result<
        Option<M::Value>,
        StorageError,
    >)
        ensures
            final(self)@ == old(self)@.insert(raw_key::<M>(*key), M::value_bytes(*value)),
            lookup_result::<M>(old(self)@, *key, r),
    {
        let k = M::encode_key(key);
        let previous = self.storage.get(M::column(), k.as_slice());
        let mut changes = Changeset::new();
        changes.put(M::column(), k, M::encode_value(value));
        self.storage.commit(&changes);
        proof {
            reveal_with_fuel(crate::kv_store::apply_ops, 2);
            assert(changes.ops@.drop_last() =~= Seq::<crate::kv_store::WriteOp>::empty());
        }
        decode_stored::<M>(previous)
    }

    /// Removes the value under `key` in table `M`, in one changeset, and
    /// returns it.
    pub fn remove<M: TableWithStructure>(&mut self, key: &M::Key) -> (r: Result<
        Option<M::Value>,
        StorageError,
    >)
        ensures
            final(self)@ == old(self)@.remove(raw_key::<M>(*key)),
            lookup_result::<M>(old(self)@, *key, r),
    {
        let k = M::encode_key(key);
        let previous = self.storage.get(M::column(), k.as_slice());
        let mut changes = Changeset::new();
        changes.delete(M::column(), k);
        self.storage.commit(&changes);
        proof {
            reveal_with_fuel(crate::kv_store::apply_ops, 2);
            assert(changes.ops@.drop_last() =~= Seq::<crate::kv_store::WriteOp>::empty());
        }
        decode_stored::<M>(previous)
    }

    /// The length of the bytes stored under `key` in table `M`, without
    /// decoding them.
    pub fn size_of_value<M: TableWithStructure>(&self, key: &M::Key) -> (r: Option<usize>)
        ensures
            r is Some == self@.contains_key(raw_key::<M>(*key)),
            r matches Some(n) ==> n == self@[raw_key::<M>(*key)].len(),
    {
        let k = M::encode_key(key);
        self.storage.size_of_value(M::column(), k.as_slice())
    }

    /// Copies the bytes stored under `key` in table `M`, as they are, into
    /// `buf`, which must have their length; returns that length.
    pub fn read<M: TableWithStructure>(&self, key: &M::Key, buf: &mut [u8]) -> (r: Result<
        Option<usize>,
        StorageError,
    >)
        ensures
            !self@.contains_key(raw_key::<M>(*key)) ==> r == Ok::<Option<usize>, StorageError>(None)
                && final(buf)@ == old(buf)@,
            self@.contains_key(raw_key::<M>(*key)) && self@[raw_key::<M>(*key)].len() == old(
                buf,
            )@.len() ==> r == Ok::<Option<usize>, StorageError>(Some(old(buf)@.len() as usize))
                && final(buf)@ == self@[raw_key::<M>(*key)],
            self@.contains_key(raw_key::<M>(*key)) && self@[raw_key::<M>(*key)].len() != old(
                buf,
            )@.len() ==> r == Err::<Option<usize>, StorageError>(
                StorageError::BufferSize {
                    expected: self@[raw_key::<M>(*key)].len() as usize,
                    found: old(buf)@.len() as usize,
                },
            ) && final(buf)@ == old(buf)@,
    {
        let k = M::encode_key(key);
        match self.storage.get(M::column(), k.as_slice()) {
            None => Ok(None),
            Some(v) => {
                if v.len() != buf.len() {
                    return Err(StorageError::BufferSize { expected: v.len(), found: buf.len() });
                }
                let mut i: usize = 0;
                while i < v.len()
                    invariant
                        i <= v@.len() == buf@.len(),
                        forall|j: int| 0 <= j < i ==> buf@[j] == v@[j],
                    decreases v@.len() - i,
                {
                    buf[i] = v[i];
                    i = i + 1;
                }
                assert(buf@ =~= v@);
                Ok(Some(v.len()))
            },
        }
    }

    /// The bytes stored under `key` in table `M`, handed back as they are.
    pub fn read_alloc<M: TableWithStructure>(&self, key: &M::Key) -> (r: Option<Vec<u8>>)
        ensures
            r is Some == self@.contains_key(raw_key::<M>(*key)),
            r matches Some(b) ==> b@ == self@[raw_key::<M>(*key)],
    {
        let k = M::encode_key(key);
        self.storage.get(M::column(), k.as_slice())
    }
}

/// Round trip: whatever a table's value decoder returns on the bytes of `v`
/// (as its contract describes) is `v` again.
pub proof fn lemma_codec_round_trip<M: TableWithStructure>(
    v: M::Value,
    r: Result<M::Value, DecodeError>,
)
    requires
        r matches Ok(g) ==> M::value_bytes(g) == M::value_bytes(v),
        r is Err ==> forall|w: M::Value| #[trigger] M::value_bytes(w) != M::value_bytes(v),
    ensures
        r matches Ok(g) && M::same_value(g, v),
{
    if r is Err {
        let w = v;
        assert(M::value_bytes(w) != M::value_bytes(v));
    } else {
        M::lemma_value_injective(r->Ok_0, v);
    }
}

/// Whether a lookup found `v`.
pub open spec fn found<M: TableWithStructure>(
    r: Result<Option<M::Value>, StorageError>,
    v: M::Value,
) -> bool {
    r matches Ok(Some(g)) && M::same_value(g, v)
}

/// In a map where `k` holds the bytes of `v`, a lookup of `k` finds `v`.
pub proof fn lemma_lookup_stored<M: TableWithStructure>(
    m: Map<RawKey, Seq<u8>>,
    k: M::Key,
    v: M::Value,
    r: Result<Option<M::Value>, StorageError>,
)
    requires
        m.contains_key(raw_key::<M>(k)),
        m[raw_key::<M>(k)] == M::value_bytes(v),
        lookup_result::<M>(m, k, r),
    ensures
        found::<M>(r, v),
{
    assert(decodable::<M>(m[raw_key::<M>(k)]));
    let got = r->Ok_0->Some_0;
    M::lemma_value_injective(got, v);
}

/// Insert, then get: `insert(k, v)` on any map, followed by `get(k)`, finds
/// `v`; a second `insert(k, v2)` hands back `v`, and a `get(k)` after it
/// finds `v2`.
pub proof fn lemma_insert_get_consistency<M: TableWithStructure>(
    m: Map<RawKey, Seq<u8>>,
    k: M::Key,
    v: M::Value,
    v2: M::Value,
    r_get: Result<Option<M::Value>, StorageError>,
    r_insert2: Result<Option<M::Value>, StorageError>,
    r_get2: Result<Option<M::Value>, StorageError>,
)
    requires
        lookup_result::<M>(m.insert(raw_key::<M>(k), M::value_bytes(v)), k, r_get),
        lookup_result::<M>(m.insert(raw_key::<M>(k), M::value_bytes(v)), k, r_insert2),
        lookup_result::<M>(
            m.insert(raw_key::<M>(k), M::value_bytes(v)).insert(raw_key::<M>(k), M::value_bytes(v2)),
            k,
            r_get2,
        ),
    ensures
        found::<M>(r_get, v),
        found::<M>(r_insert2, v),
        found::<M>(r_get2, v2),
{
    let m1 = m.insert(raw_key::<M>(k), M::value_bytes(v));
    lemma_lookup_stored::<M>(m1, k, v, r_get);
    lemma_lookup_stored::<M>(m1, k, v, r_insert2);
    lemma_lookup_stored::<M>(m1.insert(raw_key::<M>(k), M::value_bytes(v2)), k, v2, r_get2);
}

/// Insert, then remove: `remove(k)` after `insert(k, v)` hands back `v`;
/// afterwards `get(k)` finds nothing and `contains_key(k)` is false.
pub proof fn lemma_remove_consistency<M: TableWithStructure>(
    m: Map<RawKey, Seq<u8>>,
    k: M::Key,
    v: M::Value,
    r_remove: Result<Option<M::Value>, StorageError>,
    r_get: Result<Option<M::Value>, StorageError>,
)
    requires
        lookup_result::<M>(m.insert(raw_key::<M>(k), M::value_bytes(v)), k, r_remove),
        lookup_result::<M>(
            m.insert(raw_key::<M>(k), M::value_bytes(v)).remove(raw_key::<M>(k)),
            k,
            r_get,
        ),
    ensures
        found::<M>(r_remove, v),
        r_get == Ok::<Option<M::Value>, StorageError>(None),
        !m.insert(raw_key::<M>(k), M::value_bytes(v)).remove(raw_key::<M>(k)).contains_key(
            raw_key::<M>(k),
        ),
{
    let m1 = m.insert(raw_key::<M>(k), M::value_bytes(v));
    lemma_lookup_stored::<M>(m1, k, v, r_remove);
}

} // verus!
