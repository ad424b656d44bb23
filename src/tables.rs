//! The tables of the node and the layout each one is stored in.

use crate::codec::{
    be_decode, be_encode, decode_u32, framed, lemma_be_decode_bound, lemma_be_encode_decode,
    DecodeError, Raw, Structured,
};
use crate::column::Column;
use crate::kv_store::{has_prefix, RawKey};
use crate::structured::{
    decodable, raw_key, StorageError, StructuredStorage, TableWithStructure,
    UseStructuredImplementation,
};
use crate::types::{id_from_prefix, utxo_bytes, BlockHeight, UtxoId, ID_LEN};
use vstd::prelude::*;

verus! {

/// A copy of a 32-byte id as a buffer.
fn id_bytes(id: &[u8; 32]) -> (r: Vec<u8>)
    ensures
        r@ == id@,
{
    vstd::slice::slice_to_vec(id.as_slice())
}

/// Contract bytecode by contract id, both stored raw: the code has no length
/// prefix, the store's own value length is its length.
pub struct ContractsRawCode;

impl TableWithStructure for ContractsRawCode {
    type Key = [u8; 32];

    type Value = Vec<u8>;

    open spec fn spec_column() -> Column {
        Column::ContractsRawCode
    }

    open spec fn key_bytes(k: [u8; 32]) -> Seq<u8> {
        k@
    }

    open spec fn value_bytes(v: Vec<u8>) -> Seq<u8> {
        v@
    }

    open spec fn same_value(a: Vec<u8>, b: Vec<u8>) -> bool {
        a@ == b@
    }

    proof fn lemma_value_injective(a: Vec<u8>, b: Vec<u8>) {
    }

    fn column() -> (c: Column) {
        Column::ContractsRawCode
    }

    fn encode_key(k: &[u8; 32]) -> (r: Vec<u8>) {
        id_bytes(k)
    }

    fn encode_value(v: &Vec<u8>) -> (r: Vec<u8>) {
        Raw::encode(v.as_slice())
    }

    fn decode_value(b: &[u8]) -> (r: Result<Vec<u8>, DecodeError>) {
        Ok(Raw::decode(b))
    }
}

/// The 64 bytes of a contract's salt and root.
pub open spec fn pair_bytes(v: ([u8; 32], [u8; 32])) -> Seq<u8> {
    v.0@ + v.1@
}

/// Splits 64 bytes into two ids.
fn decode_pair(b: &[u8]) -> (r: Result<([u8; 32], [u8; 32]), DecodeError>)
    ensures
        match r {
            Ok(v) => pair_bytes(v) == b@,
            Err(_) => forall|v: ([u8; 32], [u8; 32])| pair_bytes(v) != b@,
        },
{
    if b.len() != 2 * ID_LEN {
        return Err(DecodeError::WrongLength { expected: 2 * ID_LEN, found: b.len() });
    }
    let first = id_from_prefix(b);
    let tail = vstd::slice::slice_subrange(b, ID_LEN, b.len());
    let second = id_from_prefix(tail);
    assert(pair_bytes((first, second)) =~= b@);
    Ok((first, second))
}

proof fn lemma_pair_bytes_injective(a: ([u8; 32], [u8; 32]), b: ([u8; 32], [u8; 32]))
    requires
        pair_bytes(a) == pair_bytes(b),
    ensures
        a == b,
{
    assert(a.0@ =~= pair_bytes(a).subrange(0, 32));
    assert(b.0@ =~= pair_bytes(b).subrange(0, 32));
    assert(a.1@ =~= pair_bytes(a).subrange(32, 64));
    assert(b.1@ =~= pair_bytes(b).subrange(32, 64));
    assert(a.0 =~= b.0);
    assert(a.1 =~= b.1);
}

/// A contract's salt and state root by contract id.
pub struct ContractsInfo;

impl TableWithStructure for ContractsInfo {
    type Key = [u8; 32];

    type Value = ([u8; 32], [u8; 32]);

    open spec fn spec_column() -> Column {
        Column::ContractsInfo
    }

    open spec fn key_bytes(k: [u8; 32]) -> Seq<u8> {
        k@
    }

    open spec fn value_bytes(v: ([u8; 32], [u8; 32])) -> Seq<u8> {
        pair_bytes(v)
    }

    open spec fn same_value(a: ([u8; 32], [u8; 32]), b: ([u8; 32], [u8; 32])) -> bool {
        a == b
    }

    proof fn lemma_value_injective(a: ([u8; 32], [u8; 32]), b: ([u8; 32], [u8; 32])) {
        lemma_pair_bytes_injective(a, b);
    }

    fn column() -> (c: Column) {
        Column::ContractsInfo
    }

    fn encode_key(k: &[u8; 32]) -> (r: Vec<u8>) {
        id_bytes(k)
    }

    fn encode_value(v: &([u8; 32], [u8; 32])) -> (r: Vec<u8>) {
        let mut r = id_bytes(&v.0);
        let mut tail = id_bytes(&v.1);
        r.append(&mut tail);
        assert(r@ =~= pair_bytes(*v));
        r
    }

    fn decode_value(b: &[u8]) -> (r: Result<([u8; 32], [u8; 32]), DecodeError>) {
        decode_pair(b)
    }
}

/// The latest unspent output of each contract, by contract id.
pub struct ContractsLatestUtxo;

impl TableWithStructure for ContractsLatestUtxo {
    type Key = [u8; 32];

    type Value = UtxoId;

    open spec fn spec_column() -> Column {
        Column::ContractsLatestUtxo
    }

    open spec fn key_bytes(k: [u8; 32]) -> Seq<u8> {
        k@
    }

    open spec fn value_bytes(v: UtxoId) -> Seq<u8> {
        utxo_bytes(v)
    }

    open spec fn same_value(a: UtxoId, b: UtxoId) -> bool {
        a == b
    }

    proof fn lemma_value_injective(a: UtxoId, b: UtxoId) {
        crate::types::lemma_utxo_bytes_injective(a, b);
    }

    fn column() -> (c: Column) {
        Column::ContractsLatestUtxo
    }

    fn encode_key(k: &[u8; 32]) -> (r: Vec<u8>) {
        id_bytes(k)
    }

    fn encode_value(v: &UtxoId) -> (r: Vec<u8>) {
        v.encode()
    }

    fn decode_value(b: &[u8]) -> (r: Result<UtxoId, DecodeError>) {
        match UtxoId::decode(b) {
            Ok(u) => Ok(u),
            Err(e) => {
                proof {
                    assert forall|v: UtxoId| utxo_bytes(v) != b@ by {
                        assert(utxo_bytes(v).len() == 33);
                    }
                }
                Err(e)
            },
        }
    }
}

/// Blocks by height: the height as four big-endian bytes, the block's bytes
/// framed with their length.
pub struct FuelBlocks;

impl TableWithStructure for FuelBlocks {
    type Key = BlockHeight;

    type Value = Vec<u8>;

    open spec fn spec_column() -> Column {
        Column::FuelBlocks
    }

    open spec fn key_bytes(k: BlockHeight) -> Seq<u8> {
        be_encode(k.0 as nat, 4)
    }

    open spec fn value_bytes(v: Vec<u8>) -> Seq<u8> {
        framed(v@)
    }

    open spec fn same_value(a: Vec<u8>, b: Vec<u8>) -> bool {
        a@ == b@
    }

    proof fn lemma_value_injective(a: Vec<u8>, b: Vec<u8>) {
        crate::codec::lemma_be_encode_len(a@.len(), 8);
        crate::codec::lemma_be_encode_len(b@.len(), 8);
        assert(a@ =~= framed(a@).subrange(8, framed(a@).len() as int));
        assert(b@ =~= framed(b@).subrange(8, framed(b@).len() as int));
    }

    fn column() -> (c: Column) {
        Column::FuelBlocks
    }

    fn encode_key(k: &BlockHeight) -> (r: Vec<u8>) {
        let e = k.encode();
        vstd::slice::slice_to_vec(e.as_bytes())
    }

    fn encode_value(v: &Vec<u8>) -> (r: Vec<u8>) {
        Structured::encode_bytes(v.as_slice())
    }

    fn decode_value(b: &[u8]) -> (r: Result<Vec<u8>, DecodeError>) {
        Structured::decode_bytes(b)
    }
}

/// Contract code is stored as exactly its bytes, with no framing, where a
/// table of framed byte strings such as [`FuelBlocks`] adds a length prefix
/// to the same payload.
pub proof fn lemma_raw_code_unframed(code: Vec<u8>)
    ensures
        ContractsRawCode::value_bytes(code) == code@,
        FuelBlocks::value_bytes(code).len() == code@.len() + 8,
        FuelBlocks::value_bytes(code).subrange(8, code@.len() as int + 8) == code@,
{
    crate::codec::lemma_be_encode_len(code@.len(), 8);
    assert(FuelBlocks::value_bytes(code).subrange(8, code@.len() as int + 8) =~= code@);
}

/// Whether every key stored in `column` is `n` bytes wide.
pub open spec fn all_keys_width(m: Map<RawKey, Seq<u8>>, column: Column, n: nat) -> bool {
    forall|k: Seq<u8>| m.contains_key((column, k)) ==> k.len() == n
}

/// Whether nothing is stored in `column`.
pub open spec fn column_empty(m: Map<RawKey, Seq<u8>>, column: Column) -> bool {
    forall|k: Seq<u8>| !m.contains_key((column, k))
}

/// Whether `v` is the greatest four-byte key stored in `column`.
pub open spec fn is_latest_version(m: Map<RawKey, Seq<u8>>, column: Column, v: u32) -> bool {
    &&& m.contains_key((column, be_encode(v as nat, 4)))
    &&& forall|k: Seq<u8>| m.contains_key((column, k)) ==> be_decode(k) <= v
}

impl StructuredStorage {
    /// The greatest version stored in a column keyed by four-byte versions;
    /// a key of another width is a decode error, an empty column is
    /// `NotFound`.
    pub fn latest_version(&self, column: Column) -> (r: Result<u32, StorageError>)
        ensures
            !all_keys_width(self@, column, 4) ==> r matches Err(StorageError::Codec(_)),
            all_keys_width(self@, column, 4) && column_empty(self@, column) ==> r == Err::<
                u32,
                StorageError,
            >(StorageError::NotFound),
            all_keys_width(self@, column, 4) && !column_empty(self@, column) ==> (r matches Ok(
                v,
            ) && is_latest_version(self@, column, v)),
    {
        let empty: Vec<u8> = Vec::new();
        let scan = self.storage.prefix_scan(column, empty.as_slice());
        let mut best: Option<u32> = None;
        let mut i: usize = 0;
        while i < scan.len()
            invariant
                i <= scan@.len(),
                i == 0 <==> best is None,
                forall|q: int| 0 <= q < i ==> (#[trigger] scan@[q]).0@.len() == 4,
                best matches Some(b) ==> exists|q: int|
                    0 <= q < i && be_decode((#[trigger] scan@[q]).0@) == b,
                best matches Some(b) ==> forall|q: int|
                    0 <= q < i ==> be_decode((#[trigger] scan@[q]).0@) <= b,
                forall|q: int|
                    0 <= q < scan@.len() ==> self@.contains_key((column, (#[trigger] scan@[q]).0@)),
                forall|k: Seq<u8>|
                    self@.contains_key((column, k)) && has_prefix(k, empty@) ==> exists|q: int|
                        0 <= q < scan@.len() && (#[trigger] scan@[q]).0@ == k,
            decreases scan@.len() - i,
        {
            match decode_u32(scan[i].0.as_slice()) {
                Err(e) => {
                    proof {
                        assert(self@.contains_key((column, scan@[i as int].0@)));
                    }
                    return Err(StorageError::Codec(e));
                },
                Ok(v) => {
                    proof {
                        lemma_be_decode_bound(scan@[i as int].0@);
                        reveal_with_fuel(crate::codec::byte_bound, 5);
                    }
                    let ghost old_best = best;
                    match best {
                        Some(b) => {
                            if v > b {
                                best = Some(v);
                            }
                        },
                        None => {
                            best = Some(v);
                        },
                    }
                    proof {
                        let b = best->Some_0;
                        if b == v {
                            assert(be_decode(scan@[i as int].0@) == b);
                        } else {
                            let q = choose|q: int|
                                0 <= q < i && be_decode((#[trigger] scan@[q]).0@) == old_best->Some_0;
                            assert(be_decode(scan@[q].0@) == b);
                        }
                    }
                },
            }
            i = i + 1;
        }
        proof {
            assert forall|k: Seq<u8>| self@.contains_key((column, k)) implies k.len() == 4 by {
                assert(k.subrange(0, 0) =~= empty@);
                assert(has_prefix(k, empty@));
                let p = choose|p: int| 0 <= p < scan@.len() && (#[trigger] scan@[p]).0@ == k;
            }
        }
        match best {
            None => {
                proof {
                    assert forall|k: Seq<u8>| !self@.contains_key((column, k)) by {
                        if self@.contains_key((column, k)) {
                            assert(k.subrange(0, 0) =~= empty@);
                            assert(has_prefix(k, empty@));
                        }
                    }
                }
                Err(StorageError::NotFound)
            },
            Some(b) => {
                proof {
                    let q = choose|q: int| 0 <= q < i && be_decode((#[trigger] scan@[q]).0@) == b;
                    lemma_be_encode_decode(scan@[q].0@);
                    assert forall|k: Seq<u8>| self@.contains_key((column, k)) implies be_decode(k)
                        <= b by {
                        assert(k.subrange(0, 0) =~= empty@);
                        assert(has_prefix(k, empty@));
                        let p = choose|p: int| 0 <= p < scan@.len() && (#[trigger] scan@[p]).0@ == k;
                    }
                }
                Ok(b)
            },
        }
    }

    /// The latest version of the consensus parameters.
    pub fn latest_consensus_parameters_version(&self) -> (r: Result<u32, StorageError>)
        ensures
            all_keys_width(self@, Column::ConsensusParametersVersions, 4) && !column_empty(
                self@,
                Column::ConsensusParametersVersions,
            ) ==> (r matches Ok(v) && is_latest_version(
                self@,
                Column::ConsensusParametersVersions,
                v,
            )),
            all_keys_width(self@, Column::ConsensusParametersVersions, 4) && column_empty(
                self@,
                Column::ConsensusParametersVersions,
            ) ==> r == Err::<u32, StorageError>(StorageError::NotFound),
            !all_keys_width(self@, Column::ConsensusParametersVersions, 4) ==> r matches Err(
                StorageError::Codec(_),
            ),
    {
        self.latest_version(Column::ConsensusParametersVersions)
    }

    /// The latest version of the state transition bytecode.
    pub fn latest_state_transition_bytecode_version(&self) -> (r: Result<u32, StorageError>)
        ensures
            all_keys_width(self@, Column::StateTransitionBytecodeVersions, 4) && !column_empty(
                self@,
                Column::StateTransitionBytecodeVersions,
            ) ==> (r matches Ok(v) && is_latest_version(
                self@,
                Column::StateTransitionBytecodeVersions,
                v,
            )),
            all_keys_width(self@, Column::StateTransitionBytecodeVersions, 4) && column_empty(
                self@,
                Column::StateTransitionBytecodeVersions,
            ) ==> r == Err::<u32, StorageError>(StorageError::NotFound),
            !all_keys_width(self@, Column::StateTransitionBytecodeVersions, 4) ==> r matches Err(
                StorageError::Codec(_),
            ),
    {
        self.latest_version(Column::StateTransitionBytecodeVersions)
    }

    /// The block at `height`; a missing block is `NotFound`.
    pub fn get_block(&self, height: &BlockHeight) -> (r: Result<Vec<u8>, StorageError>)
        ensures
            !self@.contains_key(raw_key::<FuelBlocks>(*height)) ==> r == Err::<Vec<u8>, StorageError>(
                StorageError::NotFound,
            ),
            self@.contains_key(raw_key::<FuelBlocks>(*height)) && decodable::<FuelBlocks>(
                self@[raw_key::<FuelBlocks>(*height)],
            ) ==> (r matches Ok(b) && framed(b@) == self@[raw_key::<FuelBlocks>(*height)]),
            self@.contains_key(raw_key::<FuelBlocks>(*height)) && !decodable::<FuelBlocks>(
                self@[raw_key::<FuelBlocks>(*height)],
            ) ==> r is Err && r != Err::<Vec<u8>, StorageError>(StorageError::NotFound),
    {
        match self.get::<FuelBlocks>(height) {
            Ok(Some(b)) => Ok(b),
            Ok(None) => Err(StorageError::NotFound),
            Err(e) => Err(e),
        }
    }
}

/// Consensus parameters by version: the version as four big-endian bytes,
/// the parameters' bytes framed with their length.
pub struct ConsensusParametersVersions;

/// State transition bytecode by version, laid out as
/// [`ConsensusParametersVersions`].
pub struct StateTransitionBytecodeVersions;

impl TableWithStructure for ConsensusParametersVersions {
    type Key = u32;

    type Value = Vec<u8>;

    open spec fn spec_column() -> Column {
        Column::ConsensusParametersVersions
    }

    open spec fn key_bytes(k: u32) -> Seq<u8> {
        be_encode(k as nat, 4)
    }

    open spec fn value_bytes(v: Vec<u8>) -> Seq<u8> {
        framed(v@)
    }

    open spec fn same_value(a: Vec<u8>, b: Vec<u8>) -> bool {
        a@ == b@
    }

    proof fn lemma_value_injective(a: Vec<u8>, b: Vec<u8>) {
        FuelBlocks::lemma_value_injective(a, b);
    }

    fn column() -> (c: Column) {
        Column::ConsensusParametersVersions
    }

    fn encode_key(k: &u32) -> (r: Vec<u8>) {
        let e = crate::codec::encode_u32(*k);
        vstd::slice::slice_to_vec(e.as_bytes())
    }

    fn encode_value(v: &Vec<u8>) -> (r: Vec<u8>) {
        Structured::encode_bytes(v.as_slice())
    }

    fn decode_value(b: &[u8]) -> (r: Result<Vec<u8>, DecodeError>) {
        Structured::decode_bytes(b)
    }
}

impl TableWithStructure for StateTransitionBytecodeVersions {
    type Key = u32;

    type Value = Vec<u8>;

    open spec fn spec_column() -> Column {
        Column::StateTransitionBytecodeVersions
    }

    open spec fn key_bytes(k: u32) -> Seq<u8> {
        be_encode(k as nat, 4)
    }

    open spec fn value_bytes(v: Vec<u8>) -> Seq<u8> {
        framed(v@)
    }

    open spec fn same_value(a: Vec<u8>, b: Vec<u8>) -> bool {
        a@ == b@
    }

    proof fn lemma_value_injective(a: Vec<u8>, b: Vec<u8>) {
        FuelBlocks::lemma_value_injective(a, b);
    }

    fn column() -> (c: Column) {
        Column::StateTransitionBytecodeVersions
    }

    fn encode_key(k: &u32) -> (r: Vec<u8>) {
        let e = crate::codec::encode_u32(*k);
        vstd::slice::slice_to_vec(e.as_bytes())
    }

    fn encode_value(v: &Vec<u8>) -> (r: Vec<u8>) {
        Structured::encode_bytes(v.as_slice())
    }

    fn decode_value(b: &[u8]) -> (r: Result<Vec<u8>, DecodeError>) {
        Structured::decode_bytes(b)
    }
}

impl UseStructuredImplementation<ConsensusParametersVersions> for StructuredStorage {

}

impl UseStructuredImplementation<StateTransitionBytecodeVersions> for StructuredStorage {

}

impl UseStructuredImplementation<ContractsRawCode> for StructuredStorage {

}

impl UseStructuredImplementation<ContractsInfo> for StructuredStorage {

}

impl UseStructuredImplementation<ContractsLatestUtxo> for StructuredStorage {

}

impl UseStructuredImplementation<FuelBlocks> for StructuredStorage {

}

} // verus!
