//! Domain values that the tables are keyed by or hold.

use crate::codec::{
    be_decode, be_encode, decode_u32, decode_u64, encode_u32, encode_u64, DecodeError,
    PrimitiveEncoder,
};
use vstd::prelude::*;

verus! {

/// Width of a transaction id, a contract id and a 32-byte digest.
pub const ID_LEN: usize = 32;

/// Width of an encoded [`UtxoId`]: the transaction id and one index byte.
pub const UTXO_ID_LEN: usize = 33;

/// Height of a block of this chain.
#[derive(Debug, Clone, Copy, PartialEq, Eq, Structural)]
pub struct BlockHeight(pub u32);

/// Height of a block of the data-availability layer.
#[derive(Debug, Clone, Copy, PartialEq, Eq, Structural)]
pub struct DaBlockHeight(pub u64);

/// One output of one transaction.
#[derive(Debug, Clone, Copy, PartialEq, Eq)]
pub struct UtxoId {
    pub tx_id: [u8; 32],
    pub output_index: u8,
}

/// The 33 bytes that stand for a [`UtxoId`]: its transaction id, then its index.
pub open spec fn utxo_bytes(u: UtxoId) -> Seq<u8> {
    u.tx_id@.push(u.output_index)
}

impl BlockHeight {
    /// Four big-endian bytes.
    pub fn encode(&self) -> (r: PrimitiveEncoder<4>)
        ensures
            r@ == be_encode(self.0 as nat, 4),
    {
        encode_u32(self.0)
    }

    /// From exactly four big-endian bytes.
    pub fn decode(bytes: &[u8]) -> (r: Result<BlockHeight, DecodeError>)
        ensures
            bytes@.len() == 4 ==> r == Ok::<BlockHeight, DecodeError>(
                BlockHeight(be_decode(bytes@) as u32),
            ),
            bytes@.len() != 4 ==> r is Err,
    {
        match decode_u32(bytes) {
            Ok(v) => Ok(BlockHeight(v)),
            Err(e) => Err(e),
        }
    }
}

impl DaBlockHeight {
    /// Eight big-endian bytes.
    pub fn encode(&self) -> (r: PrimitiveEncoder<8>)
        ensures
            r@ == be_encode(self.0 as nat, 8),
    {
        encode_u64(self.0)
    }

    /// From exactly eight big-endian bytes.
    pub fn decode(bytes: &[u8]) -> (r: Result<DaBlockHeight, DecodeError>)
        ensures
            bytes@.len() == 8 ==> r == Ok::<DaBlockHeight, DecodeError>(
                DaBlockHeight(be_decode(bytes@) as u64),
            ),
            bytes@.len() != 8 ==> r is Err,
    {
        match decode_u64(bytes) {
            Ok(v) => Ok(DaBlockHeight(v)),
            Err(e) => Err(e),
        }
    }
}

/// The first 32 bytes of `bytes` as an array.
pub fn id_from_prefix(bytes: &[u8]) -> (r: [u8; 32])
    requires
        bytes@.len() >= ID_LEN,
    ensures
        r@ == bytes@.subrange(0, 32),
{
    let mut a: [u8; 32] = [0u8; 32];
    let mut i: usize = 0;
    while i < ID_LEN
        invariant
            i <= ID_LEN <= bytes@.len(),
            a@.len() == 32,
            forall|j: int| 0 <= j < i ==> a@[j] == bytes@[j],
        decreases ID_LEN - i,
    {
        a[i] = bytes[i];
        i = i + 1;
    }
    assert(a@ =~= bytes@.subrange(0, 32));
    a
}

/// The 33 bytes of a [`UtxoId`]: transaction id, then output index.
pub fn utxo_id_to_bytes(utxo_id: &UtxoId) -> (r: [u8; 33])
    ensures
        r@ == utxo_bytes(*utxo_id),
{
    let mut a: [u8; 33] = [0u8; 33];
    let mut i: usize = 0;
    while i < ID_LEN
        invariant
            i <= ID_LEN,
            a@.len() == 33,
            forall|j: int| 0 <= j < i ==> a@[j] == utxo_id.tx_id@[j],
        decreases ID_LEN - i,
    {
        a[i] = utxo_id.tx_id[i];
        i = i + 1;
    }
    a[ID_LEN] = utxo_id.output_index;
    assert(a@ =~= utxo_bytes(*utxo_id));
    a
}

impl UtxoId {
    /// The 33 bytes of [`utxo_id_to_bytes`], owned.
    pub fn encode(&self) -> (r: Vec<u8>)
        ensures
            r@ == utxo_bytes(*self),
    {
        let a = utxo_id_to_bytes(self);
        vstd::slice::slice_to_vec(a.as_slice())
    }

    /// From exactly 33 bytes: transaction id, then output index.
    pub fn decode(bytes: &[u8]) -> (r: Result<UtxoId, DecodeError>)
        ensures
            bytes@.len() == UTXO_ID_LEN ==> (r matches Ok(u) && utxo_bytes(u) == bytes@),
            bytes@.len() != UTXO_ID_LEN ==> r == Err::<UtxoId, DecodeError>(
                DecodeError::WrongLength { expected: UTXO_ID_LEN, found: bytes@.len() as usize },
            ),
    {
        if bytes.len() != UTXO_ID_LEN {
            return Err(DecodeError::WrongLength { expected: UTXO_ID_LEN, found: bytes.len() });
        }
        let tx_id = id_from_prefix(bytes);
        let u = UtxoId { tx_id, output_index: bytes[ID_LEN] };
        assert(utxo_bytes(u) =~= bytes@);
        Ok(u)
    }
}

/// Distinct utxo ids have distinct bytes, so the bytes decode to the id.
pub proof fn lemma_utxo_bytes_injective(a: UtxoId, b: UtxoId)
    requires
        utxo_bytes(a) == utxo_bytes(b),
    ensures
        a == b,
{
    assert(a.tx_id@ =~= utxo_bytes(a).drop_last());
    assert(b.tx_id@ =~= utxo_bytes(b).drop_last());
    assert(a.tx_id@ == b.tx_id@);
    assert(utxo_bytes(a).last() == a.output_index);
    assert(utxo_bytes(b).last() == b.output_index);
    assert(a.tx_id =~= b.tx_id);
}

} // verus!
