//! Codecs between domain values and bytes.

use vstd::arithmetic::div_mod::{lemma_fundamental_div_mod, lemma_fundamental_div_mod_converse};
use vstd::prelude::*;

verus! {

/// Why a byte sequence could not be decoded.
#[derive(Debug, Clone, Copy, PartialEq, Eq, Structural)]
pub enum DecodeError {
    /// The input did not have the width that the codec needs.
    WrongLength { expected: usize, found: usize },
    /// A length prefix announced more or fewer bytes than followed it.
    BadFraming,
}

/// `n` big-endian bytes of `v` (the low `n` bytes when `v` is wider).
pub open spec fn be_encode(v: nat, n: nat) -> Seq<u8>
    decreases n,
{
    if n == 0 {
        Seq::empty()
    } else {
        be_encode(v / 256, (n - 1) as nat).push((v % 256) as u8)
    }
}

/// The number that the big-endian bytes `s` spell.
pub open spec fn be_decode(s: Seq<u8>) -> nat
    decreases s.len(),
{
    if s.len() == 0 {
        0
    } else {
        be_decode(s.drop_last()) * 256 + s.last() as nat
    }
}

/// The number of values that `n` bytes can hold: 256 to the power `n`.
pub open spec fn byte_bound(n: nat) -> nat
    decreases n,
{
    if n == 0 {
        1
    } else {
        256 * byte_bound((n - 1) as nat)
    }
}

pub proof fn lemma_byte_bound_mono(a: nat, b: nat)
    requires
        a <= b,
    ensures
        1 <= byte_bound(a) <= byte_bound(b),
    decreases b,
{
    if b > 0 {
        if a < b {
            lemma_byte_bound_mono(a, (b - 1) as nat);
        } else {
            lemma_byte_bound_mono((a - 1) as nat, (b - 1) as nat);
        }
    }
}

pub proof fn lemma_be_encode_len(v: nat, n: nat)
    ensures
        be_encode(v, n).len() == n,
    decreases n,
{
    if n > 0 {
        lemma_be_encode_len(v / 256, (n - 1) as nat);
    }
}

pub proof fn lemma_be_decode_bound(s: Seq<u8>)
    ensures
        be_decode(s) < byte_bound(s.len()),
    decreases s.len(),
{
    if s.len() > 0 {
        let d = be_decode(s.drop_last());
        let b = byte_bound(s.drop_last().len());
        lemma_be_decode_bound(s.drop_last());
        assert(d * 256 + (s.last() as nat) < b * 256) by (nonlinear_arith)
            requires
                d < b,
                s.last() < 256,
        ;
    }
}

/// Decoding the bytes of a value that fits gives the value back.
pub proof fn lemma_be_decode_encode(v: nat, n: nat)
    requires
        v < byte_bound(n),
    ensures
        be_decode(be_encode(v, n)) == v,
    decreases n,
{
    lemma_be_encode_len(v, n);
    if n > 0 {
        let m = byte_bound((n - 1) as nat);
        lemma_fundamental_div_mod(v as int, 256);
        assert(v / 256 < m) by (nonlinear_arith)
            requires
                v < 256 * m,
                v == 256 * (v / 256) + v % 256,
                0 <= v % 256,
        ;
        lemma_be_decode_encode(v / 256, (n - 1) as nat);
        let s = be_encode(v, n);
        assert(s.drop_last() =~= be_encode(v / 256, (n - 1) as nat));
    }
}

/// Encoding the number that bytes spell, at their width, gives the bytes back.
pub proof fn lemma_be_encode_decode(s: Seq<u8>)
    ensures
        be_encode(be_decode(s), s.len()) == s,
    decreases s.len(),
{
    if s.len() > 0 {
        let d = be_decode(s.drop_last());
        let v = d * 256 + s.last() as nat;
        lemma_fundamental_div_mod_converse(v as int, 256, d as int, s.last() as int);
        lemma_be_encode_decode(s.drop_last());
        assert(be_encode(v, s.len()) =~= s);
    } else {
        assert(be_encode(be_decode(s), 0) =~= s);
    }
}

/// The big-endian bytes of `v` at width `n`, built the way `be_encode` reads.
fn encode_be(v: u128, n: usize) -> (r: Vec<u8>)
    requires
        n <= 16,
    ensures
        r@ == be_encode(v as nat, n as nat),
    decreases n,
{
    if n == 0 {
        Vec::new()
    } else {
        let mut r = encode_be(v / 256, n - 1);
        r.push((v % 256) as u8);
        r
    }
}

/// The number that at most sixteen big-endian bytes spell.
fn decode_be(bytes: &[u8]) -> (r: u128)
    requires
        bytes@.len() <= 16,
    ensures
        r as nat == be_decode(bytes@),
{
    let mut acc: u128 = 0;
    let mut i: usize = 0;
    while i < bytes.len()
        invariant
            i <= bytes@.len() <= 16,
            acc as nat == be_decode(bytes@.subrange(0, i as int)),
        decreases bytes@.len() - i,
    {
        proof {
            let prefix = bytes@.subrange(0, i as int + 1);
            assert(prefix.drop_last() =~= bytes@.subrange(0, i as int));
            lemma_be_decode_bound(prefix.drop_last());
            lemma_byte_bound_mono(prefix.drop_last().len(), 15);
            assert(byte_bound(15) == 0x1000000000000000000000000000000) by {
                reveal_with_fuel(byte_bound, 16);
            }
        }
        acc = acc * 256 + bytes[i] as u128;
        i = i + 1;
    }
    assert(bytes@.subrange(0, i as int) =~= bytes@);
    acc
}


/// Marker for the fixed-width big-endian codec of `SIZE` bytes.
pub struct Primitive<const SIZE: usize>;

/// The `SIZE` bytes that [`Primitive`] produced for one value.
pub struct PrimitiveEncoder<const SIZE: usize> {
    bytes: Vec<u8>,
}

impl<const SIZE: usize> View for PrimitiveEncoder<SIZE> {
    type V = Seq<u8>;

    closed spec fn view(&self) -> Seq<u8> {
        self.bytes@
    }
}

impl<const SIZE: usize> PrimitiveEncoder<SIZE> {
    /// The encoded bytes, borrowed.
    pub fn as_bytes(&self) -> (r: &[u8])
        ensures
            r@ == self@,
    {
        self.bytes.as_slice()
    }
}

impl<const SIZE: usize> Primitive<SIZE> {
    /// The `SIZE` big-endian bytes of `value`.
    pub fn encode(value: u128) -> (r: PrimitiveEncoder<SIZE>)
        requires
            SIZE <= 16,
        ensures
            r@ == be_encode(value as nat, SIZE as nat),
            r@.len() == SIZE,
    {
        proof {
            lemma_be_encode_len(value as nat, SIZE as nat);
        }
        PrimitiveEncoder { bytes: encode_be(value, SIZE) }
    }

    /// The number that exactly `SIZE` big-endian bytes spell; any other
    /// length is refused.
    pub fn decode(bytes: &[u8]) -> (r: Result<u128, DecodeError>)
        requires
            SIZE <= 16,
        ensures
            bytes@.len() == SIZE ==> r == Ok::<u128, DecodeError>(be_decode(bytes@) as u128),
            bytes@.len() != SIZE ==> r == Err::<u128, DecodeError>(
                DecodeError::WrongLength { expected: SIZE, found: bytes@.len() as usize },
            ),
    {
        if bytes.len() != SIZE {
            Err(DecodeError::WrongLength { expected: SIZE, found: bytes.len() })
        } else {
            Ok(decode_be(bytes))
        }
    }
}

/// `u8` as 1 big-endian byte.
pub fn encode_u8(value: u8) -> (r: PrimitiveEncoder<1>)
    ensures
        r@ == be_encode(value as nat, 1),
{
    Primitive::<1>::encode(value as u128)
}

/// `u8` from exactly 1 big-endian byte.
pub fn decode_u8(bytes: &[u8]) -> (r: Result<u8, DecodeError>)
    ensures
        bytes@.len() == 1 ==> r == Ok::<u8, DecodeError>(be_decode(bytes@) as u8),
        bytes@.len() != 1 ==> r == Err::<u8, DecodeError>(
            DecodeError::WrongLength { expected: 1, found: bytes@.len() as usize },
        ),
{
    match Primitive::<1>::decode(bytes) {
        Ok(v) => {
            proof {
                lemma_be_decode_bound(bytes@);
                reveal_with_fuel(byte_bound, 2);
            }
            Ok(v as u8)
        }
        Err(e) => Err(e),
    }
}

/// `u16` as 2 big-endian bytes.
pub fn encode_u16(value: u16) -> (r: PrimitiveEncoder<2>)
    ensures
        r@ == be_encode(value as nat, 2),
{
    Primitive::<2>::encode(value as u128)
}

/// `u16` from exactly 2 big-endian bytes.
pub fn decode_u16(bytes: &[u8]) -> (r: Result<u16, DecodeError>)
    ensures
        bytes@.len() == 2 ==> r == Ok::<u16, DecodeError>(be_decode(bytes@) as u16),
        bytes@.len() != 2 ==> r == Err::<u16, DecodeError>(
            DecodeError::WrongLength { expected: 2, found: bytes@.len() as usize },
        ),
{
    match Primitive::<2>::decode(bytes) {
        Ok(v) => {
            proof {
                lemma_be_decode_bound(bytes@);
                reveal_with_fuel(byte_bound, 3);
            }
            Ok(v as u16)
        }
        Err(e) => Err(e),
    }
}

/// `u32` as 4 big-endian bytes.
pub fn encode_u32(value: u32) -> (r: PrimitiveEncoder<4>)
    ensures
        r@ == be_encode(value as nat, 4),
{
    Primitive::<4>::encode(value as u128)
}

/// `u32` from exactly 4 big-endian bytes.
pub fn decode_u32(bytes: &[u8]) -> (r: Result<u32, DecodeError>)
    ensures
        bytes@.len() == 4 ==> r == Ok::<u32, DecodeError>(be_decode(bytes@) as u32),
        bytes@.len() != 4 ==> r == Err::<u32, DecodeError>(
            DecodeError::WrongLength { expected: 4, found: bytes@.len() as usize },
        ),
{
    match Primitive::<4>::decode(bytes) {
        Ok(v) => {
            proof {
                lemma_be_decode_bound(bytes@);
                reveal_with_fuel(byte_bound, 5);
            }
            Ok(v as u32)
        }
        Err(e) => Err(e),
    }
}

/// `u64` as 8 big-endian bytes.
pub fn encode_u64(value: u64) -> (r: PrimitiveEncoder<8>)
    ensures
        r@ == be_encode(value as nat, 8),
{
    Primitive::<8>::encode(value as u128)
}

/// `u64` from exactly 8 big-endian bytes.
pub fn decode_u64(bytes: &[u8]) -> (r: Result<u64, DecodeError>)
    ensures
        bytes@.len() == 8 ==> r == Ok::<u64, DecodeError>(be_decode(bytes@) as u64),
        bytes@.len() != 8 ==> r == Err::<u64, DecodeError>(
            DecodeError::WrongLength { expected: 8, found: bytes@.len() as usize },
        ),
{
    match Primitive::<8>::decode(bytes) {
        Ok(v) => {
            proof {
                lemma_be_decode_bound(bytes@);
                reveal_with_fuel(byte_bound, 9);
            }
            Ok(v as u64)
        }
        Err(e) => Err(e),
    }
}

/// `u128` as 16 big-endian bytes.
pub fn encode_u128(value: u128) -> (r: PrimitiveEncoder<16>)
    ensures
        r@ == be_encode(value as nat, 16),
{
    Primitive::<16>::encode(value as u128)
}

/// `u128` from exactly 16 big-endian bytes.
pub fn decode_u128(bytes: &[u8]) -> (r: Result<u128, DecodeError>)
    ensures
        bytes@.len() == 16 ==> r == Ok::<u128, DecodeError>(be_decode(bytes@) as u128),
        bytes@.len() != 16 ==> r == Err::<u128, DecodeError>(
            DecodeError::WrongLength { expected: 16, found: bytes@.len() as usize },
        ),
{
    match Primitive::<16>::decode(bytes) {
        Ok(v) => {
            proof {
                lemma_be_decode_bound(bytes@);
                reveal_with_fuel(byte_bound, 17);
            }
            Ok(v as u128)
        }
        Err(e) => Err(e),
    }
}

/// The pass-through codec: bytes are stored exactly as given.
pub struct Raw;

impl Raw {
    /// The bytes themselves.
    pub fn encode(bytes: &[u8]) -> (r: Vec<u8>)
        ensures
            r@ == bytes@,
    {
        vstd::slice::slice_to_vec(bytes)
    }

    /// The bytes themselves; any length is accepted.
    pub fn decode(bytes: &[u8]) -> (r: Vec<u8>)
        ensures
            r@ == bytes@,
    {
        vstd::slice::slice_to_vec(bytes)
    }
}

/// Width of the length prefix of [`Structured`] byte strings.
pub const FRAME_PREFIX_LEN: usize = 8;

/// A byte string framed by [`Structured`]: its length as eight big-endian
/// bytes, then the bytes.
pub open spec fn framed(b: Seq<u8>) -> Seq<u8> {
    be_encode(b.len(), 8) + b
}

/// The self-describing codec for composite values: fixed-width fields in
/// order, byte strings with a length prefix.
pub struct Structured;

impl Structured {
    /// `bytes` with its length in front.
    pub fn encode_bytes(bytes: &[u8]) -> (r: Vec<u8>)
        ensures
            r@ == framed(bytes@),
    {
        let enc = encode_u64(bytes.len() as u64);
        let mut r = vstd::slice::slice_to_vec(enc.as_bytes());
        let mut i: usize = 0;
        while i < bytes.len()
            invariant
                i <= bytes@.len(),
                r@ == be_encode(bytes@.len(), 8) + bytes@.subrange(0, i as int),
            decreases bytes@.len() - i,
        {
            r.push(bytes[i]);
            i = i + 1;
            assert(r@ =~= be_encode(bytes@.len(), 8) + bytes@.subrange(0, i as int));
        }
        assert(bytes@.subrange(0, i as int) =~= bytes@);
        r
    }

    /// The byte string that `bytes` frame; a short input, or a prefix that
    /// does not give the length of what follows, is refused.
    pub fn decode_bytes(bytes: &[u8]) -> (r: Result<Vec<u8>, DecodeError>)
        ensures
            match r {
                Ok(v) => framed(v@) == bytes@,
                Err(_) => forall|v: Seq<u8>| framed(v) != bytes@,
            },
    {
        if bytes.len() < FRAME_PREFIX_LEN {
            proof {
                assert forall|v: Seq<u8>| framed(v) != bytes@ by {
                    lemma_be_encode_len(v.len(), 8);
                }
            }
            return Err(DecodeError::WrongLength { expected: FRAME_PREFIX_LEN, found: bytes.len() });
        }
        let prefix = vstd::slice::slice_subrange(bytes, 0, FRAME_PREFIX_LEN);
        let n = decode_be(prefix);
        let rest = vstd::slice::slice_subrange(bytes, FRAME_PREFIX_LEN, bytes.len());
        if n != rest.len() as u128 {
            proof {
                assert forall|v: Seq<u8>| framed(v) != bytes@ by {
                    if framed(v) == bytes@ {
                        lemma_be_encode_len(v.len(), 8);
                        assert(prefix@ =~= framed(v).subrange(0, 8));
                        assert(framed(v).subrange(0, 8) =~= be_encode(v.len(), 8));
                        assert(rest@ =~= framed(v).subrange(8, framed(v).len() as int));
                        assert(framed(v).subrange(8, framed(v).len() as int) =~= v);
                        assert(v.len() < 0x1_0000_0000_0000_0000);
                        reveal_with_fuel(byte_bound, 9);
                        lemma_be_decode_encode(v.len(), 8);
                    }
                }
            }
            return Err(DecodeError::BadFraming);
        }
        proof {
            lemma_be_encode_decode(prefix@);
            assert(framed(rest@) =~= bytes@);
        }
        Ok(vstd::slice::slice_to_vec(rest))
    }
}

} // verus!
