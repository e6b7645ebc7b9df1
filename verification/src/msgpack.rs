//! A message-pack encoder and decoder for the blob payloads.
//!
//! Every payload this crate persists is message-pack with named fields.  The
//! encoder always emits one canonical form for each value: `uint 64` for
//! integers, `bin 32` for byte strings, `fixstr` for field names, `fixmap`
//! and `fixarray` for structs and pairs, and `array 32` for variable-length
//! collections.  The decoder accepts exactly the canonical forms, which is
//! all well-formed replicas ever write.

use vstd::prelude::*;

use crate::error::Error;

verus! {

// ---------------------------------------------------------------------------
// Big-endian integers
// ---------------------------------------------------------------------------

/// The byte at position `i` of the 8-byte big-endian encoding of `v`.
pub open spec fn be_byte64(v: u64, i: int) -> u8 {
    (v >> (((7 - i) * 8) as u64)) as u8
}

/// The 8-byte big-endian encoding of `v`.
pub open spec fn u64_be_bytes(v: u64) -> Seq<u8> {
    Seq::new(8, |i: int| be_byte64(v, i))
}

/// The value read back from an 8-byte big-endian encoding.
pub open spec fn u64_from_be(s: Seq<u8>) -> u64
    recommends
        s.len() == 8,
{
    ((s[0] as u64) << 56) | ((s[1] as u64) << 48) | ((s[2] as u64) << 40) | ((s[3] as u64) << 32)
        | ((s[4] as u64) << 24) | ((s[5] as u64) << 16) | ((s[6] as u64) << 8) | (s[7] as u64)
}

/// Reading back the big-endian encoding of `v` yields `v` again.
pub proof fn lemma_u64_be_round_trip(v: u64)
    ensures
        u64_from_be(u64_be_bytes(v)) == v,
{
    assert(((((v >> 56) as u8) as u64) << 56) | ((((v >> 48) as u8) as u64) << 48)
        | ((((v >> 40) as u8) as u64) << 40) | ((((v >> 32) as u8) as u64) << 32)
        | ((((v >> 24) as u8) as u64) << 24) | ((((v >> 16) as u8) as u64) << 16)
        | ((((v >> 8) as u8) as u64) << 8) | ((v as u8) as u64) == v) by (bit_vector);
    assert((v >> ((0 * 8) as u64)) as u8 == v as u8) by (bit_vector);
}

/// The byte at position `i` of the 4-byte big-endian encoding of `v`.
pub open spec fn be_byte32(v: u32, i: int) -> u8 {
    (v >> (((3 - i) * 8) as u32)) as u8
}

/// The 4-byte big-endian encoding of `v`.
pub open spec fn u32_be_bytes(v: u32) -> Seq<u8> {
    Seq::new(4, |i: int| be_byte32(v, i))
}

/// The value read back from a 4-byte big-endian encoding.
pub open spec fn u32_from_be(s: Seq<u8>) -> u32
    recommends
        s.len() == 4,
{
    ((s[0] as u32) << 24) | ((s[1] as u32) << 16) | ((s[2] as u32) << 8) | (s[3] as u32)
}

/// Reading back the big-endian encoding of `v` yields `v` again.
pub proof fn lemma_u32_be_round_trip(v: u32)
    ensures
        u32_from_be(u32_be_bytes(v)) == v,
{
    assert(((((v >> 24) as u8) as u32) << 24) | ((((v >> 16) as u8) as u32) << 16)
        | ((((v >> 8) as u8) as u32) << 8) | ((v as u8) as u32) == v) by (bit_vector);
    assert((v >> ((0 * 8) as u32)) as u8 == v as u8) by (bit_vector);
}

/// Appends the 8-byte big-endian encoding of `v`.
pub fn push_u64_be(out: &mut Vec<u8>, v: u64)
    ensures
        final(out)@ == old(out)@ + u64_be_bytes(v),
{
    let ghost base = out@;
    let mut i: usize = 0;
    while i < 8
        invariant
            i <= 8,
            out@.len() == base.len() + i,
            out@ == base + u64_be_bytes(v).take(i as int),
        decreases 8 - i,
    {
        let shift: u64 = (56 - 8 * (i as u64));
        out.push((v >> shift) as u8);
        proof {
            assert(out@ =~= base + u64_be_bytes(v).take(i + 1));
        }
        i = i + 1;
    }
    proof {
        assert(u64_be_bytes(v).take(8) =~= u64_be_bytes(v));
    }
}

/// Appends the 4-byte big-endian encoding of `v`.
pub fn push_u32_be(out: &mut Vec<u8>, v: u32)
    ensures
        final(out)@ == old(out)@ + u32_be_bytes(v),
{
    let ghost base = out@;
    let mut i: usize = 0;
    while i < 4
        invariant
            i <= 4,
            out@.len() == base.len() + i,
            out@ == base + u32_be_bytes(v).take(i as int),
        decreases 4 - i,
    {
        let shift: u32 = (24 - 8 * (i as u32));
        out.push((v >> shift) as u8);
        proof {
            assert(out@ =~= base + u32_be_bytes(v).take(i + 1));
        }
        i = i + 1;
    }
    proof {
        assert(u32_be_bytes(v).take(4) =~= u32_be_bytes(v));
    }
}

// ---------------------------------------------------------------------------
// Canonical message-pack forms
// ---------------------------------------------------------------------------

/// Tag byte of a `uint 64` value.
pub const TAG_UINT64: u8 = 0xcf;

/// Tag byte of a `bin 32` value.
pub const TAG_BIN32: u8 = 0xc6;

/// Tag byte of an `array 32` value.
pub const TAG_ARRAY32: u8 = 0xdd;

/// The canonical encoding of an unsigned integer: `uint 64`.
pub open spec fn enc_uint_spec(v: u64) -> Seq<u8> {
    seq![TAG_UINT64] + u64_be_bytes(v)
}

/// The canonical encoding of a byte string: `bin 32`.
pub open spec fn enc_bin_spec(b: Seq<u8>) -> Seq<u8>
    recommends
        b.len() <= u32::MAX,
{
    seq![TAG_BIN32] + u32_be_bytes(b.len() as u32) + b
}

/// The canonical header of a variable-length collection: `array 32`.
pub open spec fn enc_array_header_spec(n: u32) -> Seq<u8> {
    seq![TAG_ARRAY32] + u32_be_bytes(n)
}

/// The header of a fixed, small collection: `fixarray`.
pub open spec fn enc_fixarray_header_spec(n: u8) -> Seq<u8>
    recommends
        n < 16,
{
    seq![(0x90 + n) as u8]
}

/// The header of a struct with a fixed, small field count: `fixmap`.
pub open spec fn enc_fixmap_header_spec(n: u8) -> Seq<u8>
    recommends
        n < 16,
{
    seq![(0x80 + n) as u8]
}

/// The encoding of a short field name: `fixstr`.
pub open spec fn enc_fixstr_spec(name: Seq<u8>) -> Seq<u8>
    recommends
        name.len() < 32,
{
    seq![(0xa0 + name.len()) as u8] + name
}

/// Decodes a canonical unsigned integer at `pos`.
pub open spec fn dec_uint_spec(s: Seq<u8>, pos: int) -> Option<(u64, int)> {
    if 0 <= pos && pos + 9 <= s.len() && s[pos] == TAG_UINT64 {
        Some((u64_from_be(s.subrange(pos + 1, pos + 9)), pos + 9))
    } else {
        None
    }
}

/// Decodes a canonical byte string at `pos`.
pub open spec fn dec_bin_spec(s: Seq<u8>, pos: int) -> Option<(Seq<u8>, int)> {
    if 0 <= pos && pos + 5 <= s.len() && s[pos] == TAG_BIN32 {
        let n = u32_from_be(s.subrange(pos + 1, pos + 5)) as int;
        if pos + 5 + n <= s.len() {
            Some((s.subrange(pos + 5, pos + 5 + n), pos + 5 + n))
        } else {
            None
        }
    } else {
        None
    }
}

/// Matches the exact bytes `expected` at `pos`, yielding the position after
/// them.  Field names and fixed headers are decoded this way.
pub open spec fn dec_expect_spec(s: Seq<u8>, pos: int, expected: Seq<u8>) -> Option<int> {
    if 0 <= pos && pos + expected.len() <= s.len() && s.subrange(pos, pos + expected.len())
        == expected {
        Some(pos + expected.len())
    } else {
        None
    }
}

/// Decodes a canonical collection header at `pos`.
pub open spec fn dec_array_header_spec(s: Seq<u8>, pos: int) -> Option<(u32, int)> {
    if 0 <= pos && pos + 5 <= s.len() && s[pos] == TAG_ARRAY32 {
        Some((u32_from_be(s.subrange(pos + 1, pos + 5)), pos + 5))
    } else {
        None
    }
}

// ---------------------------------------------------------------------------
// Round-trip lemmas for the primitive forms
// ---------------------------------------------------------------------------

/// An encoded integer embedded in `s` decodes to itself.
pub proof fn lemma_enc_dec_uint(s: Seq<u8>, pos: int, v: u64)
    requires
        0 <= pos,
        pos + 9 <= s.len(),
        s.subrange(pos, pos + 9) == enc_uint_spec(v),
    ensures
        dec_uint_spec(s, pos) == Some((v, pos + 9)),
{
    assert(s[pos] == enc_uint_spec(v)[0]);
    assert(s.subrange(pos + 1, pos + 9) =~= enc_uint_spec(v).subrange(1, 9));
    assert(enc_uint_spec(v).subrange(1, 9) =~= u64_be_bytes(v));
    lemma_u64_be_round_trip(v);
}

/// An encoded byte string embedded in `s` decodes to itself.
pub proof fn lemma_enc_dec_bin(s: Seq<u8>, pos: int, b: Seq<u8>)
    requires
        0 <= pos,
        b.len() <= u32::MAX,
        pos + 5 + b.len() <= s.len(),
        s.subrange(pos, pos + 5 + b.len()) == enc_bin_spec(b),
    ensures
        dec_bin_spec(s, pos) == Some((b, pos + 5 + b.len())),
{
    let e = enc_bin_spec(b);
    assert(s[pos] == e[0]);
    assert(s.subrange(pos + 1, pos + 5) =~= e.subrange(1, 5));
    assert(e.subrange(1, 5) =~= u32_be_bytes(b.len() as u32));
    lemma_u32_be_round_trip(b.len() as u32);
    assert(u32_from_be(s.subrange(pos + 1, pos + 5)) == b.len());
    assert(s.subrange(pos + 5, pos + 5 + b.len()) =~= e.subrange(5, 5 + b.len() as int));
    assert(e.subrange(5, 5 + b.len() as int) =~= b);
}

/// Exact bytes embedded in `s` match themselves.
pub proof fn lemma_enc_dec_expect(s: Seq<u8>, pos: int, expected: Seq<u8>)
    requires
        0 <= pos,
        pos + expected.len() <= s.len(),
        s.subrange(pos, pos + expected.len()) == expected,
    ensures
        dec_expect_spec(s, pos, expected) == Some((pos + expected.len()) as int),
{
}

/// An encoded collection header embedded in `s` decodes to itself.
pub proof fn lemma_enc_dec_array_header(s: Seq<u8>, pos: int, n: u32)
    requires
        0 <= pos,
        pos + 5 <= s.len(),
        s.subrange(pos, pos + 5) == enc_array_header_spec(n),
    ensures
        dec_array_header_spec(s, pos) == Some((n, pos + 5)),
{
    assert(s[pos] == enc_array_header_spec(n)[0]);
    assert(s.subrange(pos + 1, pos + 5) =~= enc_array_header_spec(n).subrange(1, 5));
    assert(enc_array_header_spec(n).subrange(1, 5) =~= u32_be_bytes(n));
    lemma_u32_be_round_trip(n);
}

// ---------------------------------------------------------------------------
// Executable encoders
// ---------------------------------------------------------------------------

/// Appends the canonical encoding of `v`.
pub fn enc_uint(out: &mut Vec<u8>, v: u64)
    ensures
        final(out)@ == old(out)@ + enc_uint_spec(v),
{
    out.push(TAG_UINT64);
    push_u64_be(out, v);
    proof {
        assert(out@ =~= old(out)@ + enc_uint_spec(v));
    }
}

/// Appends the canonical encoding of the byte string `b`.
pub fn enc_bin(out: &mut Vec<u8>, b: &[u8])
    requires
        b@.len() <= u32::MAX,
    ensures
        final(out)@ == old(out)@ + enc_bin_spec(b@),
{
    out.push(TAG_BIN32);
    push_u32_be(out, b.len() as u32);
    let mut tail = vstd::slice::slice_to_vec(b);
    out.append(&mut tail);
    proof {
        assert(out@ =~= old(out)@ + enc_bin_spec(b@));
    }
}

/// Appends the canonical collection header for `n` elements.
pub fn enc_array_header(out: &mut Vec<u8>, n: u32)
    ensures
        final(out)@ == old(out)@ + enc_array_header_spec(n),
{
    out.push(TAG_ARRAY32);
    push_u32_be(out, n);
    proof {
        assert(out@ =~= old(out)@ + enc_array_header_spec(n));
    }
}

/// Appends the given bytes verbatim: pre-encoded headers and field names.
pub fn enc_raw(out: &mut Vec<u8>, b: &[u8])
    ensures
        final(out)@ == old(out)@ + b@,
{
    let mut tail = vstd::slice::slice_to_vec(b);
    out.append(&mut tail);
}

// ---------------------------------------------------------------------------
// Executable decoders
// ---------------------------------------------------------------------------

/// Decodes a canonical unsigned integer at `pos`.
pub fn dec_uint(s: &[u8], pos: usize) -> (r: Result<(u64, usize), Error>)
    ensures
        match r {
            Ok((v, end)) => dec_uint_spec(s@, pos as int) == Some((v, end as int)),
            Err(e) => dec_uint_spec(s@, pos as int) is None && e is Serialization,
        },
{
    if pos >= s.len() || s.len() - pos < 9 {
        return Err(Error::Serialization);
    }
    if *vstd::slice::slice_index_get(s, pos) != TAG_UINT64 {
        return Err(Error::Serialization);
    }
    let bytes = vstd::slice::slice_subrange(s, pos + 1, pos + 9);
    let v = ((bytes[0] as u64) << 56) | ((bytes[1] as u64) << 48) | ((bytes[2] as u64) << 40)
        | ((bytes[3] as u64) << 32) | ((bytes[4] as u64) << 24) | ((bytes[5] as u64) << 16)
        | ((bytes[6] as u64) << 8) | (bytes[7] as u64);
    Ok((v, pos + 9))
}

/// Decodes a canonical byte string at `pos`.
pub fn dec_bin(s: &[u8], pos: usize) -> (r: Result<(Vec<u8>, usize), Error>)
    ensures
        match r {
            Ok((b, end)) => dec_bin_spec(s@, pos as int) matches Some((bs, e)) && bs == b@ && e
                == end as int,
            Err(e) => dec_bin_spec(s@, pos as int) is None && e is Serialization,
        },
{
    if pos >= s.len() || s.len() - pos < 5 {
        return Err(Error::Serialization);
    }
    if *vstd::slice::slice_index_get(s, pos) != TAG_BIN32 {
        return Err(Error::Serialization);
    }
    let lb = vstd::slice::slice_subrange(s, pos + 1, pos + 5);
    let n32 = ((lb[0] as u32) << 24) | ((lb[1] as u32) << 16) | ((lb[2] as u32) << 8) | (
    lb[3] as u32);
    let n = n32 as usize;
    if n > s.len() - (pos + 5) {
        return Err(Error::Serialization);
    }
    let body = vstd::slice::slice_subrange(s, pos + 5, pos + 5 + n);
    let b = vstd::slice::slice_to_vec(body);
    Ok((b, pos + 5 + n))
}

/// Matches the exact bytes `expected` at `pos`.
pub fn dec_expect(s: &[u8], pos: usize, expected: &[u8]) -> (r: Result<usize, Error>)
    ensures
        match r {
            Ok(end) => dec_expect_spec(s@, pos as int, expected@) == Some(end as int),
            Err(e) => dec_expect_spec(s@, pos as int, expected@) is None && e is Serialization,
        },
{
    let n = expected.len();
    if pos > s.len() {
        return Err(Error::Serialization);
    }
    if n > s.len() - pos {
        return Err(Error::Serialization);
    }
    let ghost slen: usize = s.len();
    let mut i: usize = 0;
    while i < n
        invariant
            i <= n,
            pos + n <= s@.len(),
            s@.len() == slen,
            n == expected@.len(),
            forall|j: int| 0 <= j < i ==> s@[pos + j] == expected@[j],
        decreases n - i,
    {
        if *vstd::slice::slice_index_get(s, pos + i) != *vstd::slice::slice_index_get(
            expected,
            i,
        ) {
            proof {
                assert(s@.subrange(pos as int, pos + n) != expected@) by {
                    assert(s@.subrange(pos as int, pos + n)[i as int] != expected@[i as int]);
                }
            }
            return Err(Error::Serialization);
        }
        i = i + 1;
    }
    proof {
        assert(s@.subrange(pos as int, pos + n) =~= expected@);
    }
    Ok(pos + n)
}

/// Decodes a canonical collection header at `pos`.
pub fn dec_array_header(s: &[u8], pos: usize) -> (r: Result<(u32, usize), Error>)
    ensures
        match r {
            Ok((n, end)) => dec_array_header_spec(s@, pos as int) == Some((n, end as int)),
            Err(e) => dec_array_header_spec(s@, pos as int) is None && e is Serialization,
        },
{
    if pos >= s.len() || s.len() - pos < 5 {
        return Err(Error::Serialization);
    }
    if *vstd::slice::slice_index_get(s, pos) != TAG_ARRAY32 {
        return Err(Error::Serialization);
    }
    let lb = vstd::slice::slice_subrange(s, pos + 1, pos + 5);
    let n = ((lb[0] as u32) << 24) | ((lb[1] as u32) << 16) | ((lb[2] as u32) << 8) | (
    lb[3] as u32);
    Ok((n, pos + 5))
}

// ---------------------------------------------------------------------------
// The codec trait for composite values
// ---------------------------------------------------------------------------

/// The views of the elements of a sequence.
pub open spec fn views_of<T: View>(s: Seq<T>) -> Seq<T::V> {
    s.map_values(|x: T| x@)
}

/// A value with one canonical message-pack encoding.
///
/// The specification works on views: `enc_of` is the canonical byte
/// sequence of an abstract value, `dec_of` the exact decoding function the
/// executable decoder implements.  The proof obligations tie them
/// together: decoding makes progress, and an embedded encoding decodes to
/// the value itself.
pub trait Codec: View + Sized {
    /// The canonical encoding of the abstract value `m`.
    spec fn enc_of(m: Self::V) -> Seq<u8>;

    /// Decodes one abstract value at `pos`, yielding it and the position
    /// after it.
    spec fn dec_of(s: Seq<u8>, pos: int) -> Option<(Self::V, int)>;

    /// The abstract values the decoder accepts.  Every value of the type
    /// that the crate actually builds is valid; the decoder rejects byte
    /// strings that would decode to anything else.
    spec fn valid_of(m: Self::V) -> bool;

    /// Every encoding is non-empty, so that collection encodings make
    /// progress.
    proof fn lemma_enc_len(m: Self::V)
        ensures
            0 < Self::enc_of(m).len(),
    ;

    /// Decoding consumes at least one byte and stays within the buffer,
    /// and accepts only valid values.
    proof fn lemma_dec_progress(s: Seq<u8>, pos: int)
        ensures
            Self::dec_of(s, pos) matches Some(p) ==> pos < p.1 <= s.len() && Self::valid_of(p.0),
    ;

    /// An encoding of a valid `m` embedded at `pos` decodes to `m`.
    proof fn lemma_enc_dec(m: Self::V, s: Seq<u8>, pos: int)
        requires
            0 <= pos,
            Self::valid_of(m),
            pos + Self::enc_of(m).len() <= s.len(),
            s.subrange(pos, pos + Self::enc_of(m).len()) == Self::enc_of(m),
        ensures
            Self::dec_of(s, pos) == Some((m, pos + Self::enc_of(m).len())),
    ;

    /// Appends the canonical encoding of `self` to `out`.
    fn encode(&self, out: &mut Vec<u8>)
        requires
            Self::valid_of(self@),
        ensures
            final(out)@ == old(out)@ + Self::enc_of(self@),
    ;

    /// Decodes one value at `pos`, exactly as `dec_of` does.
    fn decode(s: &[u8], pos: usize) -> (r: Result<(Self, usize), Error>)
        ensures
            match r {
                Ok((v, end)) => Self::dec_of(s@, pos as int) == Some((v@, end as int)),
                Err(e) => Self::dec_of(s@, pos as int) is None && e is Serialization,
            },
    ;

    /// True exactly when `self` is a valid, encodable value.
    fn is_valid(&self) -> (r: bool)
        ensures
            r == Self::valid_of(self@),
    ;
}

impl Codec for u64 {
    open spec fn enc_of(m: u64) -> Seq<u8> {
        enc_uint_spec(m)
    }

    open spec fn dec_of(s: Seq<u8>, pos: int) -> Option<(u64, int)> {
        dec_uint_spec(s, pos)
    }

    open spec fn valid_of(m: u64) -> bool {
        true
    }

    proof fn lemma_enc_len(m: u64) {
    }

    proof fn lemma_dec_progress(s: Seq<u8>, pos: int) {
    }

    proof fn lemma_enc_dec(m: u64, s: Seq<u8>, pos: int) {
        lemma_enc_dec_uint(s, pos, m);
    }

    fn encode(&self, out: &mut Vec<u8>) {
        enc_uint(out, *self);
    }

    fn decode(s: &[u8], pos: usize) -> (r: Result<(Self, usize), Error>) {
        dec_uint(s, pos)
    }

    fn is_valid(&self) -> (r: bool) {
        true
    }
}

/// A 128-bit value is carried as a 16-byte big-endian byte string, the
/// canonical byte order of a UUID.
impl Codec for u128 {
    open spec fn enc_of(m: u128) -> Seq<u8> {
        enc_bin_spec(crate::utils::version_bytes::u128_be_bytes(m))
    }

    open spec fn dec_of(s: Seq<u8>, pos: int) -> Option<(u128, int)> {
        match dec_bin_spec(s, pos) {
            Some((b, end)) => if b.len() == 16 {
                Some((crate::utils::version_bytes::u128_from_be(b), end))
            } else {
                None
            },
            None => None,
        }
    }

    open spec fn valid_of(m: u128) -> bool {
        true
    }

    proof fn lemma_enc_len(m: u128) {
    }

    proof fn lemma_dec_progress(s: Seq<u8>, pos: int) {
    }

    proof fn lemma_enc_dec(m: u128, s: Seq<u8>, pos: int) {
        lemma_enc_dec_bin(s, pos, crate::utils::version_bytes::u128_be_bytes(m));
        crate::utils::version_bytes::lemma_u128_be_round_trip(m);
    }

    fn encode(&self, out: &mut Vec<u8>) {
        let bytes = crate::utils::version_bytes::u128_to_be_bytes(*self);
        enc_bin(out, bytes.as_slice());
    }

    fn decode(s: &[u8], pos: usize) -> (r: Result<(Self, usize), Error>) {
        let (b, end) = match dec_bin(s, pos) {
            Ok(x) => x,
            Err(e) => {
                return Err(e);
            },
        };
        if b.len() != 16 {
            return Err(Error::Serialization);
        }
        let v = crate::utils::version_bytes::u128_from_be_slice(b.as_slice());
        Ok((v, end))
    }

    fn is_valid(&self) -> (r: bool) {
        true
    }
}

/// The concatenated encodings of a sequence of abstract values.
pub open spec fn enc_seq_of<T: Codec>(ms: Seq<T::V>) -> Seq<u8>
    decreases ms.len(),
{
    if ms.len() == 0 {
        Seq::empty()
    } else {
        enc_seq_of::<T>(ms.drop_last()) + T::enc_of(ms.last())
    }
}

/// The canonical encoding of a variable-length collection: an `array 32`
/// header followed by the elements.
pub open spec fn enc_list_of<T: Codec>(ms: Seq<T::V>) -> Seq<u8>
    recommends
        ms.len() <= u32::MAX,
{
    enc_array_header_spec(ms.len() as u32) + enc_seq_of::<T>(ms)
}

/// Decodes exactly `n` abstract values starting at `pos`.
pub open spec fn dec_items_of<T: Codec>(s: Seq<u8>, pos: int, n: nat) -> Option<(Seq<T::V>, int)>
    decreases n,
{
    if n == 0 {
        Some((Seq::empty(), pos))
    } else {
        match T::dec_of(s, pos) {
            Some((v, mid)) => match dec_items_of::<T>(s, mid, (n - 1) as nat) {
                Some((rest, end)) => Some((seq![v] + rest, end)),
                None => None,
            },
            None => None,
        }
    }
}

/// Decodes a canonical collection at `pos`.
pub open spec fn dec_list_of<T: Codec>(s: Seq<u8>, pos: int) -> Option<(Seq<T::V>, int)> {
    match dec_array_header_spec(s, pos) {
        Some((n, mid)) => dec_items_of::<T>(s, mid, n as nat),
        None => None,
    }
}

/// Appends the canonical encoding of the collection `items`.
pub fn enc_list<T: Codec>(out: &mut Vec<u8>, items: &Vec<T>)
    requires
        items@.len() <= u32::MAX,
        forall|i: int| 0 <= i < items@.len() ==> T::valid_of(#[trigger] items@[i]@),
    ensures
        final(out)@ == old(out)@ + enc_list_of::<T>(views_of(items@)),
{
    enc_array_header(out, items.len() as u32);
    let ghost base = out@;
    let mut i: usize = 0;
    while i < items.len()
        invariant
            i <= items@.len(),
            forall|k: int| 0 <= k < items@.len() ==> T::valid_of(#[trigger] items@[k]@),
            out@ == base + enc_seq_of::<T>(views_of(items@.take(i as int))),
        decreases items@.len() - i,
    {
        items[i].encode(out);
        proof {
            let vs = views_of(items@.take(i + 1));
            assert(vs.drop_last() =~= views_of(items@.take(i as int)));
            assert(vs.last() == items@[i as int]@);
        }
        i = i + 1;
    }
    proof {
        assert(views_of(items@.take(items@.len() as int)) =~= views_of(items@));
    }
}

/// Decodes a canonical collection at `pos`, exactly as `dec_list_of` does.
pub fn dec_list<T: Codec>(s: &[u8], pos: usize) -> (r: Result<(Vec<T>, usize), Error>)
    ensures
        match r {
            Ok((items, end)) => dec_list_of::<T>(s@, pos as int) matches Some((vs, e)) && vs
                == views_of(items@) && e == end as int,
            Err(e) => dec_list_of::<T>(s@, pos as int) is None && e is Serialization,
        },
{
    let (n, mut cur) = match dec_array_header(s, pos) {
        Ok(x) => x,
        Err(e) => {
            return Err(e);
        },
    };
    let mut items: Vec<T> = Vec::new();
    let mut i: u32 = 0;
    while i < n
        invariant
            i <= n,
            items@.len() == i,
            cur <= s@.len(),
            dec_list_of::<T>(s@, pos as int) == (match dec_items_of::<T>(
                s@,
                cur as int,
                (n - i) as nat,
            ) {
                Some((rest, end)) => Some::<(Seq<T::V>, int)>((views_of(items@) + rest, end)),
                None => None,
            }),
        decreases n - i,
    {
        let (v, next) = match T::decode(s, cur) {
            Ok(x) => x,
            Err(e) => {
                proof {
                    assert(dec_items_of::<T>(s@, cur as int, (n - i) as nat) is None);
                }
                return Err(e);
            },
        };
        proof {
            T::lemma_dec_progress(s@, cur as int);
            let rest_n = (n - i - 1) as nat;
            assert(dec_items_of::<T>(s@, cur as int, (n - i) as nat) == (
            match dec_items_of::<T>(s@, next as int, rest_n) {
                Some((rest, end)) => Some::<(Seq<T::V>, int)>((seq![v@] + rest, end)),
                None => None,
            }));
        }
        items.push(v);
        cur = next;
        proof {
            assert forall|p: (Seq<T::V>, int)|
                dec_items_of::<T>(s@, cur as int, (n - i - 1) as nat) == Some(p) implies views_of(
                items@,
            ) + p.0 == views_of(items@).drop_last() + (seq![v@] + p.0) by {
                assert(views_of(items@).last() == v@);
                assert(views_of(items@).drop_last() + (seq![v@] + p.0) =~= views_of(items@)
                    + p.0);
            }
        }
        i = i + 1;
    }
    proof {
        assert(dec_items_of::<T>(s@, cur as int, 0) == Some(
            (Seq::<T::V>::empty(), cur as int),
        ));
        assert(views_of(items@) + Seq::<T::V>::empty() =~= views_of(items@));
    }
    Ok((items, cur))
}

/// An embedded encoding of a whole collection decodes to the collection.
pub proof fn lemma_enc_dec_list<T: Codec>(ms: Seq<T::V>, s: Seq<u8>, pos: int)
    requires
        0 <= pos,
        ms.len() <= u32::MAX,
        forall|i: int| 0 <= i < ms.len() ==> T::valid_of(#[trigger] ms[i]),
        pos + enc_list_of::<T>(ms).len() <= s.len(),
        s.subrange(pos, pos + enc_list_of::<T>(ms).len()) == enc_list_of::<T>(ms),
    ensures
        dec_list_of::<T>(s, pos) == Some((ms, pos + enc_list_of::<T>(ms).len())),
{
    let header = enc_array_header_spec(ms.len() as u32);
    assert(s.subrange(pos, pos + 5) =~= header) by {
        assert forall|j: int| 0 <= j < 5 implies s.subrange(pos, pos + 5)[j] == header[j] by {
            assert(s.subrange(pos, pos + enc_list_of::<T>(ms).len())[j] == enc_list_of::<T>(
                ms,
            )[j]);
        }
    }
    lemma_enc_dec_array_header(s, pos, ms.len() as u32);
    let body = enc_seq_of::<T>(ms);
    assert(s.subrange(pos + 5, pos + 5 + body.len()) =~= body) by {
        assert forall|j: int| 0 <= j < body.len() implies s.subrange(
            pos + 5,
            pos + 5 + body.len(),
        )[j] == body[j] by {
            assert(s.subrange(pos, pos + enc_list_of::<T>(ms).len())[5 + j] == enc_list_of::<T>(
                ms,
            )[5 + j]);
        }
    }
    lemma_enc_dec_items::<T>(ms, s, pos + 5);
}

/// An embedded concatenation of element encodings decodes to the elements.
pub proof fn lemma_enc_dec_items<T: Codec>(ms: Seq<T::V>, s: Seq<u8>, pos: int)
    requires
        0 <= pos,
        forall|i: int| 0 <= i < ms.len() ==> T::valid_of(#[trigger] ms[i]),
        pos + enc_seq_of::<T>(ms).len() <= s.len(),
        s.subrange(pos, pos + enc_seq_of::<T>(ms).len()) == enc_seq_of::<T>(ms),
    ensures
        dec_items_of::<T>(s, pos, ms.len()) == Some((ms, pos + enc_seq_of::<T>(ms).len())),
    decreases ms.len(),
{
    if ms.len() == 0 {
        assert(dec_items_of::<T>(s, pos, 0) == Some((Seq::<T::V>::empty(), pos)));
        assert(ms =~= Seq::<T::V>::empty());
    } else {
        let first = ms.first();
        let rest = ms.drop_first();
        lemma_enc_seq_of_first::<T>(ms);
        let fe = T::enc_of(first);
        let re = enc_seq_of::<T>(rest);
        T::lemma_enc_len(first);
        assert(s.subrange(pos, pos + fe.len()) =~= fe) by {
            assert forall|j: int| 0 <= j < fe.len() implies s.subrange(pos, pos + fe.len())[j]
                == fe[j] by {
                assert(s.subrange(pos, pos + enc_seq_of::<T>(ms).len())[j] == enc_seq_of::<T>(
                    ms,
                )[j]);
                assert(enc_seq_of::<T>(ms)[j] == fe[j]);
            }
        }
        T::lemma_enc_dec(first, s, pos);
        let mid = pos + fe.len();
        assert(s.subrange(mid, mid + re.len()) =~= re) by {
            assert forall|j: int| 0 <= j < re.len() implies s.subrange(mid, mid + re.len())[j]
                == re[j] by {
                assert(s.subrange(pos, pos + enc_seq_of::<T>(ms).len())[fe.len() + j]
                    == enc_seq_of::<T>(ms)[fe.len() + j]);
                assert(enc_seq_of::<T>(ms)[fe.len() + j] == re[j]);
            }
        }
        assert(forall|i: int| 0 <= i < rest.len() ==> T::valid_of(#[trigger] rest[i])) by {
            assert(forall|i: int| 0 <= i < rest.len() ==> rest[i] == ms[i + 1]);
        }
        lemma_enc_dec_items::<T>(rest, s, mid);
        assert(ms =~= seq![first] + rest);
        assert(rest.len() == (ms.len() - 1) as nat);
    }
}

/// The concatenated encoding equals the first element's encoding followed
/// by the rest's.
pub proof fn lemma_enc_seq_of_first<T: Codec>(ms: Seq<T::V>)
    requires
        ms.len() > 0,
    ensures
        enc_seq_of::<T>(ms) == T::enc_of(ms.first()) + enc_seq_of::<T>(ms.drop_first()),
    decreases ms.len(),
{
    if ms.len() == 1 {
        assert(ms.drop_last() =~= Seq::<T::V>::empty());
        assert(ms.drop_first() =~= Seq::<T::V>::empty());
        assert(ms.last() == ms.first());
        assert(enc_seq_of::<T>(ms) =~= T::enc_of(ms.first()) + enc_seq_of::<T>(
            ms.drop_first(),
        ));
    } else {
        lemma_enc_seq_of_first::<T>(ms.drop_last());
        assert(ms.drop_last().first() == ms.first());
        assert(ms.drop_last().drop_first() =~= ms.drop_first().drop_last());
        assert(enc_seq_of::<T>(ms) == enc_seq_of::<T>(ms.drop_last()) + T::enc_of(ms.last()));
        assert(ms.drop_first().last() == ms.last());
        assert(enc_seq_of::<T>(ms.drop_first()) == enc_seq_of::<T>(
            ms.drop_first().drop_last(),
        ) + T::enc_of(ms.drop_first().last()));
        assert(enc_seq_of::<T>(ms) =~= T::enc_of(ms.first()) + enc_seq_of::<T>(
            ms.drop_first(),
        ));
    }
}

/// Splits an embedded concatenation into its two parts.
pub proof fn lemma_subrange_split(s: Seq<u8>, pos: int, a: Seq<u8>, b: Seq<u8>)
    requires
        0 <= pos,
        pos + a.len() + b.len() <= s.len(),
        s.subrange(pos, pos + a.len() + b.len()) == a + b,
    ensures
        s.subrange(pos, pos + a.len()) == a,
        s.subrange(pos + a.len(), pos + a.len() + b.len()) == b,
{
    assert(s.subrange(pos, pos + a.len()) =~= a) by {
        assert forall|j: int| 0 <= j < a.len() implies s.subrange(pos, pos + a.len())[j] == a[j] by {
            assert(s.subrange(pos, pos + a.len() + b.len())[j] == (a + b)[j]);
        }
    }
    assert(s.subrange(pos + a.len(), pos + a.len() + b.len()) =~= b) by {
        assert forall|j: int| 0 <= j < b.len() implies s.subrange(
            pos + a.len(),
            pos + a.len() + b.len(),
        )[j] == b[j] by {
            assert(s.subrange(pos, pos + a.len() + b.len())[a.len() + j] == (a + b)[a.len() + j]);
            assert((a + b)[a.len() + j] == b[j]);
        }
    }
}

/// Appends a `fixarray` header for `n` elements.
pub fn enc_fixarray_header(out: &mut Vec<u8>, n: u8)
    requires
        n < 16,
    ensures
        final(out)@ == old(out)@ + enc_fixarray_header_spec(n),
{
    out.push(0x90 + n);
    proof {
        assert(out@ =~= old(out)@ + enc_fixarray_header_spec(n));
    }
}

/// Appends a `fixmap` header for `n` fields.
pub fn enc_fixmap_header(out: &mut Vec<u8>, n: u8)
    requires
        n < 16,
    ensures
        final(out)@ == old(out)@ + enc_fixmap_header_spec(n),
{
    out.push(0x80 + n);
    proof {
        assert(out@ =~= old(out)@ + enc_fixmap_header_spec(n));
    }
}

/// Matches one exact byte at `pos`: a fixed header.
pub fn dec_byte(s: &[u8], pos: usize, tag: u8) -> (r: Result<usize, Error>)
    ensures
        match r {
            Ok(end) => dec_expect_spec(s@, pos as int, seq![tag]) == Some(end as int),
            Err(e) => dec_expect_spec(s@, pos as int, seq![tag]) is None && e is Serialization,
        },
{
    if pos >= s.len() {
        return Err(Error::Serialization);
    }
    if *vstd::slice::slice_index_get(s, pos) != tag {
        proof {
            assert(dec_expect_spec(s@, pos as int, seq![tag]) is None) by {
                assert(s@.subrange(pos as int, pos + 1)[0] == s@[pos as int]);
            }
        }
        return Err(Error::Serialization);
    }
    proof {
        assert(s@.subrange(pos as int, pos + 1) =~= seq![tag]);
    }
    Ok(pos + 1)
}

/// A pair is a two-element `fixarray`.
impl<A: Codec, B: Codec> Codec for (A, B) {
    open spec fn enc_of(m: (A::V, B::V)) -> Seq<u8> {
        enc_fixarray_header_spec(2) + A::enc_of(m.0) + B::enc_of(m.1)
    }

    open spec fn dec_of(s: Seq<u8>, pos: int) -> Option<((A::V, B::V), int)> {
        match dec_expect_spec(s, pos, enc_fixarray_header_spec(2)) {
            Some(p0) => match A::dec_of(s, p0) {
                Some((a, p1)) => match B::dec_of(s, p1) {
                    Some((b, p2)) => Some(((a, b), p2)),
                    None => None,
                },
                None => None,
            },
            None => None,
        }
    }

    open spec fn valid_of(m: (A::V, B::V)) -> bool {
        A::valid_of(m.0) && B::valid_of(m.1)
    }

    proof fn lemma_enc_len(m: (A::V, B::V)) {
    }

    proof fn lemma_dec_progress(s: Seq<u8>, pos: int) {
        A::lemma_dec_progress(s, pos + 1);
        match A::dec_of(s, pos + 1) {
            Some((a, p1)) => {
                B::lemma_dec_progress(s, p1);
            },
            None => {},
        }
    }

    proof fn lemma_enc_dec(m: (A::V, B::V), s: Seq<u8>, pos: int) {
        let h = enc_fixarray_header_spec(2);
        let ea = A::enc_of(m.0);
        let eb = B::enc_of(m.1);
        assert(Self::enc_of(m) =~= h + (ea + eb));
        lemma_subrange_split(s, pos, h, ea + eb);
        lemma_subrange_split(s, pos + 1, ea, eb);
        assert(s.subrange(pos, pos + 1) =~= seq![(0x92) as u8]);
        assert(h =~= seq![(0x92) as u8]);
        A::lemma_enc_dec(m.0, s, pos + 1);
        B::lemma_enc_dec(m.1, s, pos + 1 + ea.len());
    }

    fn encode(&self, out: &mut Vec<u8>) {
        enc_fixarray_header(out, 2);
        self.0.encode(out);
        self.1.encode(out);
        proof {
            assert(out@ =~= old(out)@ + Self::enc_of(self@));
        }
    }

    fn decode(s: &[u8], pos: usize) -> (r: Result<(Self, usize), Error>) {
        let p0 = match dec_byte(s, pos, 0x92) {
            Ok(p) => p,
            Err(e) => {
                proof {
                    assert(enc_fixarray_header_spec(2) =~= seq![(0x92) as u8]);
                }
                return Err(e);
            },
        };
        proof {
            assert(enc_fixarray_header_spec(2) =~= seq![(0x92) as u8]);
        }
        let (a, p1) = match A::decode(s, p0) {
            Ok(x) => x,
            Err(e) => {
                return Err(e);
            },
        };
        let (b, p2) = match B::decode(s, p1) {
            Ok(x) => x,
            Err(e) => {
                return Err(e);
            },
        };
        Ok(((a, b), p2))
    }

    fn is_valid(&self) -> (r: bool) {
        self.0.is_valid() && self.1.is_valid()
    }
}

/// Decoding `n` items stays within the buffer and yields valid values.
pub proof fn lemma_dec_items_progress<T: Codec>(s: Seq<u8>, pos: int, n: nat)
    requires
        0 <= pos <= s.len(),
    ensures
        dec_items_of::<T>(s, pos, n) matches Some(p) ==> pos <= p.1 <= s.len() && forall|i: int|
            0 <= i < p.0.len() ==> T::valid_of(#[trigger] p.0[i]),
    decreases n,
{
    if n > 0 {
        match T::dec_of(s, pos) {
            Some((v, mid)) => {
                T::lemma_dec_progress(s, pos);
                lemma_dec_items_progress::<T>(s, mid, (n - 1) as nat);
                match dec_items_of::<T>(s, mid, (n - 1) as nat) {
                    Some((rest, end)) => {
                        assert forall|i: int|
                            0 <= i < (seq![v] + rest).len() implies T::valid_of(
                            #[trigger] (seq![v] + rest)[i]) by {
                            if i > 0 {
                                assert((seq![v] + rest)[i] == rest[i - 1]);
                            }
                        }
                    },
                    None => {},
                }
            },
            None => {},
        }
    }
}

/// Decoding a collection consumes at least its header and yields valid
/// values.
pub proof fn lemma_dec_list_progress<T: Codec>(s: Seq<u8>, pos: int)
    ensures
        dec_list_of::<T>(s, pos) matches Some(p) ==> pos < p.1 <= s.len() && p.0.len()
            <= u32::MAX && forall|i: int|
            0 <= i < p.0.len() ==> T::valid_of(#[trigger] p.0[i]),
{
    match dec_array_header_spec(s, pos) {
        Some((n, mid)) => {
            lemma_dec_items_progress::<T>(s, mid, n as nat);
            match dec_items_of::<T>(s, mid, n as nat) {
                Some((vs, end)) => {
                    lemma_dec_items_len::<T>(s, mid, n as nat);
                },
                None => {},
            }
        },
        None => {},
    }
}

/// Decoding `n` items yields exactly `n` of them.
pub proof fn lemma_dec_items_len<T: Codec>(s: Seq<u8>, pos: int, n: nat)
    ensures
        dec_items_of::<T>(s, pos, n) matches Some(p) ==> p.0.len() == n,
    decreases n,
{
    if n > 0 {
        match T::dec_of(s, pos) {
            Some((v, mid)) => {
                lemma_dec_items_len::<T>(s, mid, (n - 1) as nat);
            },
            None => {},
        }
    }
}

} // verus!
