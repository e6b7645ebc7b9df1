//! Versioned byte framing.
//!
//! Every persisted or in-memory blob is tagged with a 16-byte version
//! identifier followed by its payload.  The identifier is a 128-bit value
//! written in big-endian byte order, the canonical byte order of a UUID.

use vstd::prelude::*;

use crate::crdt::DeepClone;
use crate::error::Error;
use crate::msgpack;
use crate::msgpack::Codec;

verus! {

/// The length in bytes of the serialized version identifier.
pub const VERSION_LEN: usize = 16;

/// The byte at position `i` (from the most significant end) of the 16-byte
/// big-endian encoding of `v`.
pub open spec fn be_byte128(v: u128, i: int) -> u8 {
    (v >> (((15 - i) * 8) as u128)) as u8
}

/// The 16-byte big-endian encoding of `v`.
pub open spec fn u128_be_bytes(v: u128) -> Seq<u8> {
    Seq::new(16, |i: int| be_byte128(v, i))
}

/// The value read back from a 16-byte big-endian encoding.
pub open spec fn u128_from_be(s: Seq<u8>) -> u128
    recommends
        s.len() == 16,
{
    ((s[0] as u128) << 120) | ((s[1] as u128) << 112) | ((s[2] as u128) << 104)
        | ((s[3] as u128) << 96) | ((s[4] as u128) << 88) | ((s[5] as u128) << 80)
        | ((s[6] as u128) << 72) | ((s[7] as u128) << 64) | ((s[8] as u128) << 56)
        | ((s[9] as u128) << 48) | ((s[10] as u128) << 40) | ((s[11] as u128) << 32)
        | ((s[12] as u128) << 24) | ((s[13] as u128) << 16) | ((s[14] as u128) << 8)
        | (s[15] as u128)
}

/// Reading back the big-endian encoding of `v` yields `v` again.
pub proof fn lemma_u128_be_round_trip(v: u128)
    ensures
        u128_from_be(u128_be_bytes(v)) == v,
{
    let s = u128_be_bytes(v);
    assert(((((v >> 120) as u8) as u128) << 120) | ((((v >> 112) as u8) as u128) << 112)
        | ((((v >> 104) as u8) as u128) << 104) | ((((v >> 96) as u8) as u128) << 96)
        | ((((v >> 88) as u8) as u128) << 88) | ((((v >> 80) as u8) as u128) << 80)
        | ((((v >> 72) as u8) as u128) << 72) | ((((v >> 64) as u8) as u128) << 64)
        | ((((v >> 56) as u8) as u128) << 56) | ((((v >> 48) as u8) as u128) << 48)
        | ((((v >> 40) as u8) as u128) << 40) | ((((v >> 32) as u8) as u128) << 32)
        | ((((v >> 24) as u8) as u128) << 24) | ((((v >> 16) as u8) as u128) << 16)
        | ((((v >> 8) as u8) as u128) << 8) | ((v as u8) as u128) == v) by (bit_vector);
    assert(s[15] == (v >> ((0 * 8) as u128)) as u8);
    assert((v >> ((0 * 8) as u128)) as u8 == v as u8) by (bit_vector);
}

/// The 16-byte big-endian encoding of `v`, as a vector.
pub fn u128_to_be_bytes(v: u128) -> (r: Vec<u8>)
    ensures
        r@ == u128_be_bytes(v),
{
    let mut r: Vec<u8> = Vec::new();
    let mut i: usize = 0;
    while i < 16
        invariant
            i <= 16,
            r@.len() == i,
            forall|j: int| 0 <= j < i ==> r@[j] == be_byte128(v, j),
        decreases 16 - i,
    {
        let shift: u128 = (120 - 8 * (i as u128));
        r.push((v >> shift) as u8);
        i = i + 1;
    }
    proof {
        assert(r@ =~= u128_be_bytes(v));
    }
    r
}

/// Reads a 128-bit value from 16 big-endian bytes.
pub fn u128_from_be_slice(b: &[u8]) -> (r: u128)
    requires
        b@.len() == 16,
    ensures
        r == u128_from_be(b@),
{
    ((b[0] as u128) << 120) | ((b[1] as u128) << 112) | ((b[2] as u128) << 104)
        | ((b[3] as u128) << 96) | ((b[4] as u128) << 88) | ((b[5] as u128) << 80)
        | ((b[6] as u128) << 72) | ((b[7] as u128) << 64) | ((b[8] as u128) << 56)
        | ((b[9] as u128) << 48) | ((b[10] as u128) << 40) | ((b[11] as u128) << 32)
        | ((b[12] as u128) << 24) | ((b[13] as u128) << 16) | ((b[14] as u128) << 8)
        | (b[15] as u128)
}

/// The serialized form of a framed blob: 16 version bytes, then the payload.
pub open spec fn serialized_spec(version: u128, content: Seq<u8>) -> Seq<u8> {
    u128_be_bytes(version) + content
}

/// Parsing a serialized framed blob yields the version and payload it was
/// built from: the version prefix reads back as the version, and the rest
/// is the payload, which is what `deserialize` returns on `serialize`'s
/// output.
pub proof fn lemma_serialize_parse_round_trip(version: u128, content: Seq<u8>)
    ensures
        serialized_spec(version, content).len() == 16 + content.len(),
        u128_from_be(serialized_spec(version, content).subrange(0, 16)) == version,
        serialized_spec(version, content).skip(16) == content,
{
    let s = serialized_spec(version, content);
    assert(s.subrange(0, 16) =~= u128_be_bytes(version));
    lemma_u128_be_round_trip(version);
    assert(s.skip(16) =~= content);
}

/// True when `s` is sorted in ascending order.
pub open spec fn sorted_ascending(s: Seq<u128>) -> bool {
    forall|i: int, j: int| 0 <= i < j < s.len() ==> s[i] < s[j]
}

/// A failed version check: the version found, and the full expected set for
/// diagnostics.
#[derive(Debug, Clone)]
pub struct VersionError {
    pub expected: Vec<u128>,
    pub got: u128,
}

/// A parse failure of the serialized framing.
#[derive(Debug, Clone)]
#[non_exhaustive]
pub enum DeserializeError {
    InvalidLength,
}

/// The ghost shape of a framed blob: its version tag and its payload bytes.
pub struct VersionBytesView {
    pub version: u128,
    pub content: Seq<u8>,
}

/// An owned framed blob: a 128-bit version identifier and a payload.
#[derive(Debug, Clone)]
pub struct VersionBytes {
    version: u128,
    content: Vec<u8>,
}

impl View for VersionBytes {
    type V = VersionBytesView;

    closed spec fn view(&self) -> VersionBytesView {
        VersionBytesView { version: self.version, content: self.content@ }
    }
}

impl VersionBytes {
    /// The payload never gets close to the address-space limit; the bound
    /// keeps `serialize` and `buf` free of length overflow.
    pub closed spec fn wf(&self) -> bool {
        self.content@.len() + VERSION_LEN <= usize::MAX
    }

    pub fn new(version: u128, content: Vec<u8>) -> (r: VersionBytes)
        requires
            content@.len() + 16 <= usize::MAX,
        ensures
            r@.version == version,
            r@.content == content@,
            r.wf(),
    {
        VersionBytes { version, content }
    }

    pub fn version(&self) -> (r: u128)
        ensures
            r == self@.version,
    {
        self.version
    }

    /// The payload bytes, without the version prefix.
    pub fn as_ref(&self) -> (r: &[u8])
        ensures
            r@ == self@.content,
    {
        self.content.as_slice()
    }

    /// Succeeds exactly when the blob's version equals `version`.
    pub fn ensure_version(&self, version: u128) -> (r: Result<(), VersionError>)
        ensures
            r is Ok <==> self@.version == version,
            r matches Err(e) ==> e.expected@ == seq![version] && e.got == self@.version,
    {
        self.as_version_bytes_ref().ensure_version(version)
    }

    /// Succeeds exactly when the blob's version is a member of `versions`,
    /// which must be sorted ascending.
    pub fn ensure_versions(&self, versions: &[u128]) -> (r: Result<(), VersionError>)
        requires
            sorted_ascending(versions@),
        ensures
            r is Ok <==> versions@.contains(self@.version),
            r matches Err(e) ==> e.expected@ == versions@ && e.got == self@.version,
    {
        self.as_version_bytes_ref().ensure_versions(versions)
    }

    /// A borrowing reference to the same framed blob.
    pub fn as_version_bytes_ref(&self) -> (r: VersionBytesRef<'_>)
        ensures
            r@ == self@,
            self.wf() ==> r.wf(),
    {
        VersionBytesRef { version: self.version, content: self.content.as_slice() }
    }

    /// A byte source that yields the serialized form without copying.
    pub fn buf(&self) -> (r: VersionBytesBuf<'_>)
        requires
            self.wf(),
        ensures
            r.whole() == serialized_spec(self@.version, self@.content),
            r.pos_spec() == 0,
            r.wf(),
    {
        self.as_version_bytes_ref().buf()
    }

    /// Parses a serialized framed blob; fails when the buffer is shorter
    /// than the version prefix.
    pub fn deserialize(slice: &[u8]) -> (r: Result<VersionBytes, DeserializeError>)
        ensures
            slice@.len() >= 16 ==> (r matches Ok(v) && v@.version == u128_from_be(
                slice@.subrange(0, 16),
            ) && v@.content == slice@.skip(16) && v.wf()),
            slice@.len() < 16 ==> r matches Err(DeserializeError::InvalidLength),
    {
        match VersionBytesRef::deserialize(slice) {
            Ok(r) => Ok(r.to_version_bytes()),
            Err(e) => Err(e),
        }
    }

    /// The serialized form: 16 version bytes followed by the payload.
    pub fn serialize(&self) -> (r: Vec<u8>)
        requires
            self.wf(),
        ensures
            r@ == serialized_spec(self@.version, self@.content),
    {
        self.as_version_bytes_ref().serialize()
    }

    /// Consumes the blob, returning the payload.
    pub fn into_content(self) -> (r: Vec<u8>)
        ensures
            r@ == self@.content,
    {
        self.content
    }
}

/// A framed blob that borrows its payload.
#[derive(Debug, Clone)]
pub struct VersionBytesRef<'a> {
    version: u128,
    content: &'a [u8],
}

impl<'a> View for VersionBytesRef<'a> {
    type V = VersionBytesView;

    closed spec fn view(&self) -> VersionBytesView {
        VersionBytesView { version: self.version, content: self.content@ }
    }
}

impl<'a> VersionBytesRef<'a> {
    pub closed spec fn wf(&self) -> bool {
        self.content@.len() + VERSION_LEN <= usize::MAX
    }

    pub fn new(version: u128, content: &'a [u8]) -> (r: VersionBytesRef<'a>)
        requires
            content@.len() + 16 <= usize::MAX,
        ensures
            r@.version == version,
            r@.content == content@,
            r.wf(),
    {
        VersionBytesRef { version, content }
    }

    pub fn version(&self) -> (r: u128)
        ensures
            r == self@.version,
    {
        self.version
    }

    /// The payload bytes, without the version prefix.
    pub fn as_ref(&self) -> (r: &[u8])
        ensures
            r@ == self@.content,
    {
        self.content
    }

    /// Succeeds exactly when the blob's version equals `version`.
    pub fn ensure_version(&self, version: u128) -> (r: Result<(), VersionError>)
        ensures
            r is Ok <==> self@.version == version,
            r matches Err(e) ==> e.expected@ == seq![version] && e.got == self@.version,
    {
        if self.version != version {
            let mut expected: Vec<u128> = Vec::new();
            expected.push(version);
            proof {
                assert(expected@ =~= seq![version]);
            }
            Err(VersionError { expected, got: self.version })
        } else {
            Ok(())
        }
    }

    /// Succeeds exactly when the blob's version is a member of `versions`,
    /// which must be sorted ascending.  Membership is found by binary
    /// search.
    pub fn ensure_versions(&self, versions: &[u128]) -> (r: Result<(), VersionError>)
        requires
            sorted_ascending(versions@),
        ensures
            r is Ok <==> versions@.contains(self@.version),
            r matches Err(e) ==> e.expected@ == versions@ && e.got == self@.version,
    {
        if binary_search_contains(versions, self.version) {
            Ok(())
        } else {
            let expected = vstd::slice::slice_to_vec(versions);
            Err(VersionError { expected, got: self.version })
        }
    }

    /// A byte source that yields the serialized form without copying.
    pub fn buf(&self) -> (r: VersionBytesBuf<'a>)
        requires
            self.wf(),
        ensures
            r.whole() == serialized_spec(self@.version, self@.content),
            r.pos_spec() == 0,
            r.wf(),
    {
        VersionBytesBuf { pos: 0, version: u128_to_be_bytes(self.version), content: self.content }
    }

    /// Parses a serialized framed blob, borrowing the payload; fails when
    /// the buffer is shorter than the version prefix.
    pub fn deserialize(slice: &'a [u8]) -> (r: Result<VersionBytesRef<'a>, DeserializeError>)
        ensures
            slice@.len() >= 16 ==> (r matches Ok(v) && v@.version == u128_from_be(
                slice@.subrange(0, 16),
            ) && v@.content == slice@.skip(16) && v.wf()),
            slice@.len() < 16 ==> r matches Err(DeserializeError::InvalidLength),
    {
        if slice.len() < 16 {
            return Err(DeserializeError::InvalidLength);
        }
        let version_bytes = vstd::slice::slice_subrange(slice, 0, 16);
        let version = u128_from_be_slice(version_bytes);
        let content = vstd::slice::slice_subrange(slice, 16, slice.len());
        proof {
            assert(slice@.subrange(16, slice@.len() as int) =~= slice@.skip(16));
        }
        Ok(VersionBytesRef { version, content })
    }

    /// The serialized form: 16 version bytes followed by the payload.
    pub fn serialize(&self) -> (r: Vec<u8>)
        requires
            self.wf(),
        ensures
            r@ == serialized_spec(self@.version, self@.content),
    {
        let mut buf = self.buf();
        let mut out: Vec<u8> = Vec::new();
        while buf.has_remaining()
            invariant
                buf.wf(),
                buf.whole() == serialized_spec(self@.version, self@.content),
                out@ == buf.whole().take(buf.pos_spec() as int),
            decreases buf.whole().len() - buf.pos_spec(),
        {
            let ghost prev_pos = buf.pos_spec();
            let chunk = buf.chunk();
            let chunk_len = chunk.len();
            let mut chunk_vec = vstd::slice::slice_to_vec(chunk);
            out.append(&mut chunk_vec);
            buf.advance(chunk_len);
            proof {
                assert(out@ =~= buf.whole().take(buf.pos_spec() as int));
            }
        }
        proof {
            assert(out@ =~= buf.whole());
        }
        out
    }

    /// An owned copy of the same framed blob.
    pub fn to_version_bytes(&self) -> (r: VersionBytes)
        ensures
            r@ == self@,
            self.wf() ==> r.wf(),
    {
        VersionBytes { version: self.version, content: vstd::slice::slice_to_vec(self.content) }
    }
}

/// True when `x` occurs in the sorted slice `versions`.
fn binary_search_contains(versions: &[u128], x: u128) -> (r: bool)
    requires
        sorted_ascending(versions@),
    ensures
        r <==> versions@.contains(x),
{
    let mut lo: usize = 0;
    let mut hi: usize = versions.len();
    while lo < hi
        invariant
            lo <= hi <= versions@.len(),
            sorted_ascending(versions@),
            forall|i: int| 0 <= i < lo ==> versions@[i] < x,
            forall|i: int| hi <= i < versions@.len() ==> versions@[i] > x,
        decreases hi - lo,
    {
        let mid = lo + (hi - lo) / 2;
        let v = *vstd::slice::slice_index_get(versions, mid);
        if v == x {
            assert(versions@.contains(x)) by {
                assert(versions@[mid as int] == x);
            }
            return true;
        } else if v < x {
            lo = mid + 1;
        } else {
            hi = mid;
        }
    }
    proof {
        if versions@.contains(x) {
            let i = choose|i: int| 0 <= i < versions@.len() && versions@[i] == x;
            assert(false);
        }
    }
    false
}

#[verifier::external_type_specification]
#[verifier::external_body]
pub struct ExIoSlice<'a>(std::io::IoSlice<'a>);

/// Relies on `std::io::IoSlice::new`, which wraps a byte slice for
/// vectored writes; the wrapped bytes are opaque here.
pub assume_specification<'a>[ std::io::IoSlice::<'a>::new ](buf: &'a [u8]) -> std::io::IoSlice<'a>;

/// A gather byte source over a framed blob: yields the 16 version bytes,
/// then the payload, without copying the payload.
#[derive(Debug, Clone)]
pub struct VersionBytesBuf<'a> {
    pos: usize,
    version: Vec<u8>,
    content: &'a [u8],
}

impl<'a> VersionBytesBuf<'a> {
    /// The full serialized byte sequence this source yields.
    pub closed spec fn whole(&self) -> Seq<u8> {
        self.version@ + self.content@
    }

    /// How far the source has advanced into `whole`.
    pub closed spec fn pos_spec(&self) -> int {
        self.pos as int
    }

    pub closed spec fn wf(&self) -> bool {
        self.version@.len() == 16 && self.pos <= self.whole().len() && self.whole().len()
            <= usize::MAX
    }

    pub fn new(version: u128, content: &'a [u8]) -> (r: VersionBytesBuf<'a>)
        requires
            content@.len() + 16 <= usize::MAX,
        ensures
            r.whole() == serialized_spec(version, content@),
            r.pos_spec() == 0,
            r.wf(),
    {
        VersionBytesBuf { pos: 0, version: u128_to_be_bytes(version), content }
    }

    /// How many bytes remain to be yielded.
    pub fn remaining(&self) -> (r: usize)
        requires
            self.wf(),
        ensures
            r == self.whole().len() - self.pos_spec(),
    {
        16 + self.content.len() - self.pos
    }

    /// True while bytes remain.
    pub fn has_remaining(&self) -> (r: bool)
        requires
            self.wf(),
        ensures
            r <==> self.pos_spec() < self.whole().len(),
    {
        self.remaining() > 0
    }

    /// The longest contiguous run of bytes at the current position: the
    /// rest of the version prefix while inside it, else the rest of the
    /// payload.  Concatenating chunks over any sequence of advances yields
    /// exactly the serialized form.
    pub fn chunk(&self) -> (r: &[u8])
        requires
            self.wf(),
        ensures
            r@ == if self.pos_spec() < 16 {
                self.whole().subrange(self.pos_spec(), 16)
            } else {
                self.whole().subrange(self.pos_spec(), self.whole().len() as int)
            },
            self.pos_spec() < self.whole().len() ==> r@.len() > 0,
            r@ == self.whole().subrange(self.pos_spec(), self.pos_spec() + r@.len()),
    {
        if self.pos < 16 {
            let r = vstd::slice::slice_subrange(self.version.as_slice(), self.pos, 16);
            proof {
                assert(r@ =~= self.whole().subrange(self.pos_spec(), 16));
            }
            r
        } else {
            let pos = self.pos - 16;
            let r = vstd::slice::slice_subrange(self.content, pos, self.content.len());
            proof {
                assert(r@ =~= self.whole().subrange(
                    self.pos_spec(),
                    self.whole().len() as int,
                ));
            }
            r
        }
    }

    /// Fills `dst` with views of the remaining runs — the rest of the
    /// version prefix, then the payload — and yields how many were
    /// filled.  The slices' contents are opaque to the verifier; the
    /// count and the untouched tail are not.
    pub fn chunks_vectored<'b>(&'b self, dst: &mut [std::io::IoSlice<'b>]) -> (r: usize)
        requires
            self.wf(),
        ensures
            final(dst)@.len() == old(dst)@.len(),
            r == if old(dst)@.len() == 0 {
                0int
            } else if self.pos_spec() < 16 {
                if old(dst)@.len() == 1 {
                    1int
                } else {
                    2int
                }
            } else if self.pos_spec() == self.whole().len() {
                0int
            } else {
                1int
            },
            forall|i: int| r <= i < old(dst)@.len() ==> final(dst)@[i] == old(dst)@[i],
    {
        if dst.len() == 0 {
            return 0;
        }
        if self.pos < 16 {
            let s1 = vstd::slice::slice_subrange(self.version.as_slice(), self.pos, 16);
            dst[0] = std::io::IoSlice::new(s1);
            if dst.len() == 1 {
                1
            } else {
                dst[1] = std::io::IoSlice::new(self.content);
                2
            }
        } else {
            let pos = self.pos - 16;
            if pos == self.content.len() {
                0
            } else {
                let s1 = vstd::slice::slice_subrange(self.content, pos, self.content.len());
                dst[0] = std::io::IoSlice::new(s1);
                1
            }
        }
    }

    /// Advances the position by `cnt` bytes; `cnt` must not exceed
    /// `remaining()`.
    pub fn advance(&mut self, cnt: usize)
        requires
            old(self).wf(),
            cnt <= old(self).whole().len() - old(self).pos_spec(),
        ensures
            final(self).wf(),
            final(self).whole() == old(self).whole(),
            final(self).pos_spec() == old(self).pos_spec() + cnt,
    {
        self.pos = self.pos + cnt;
    }
}

impl DeepClone for VersionBytes {
    fn deep_clone(&self) -> (r: Self)
        ensures
            r@ == self@,
    {
        VersionBytes {
            version: self.version,
            content: vstd::slice::slice_to_vec(self.content.as_slice()),
        }
    }
}

/// A framed blob also has a self-describing message-pack form, used when
/// it is nested inside another payload: a pair of the 16 version bytes and
/// the payload.
impl Codec for VersionBytes {
    open spec fn enc_of(m: VersionBytesView) -> Seq<u8> {
        msgpack::enc_fixarray_header_spec(2) + msgpack::enc_bin_spec(u128_be_bytes(m.version))
            + msgpack::enc_bin_spec(m.content)
    }

    open spec fn dec_of(s: Seq<u8>, pos: int) -> Option<(VersionBytesView, int)> {
        match msgpack::dec_expect_spec(s, pos, msgpack::enc_fixarray_header_spec(2)) {
            Some(p0) => match msgpack::dec_bin_spec(s, p0) {
                Some((vb, p1)) => if vb.len() == 16 {
                    match msgpack::dec_bin_spec(s, p1) {
                        Some((content, p2)) => if content.len() + 16 <= usize::MAX {
                            Some((VersionBytesView { version: u128_from_be(vb), content }, p2))
                        } else {
                            None
                        },
                        None => None,
                    }
                } else {
                    None
                },
                None => None,
            },
            None => None,
        }
    }

    open spec fn valid_of(m: VersionBytesView) -> bool {
        m.content.len() <= u32::MAX && m.content.len() + 16 <= usize::MAX
    }

    proof fn lemma_enc_len(m: VersionBytesView) {
    }

    proof fn lemma_dec_progress(s: Seq<u8>, pos: int) {
    }

    proof fn lemma_enc_dec(m: VersionBytesView, s: Seq<u8>, pos: int) {
        let h = msgpack::enc_fixarray_header_spec(2);
        let ev = msgpack::enc_bin_spec(u128_be_bytes(m.version));
        let ec = msgpack::enc_bin_spec(m.content);
        assert(Self::enc_of(m) =~= h + (ev + ec));
        msgpack::lemma_subrange_split(s, pos, h, ev + ec);
        msgpack::lemma_subrange_split(s, pos + 1, ev, ec);
        msgpack::lemma_enc_dec_expect(s, pos, h);
        msgpack::lemma_enc_dec_bin(s, pos + 1, u128_be_bytes(m.version));
        msgpack::lemma_enc_dec_bin(s, pos + 1 + ev.len(), m.content);
        lemma_u128_be_round_trip(m.version);
    }

    fn encode(&self, out: &mut Vec<u8>) {
        msgpack::enc_fixarray_header(out, 2);
        let vb = u128_to_be_bytes(self.version);
        msgpack::enc_bin(out, vb.as_slice());
        msgpack::enc_bin(out, self.content.as_slice());
        proof {
            assert(out@ =~= old(out)@ + Self::enc_of(self@));
        }
    }

    fn decode(s: &[u8], pos: usize) -> (r: Result<(Self, usize), Error>) {
        let p0 = match msgpack::dec_byte(s, pos, 0x92) {
            Ok(p) => p,
            Err(e) => {
                proof {
                    assert(msgpack::enc_fixarray_header_spec(2) =~= seq![(0x92) as u8]);
                }
                return Err(e);
            },
        };
        proof {
            assert(msgpack::enc_fixarray_header_spec(2) =~= seq![(0x92) as u8]);
        }
        let (vb, p1) = match msgpack::dec_bin(s, p0) {
            Ok(x) => x,
            Err(e) => {
                return Err(e);
            },
        };
        if vb.len() != 16 {
            return Err(Error::Serialization);
        }
        let version = u128_from_be_slice(vb.as_slice());
        let (content, p2) = match msgpack::dec_bin(s, p1) {
            Ok(x) => x,
            Err(e) => {
                return Err(e);
            },
        };
        if content.len() > usize::MAX - 16 {
            return Err(Error::Serialization);
        }
        Ok((VersionBytes { version, content }, p2))
    }

    fn is_valid(&self) -> (r: bool) {
        self.content.len() as u64 <= u32::MAX as u64 && self.content.len() <= usize::MAX - 16
    }
}

} // verus!
