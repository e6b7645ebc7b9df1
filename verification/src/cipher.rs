//! The XChaCha20-Poly1305 cipher capability.
//!
//! Keys and ciphertexts are framed: the key is tagged with the cipher's
//! key version, and the output is a self-describing envelope — the inner
//! box carries a fresh nonce and the AEAD ciphertext, message-pack encoded
//! with named fields, and the outer layer tags it with the cipher's data
//! version.

use vstd::prelude::*;

use chacha20poly1305::aead::{Aead, KeyInit};

use crate::error::Error;
use crate::msgpack;
use crate::msgpack::Codec;
use crate::utils::version_bytes::{VersionBytes, VersionBytesRef, VersionBytesView};

verus! {

/// The version tag of the cipher's serialized envelope.
pub const DATA_VERSION: u128 = 0xc7f269be_0ff5_4a77_99c3_7c23c96d5cb4;

/// The version tag of the cipher's symmetric keys.
pub const KEY_VERSION: u128 = 0x5df28591_439a_4cef_8ca6_8433276cc9ed;

/// The symmetric key length in bytes.
pub const KEY_LEN: usize = 32;

/// The nonce length in bytes.
pub const NONCE_LEN: usize = 24;

/// What the AEAD returns when sealing `msg` under `key` and `nonce`: a
/// function of exactly these three inputs.
pub uninterp spec fn seal_of(key: Seq<u8>, nonce: Seq<u8>, msg: Seq<u8>) -> Seq<u8>;

/// What the AEAD returns when opening `ct` under `key` and `nonce`, when
/// authentication succeeds.
pub uninterp spec fn open_of(key: Seq<u8>, nonce: Seq<u8>, ct: Seq<u8>) -> Option<Seq<u8>>;

/// What opening recovers: the sealed message when `ct` is a genuine seal,
/// otherwise whatever the AEAD accepts.
pub open spec fn open_result(key: Seq<u8>, nonce: Seq<u8>, ct: Seq<u8>) -> Option<Seq<u8>> {
    if exists|m: Seq<u8>| ct == seal_of(key, nonce, m) {
        Some(choose|m: Seq<u8>| ct == seal_of(key, nonce, m))
    } else {
        open_of(key, nonce, ct)
    }
}

/// Relies on `chacha20poly1305::XChaCha20Poly1305` and
/// `aead::Aead::encrypt`: sealing is a function of the key, the nonce and
/// the plaintext alone; the ciphertext is the message plus the 16-byte
/// tag; the cipher rejects only messages of sixty-four times `u32::MAX`
/// bytes or more.
#[verifier::external_body]
fn xchacha_seal(key: &[u8], nonce: &[u8], msg: &[u8]) -> (r: Result<Vec<u8>, Error>)
    requires
        key@.len() == 32,
        nonce@.len() == 24,
    ensures
        r matches Ok(ct) ==> ct@ == seal_of(key@, nonce@, msg@),
        r matches Ok(ct) ==> ct@.len() == msg@.len() + 16,
        r matches Ok(ct) ==> forall|m2: Seq<u8>|
            m2 != msg@ ==> ct@ != #[trigger] seal_of(key@, nonce@, m2),
        msg@.len() < 0xffff_ffff ==> r is Ok,
{
    let cipher = chacha20poly1305::XChaCha20Poly1305::new_from_slice(key).map_err(
        |_| Error::CryptoFailure,
    )?;
    let nonce = chacha20poly1305::XNonce::try_from(nonce).map_err(|_| Error::CryptoFailure)?;
    cipher.encrypt(&nonce, msg).map_err(|_| Error::CryptoFailure)
}

/// Relies on `chacha20poly1305::XChaCha20Poly1305` and
/// `aead::Aead::decrypt`: opening is a function of the key, the nonce and
/// the ciphertext alone, and opening a sealed box yields the sealed
/// message.
#[verifier::external_body]
fn xchacha_open(key: &[u8], nonce: &[u8], ct: &[u8]) -> (r: Result<Vec<u8>, Error>)
    requires
        key@.len() == 32,
        nonce@.len() == 24,
    ensures
        r matches Ok(pt) ==> open_of(key@, nonce@, ct@) == Some(pt@),
        r matches Err(e) ==> open_of(key@, nonce@, ct@) is None && e is CryptoFailure,
        r is Err ==> forall|m: Seq<u8>| ct@ != seal_of(key@, nonce@, m),
        r matches Ok(pt) ==> forall|m: Seq<u8>|
            ct@ == seal_of(key@, nonce@, m) ==> pt@ == m,
{
    let cipher = chacha20poly1305::XChaCha20Poly1305::new_from_slice(key).map_err(
        |_| Error::CryptoFailure,
    )?;
    let nonce = chacha20poly1305::XNonce::try_from(nonce).map_err(|_| Error::CryptoFailure)?;
    cipher.decrypt(&nonce, ct).map_err(|_| Error::CryptoFailure)
}

/// Relies on `rand::fill` with the thread-local generator: the buffer is
/// filled in place, so its length is unchanged; nothing is promised of
/// the values.  The generator itself aborts the process when the
/// operating system's entropy source is unavailable.
#[verifier::external_body]
fn fill_random(buf: &mut Vec<u8>)
    ensures
        final(buf)@.len() == old(buf)@.len(),
{
    rand::fill(buf.as_mut_slice());
}

/// The encoded field name `nonce`.
pub open spec fn field_nonce() -> Seq<u8> {
    seq![0xa5u8, 0x6eu8, 0x6fu8, 0x6eu8, 0x63u8, 0x65u8]
}

/// The encoded field name `enc_data`.
pub open spec fn field_enc_data() -> Seq<u8> {
    seq![0xa8u8, 0x65u8, 0x6eu8, 0x63u8, 0x5fu8, 0x64u8, 0x61u8, 0x74u8, 0x61u8]
}

/// The inner encryption box: a map with named fields `nonce` and
/// `enc_data`.
pub open spec fn enc_box_enc_of(nonce: Seq<u8>, ct: Seq<u8>) -> Seq<u8> {
    msgpack::enc_fixmap_header_spec(2) + field_nonce() + msgpack::enc_bin_spec(nonce)
        + field_enc_data() + msgpack::enc_bin_spec(ct)
}

/// Decodes the inner encryption box.
pub open spec fn enc_box_dec_of(s: Seq<u8>, pos: int) -> Option<(Seq<u8>, Seq<u8>, int)> {
    match msgpack::dec_expect_spec(s, pos, msgpack::enc_fixmap_header_spec(2) + field_nonce()) {
        Some(p0) => match msgpack::dec_bin_spec(s, p0) {
            Some((nonce, p1)) => match msgpack::dec_expect_spec(s, p1, field_enc_data()) {
                Some(p2) => match msgpack::dec_bin_spec(s, p2) {
                    Some((ct, p3)) => Some((nonce, ct, p3)),
                    None => None,
                },
                None => None,
            },
            None => None,
        },
        None => None,
    }
}

/// An embedded encoded box decodes to its nonce and ciphertext.
pub proof fn lemma_enc_box_round_trip(nonce: Seq<u8>, ct: Seq<u8>, s: Seq<u8>, pos: int)
    requires
        0 <= pos,
        nonce.len() <= u32::MAX,
        ct.len() <= u32::MAX,
        pos + enc_box_enc_of(nonce, ct).len() <= s.len(),
        s.subrange(pos, pos + enc_box_enc_of(nonce, ct).len()) == enc_box_enc_of(nonce, ct),
    ensures
        enc_box_dec_of(s, pos) == Some(
            (nonce, ct, pos + enc_box_enc_of(nonce, ct).len()),
        ),
{
    let h = msgpack::enc_fixmap_header_spec(2) + field_nonce();
    let en = msgpack::enc_bin_spec(nonce);
    let fd = field_enc_data();
    let ec = msgpack::enc_bin_spec(ct);
    assert(enc_box_enc_of(nonce, ct) =~= h + (en + (fd + ec)));
    msgpack::lemma_subrange_split(s, pos, h, en + (fd + ec));
    msgpack::lemma_subrange_split(s, pos + h.len(), en, fd + ec);
    msgpack::lemma_subrange_split(s, pos + h.len() + en.len(), fd, ec);
    msgpack::lemma_enc_dec_expect(s, pos, h);
    msgpack::lemma_enc_dec_bin(s, pos + h.len(), nonce);
    msgpack::lemma_enc_dec_expect(s, pos + h.len() + en.len(), fd);
    msgpack::lemma_enc_dec_bin(s, pos + h.len() + en.len() + fd.len(), ct);
}

/// Appends the encoded inner box.
fn enc_box_encode(out: &mut Vec<u8>, nonce: &[u8], ct: &[u8])
    requires
        nonce@.len() <= u32::MAX,
        ct@.len() <= u32::MAX,
    ensures
        final(out)@ == old(out)@ + enc_box_enc_of(nonce@, ct@),
{
    out.push(0x82);
    out.push(0xa5);
    out.push(0x6e);
    out.push(0x6f);
    out.push(0x6e);
    out.push(0x63);
    out.push(0x65);
    msgpack::enc_bin(out, nonce);
    out.push(0xa8);
    out.push(0x65);
    out.push(0x6e);
    out.push(0x63);
    out.push(0x5f);
    out.push(0x64);
    out.push(0x61);
    out.push(0x74);
    out.push(0x61);
    msgpack::enc_bin(out, ct);
    proof {
        assert(out@ =~= old(out)@ + enc_box_enc_of(nonce@, ct@));
    }
}

/// Decodes the encoded inner box, exactly as `enc_box_dec_of` does.
fn enc_box_decode(s: &[u8], pos: usize) -> (r: Result<(Vec<u8>, Vec<u8>, usize), Error>)
    ensures
        match r {
            Ok((nonce, ct, end)) => enc_box_dec_of(s@, pos as int) == Some(
                (nonce@, ct@, end as int),
            ),
            Err(e) => enc_box_dec_of(s@, pos as int) is None && e is Serialization,
        },
{
    let mut header: Vec<u8> = Vec::new();
    header.push(0x82);
    header.push(0xa5);
    header.push(0x6e);
    header.push(0x6f);
    header.push(0x6e);
    header.push(0x63);
    header.push(0x65);
    proof {
        assert(header@ =~= msgpack::enc_fixmap_header_spec(2) + field_nonce());
    }
    let p0 = match msgpack::dec_expect(s, pos, header.as_slice()) {
        Ok(p) => p,
        Err(e) => {
            return Err(e);
        },
    };
    let (nonce, p1) = match msgpack::dec_bin(s, p0) {
        Ok(x) => x,
        Err(e) => {
            return Err(e);
        },
    };
    let mut fd: Vec<u8> = Vec::new();
    fd.push(0xa8);
    fd.push(0x65);
    fd.push(0x6e);
    fd.push(0x63);
    fd.push(0x5f);
    fd.push(0x64);
    fd.push(0x61);
    fd.push(0x74);
    fd.push(0x61);
    proof {
        assert(fd@ =~= field_enc_data());
    }
    let p2 = match msgpack::dec_expect(s, p1, fd.as_slice()) {
        Ok(p) => p,
        Err(e) => {
            return Err(e);
        },
    };
    let (ct, p3) = match msgpack::dec_bin(s, p2) {
        Ok(x) => x,
        Err(e) => {
            return Err(e);
        },
    };
    Ok((nonce, ct, p3))
}

/// The whole decryption pipeline of the cipher, as a function of the key
/// and the ciphertext envelope: unframe, parse the inner box, open the
/// AEAD.
pub open spec fn decrypt_pipeline(key: VersionBytesView, enc: Seq<u8>) -> Option<Seq<u8>> {
    if key.version != KEY_VERSION || key.content.len() != 32 {
        None
    } else {
        match <VersionBytes as Codec>::dec_of(enc, 0) {
            None => None,
            Some((vb, _)) => if vb.version != DATA_VERSION {
                None
            } else {
                match enc_box_dec_of(vb.content, 0) {
                    None => None,
                    Some((nonce, ct, _)) => if nonce.len() != 24 {
                        None
                    } else {
                        open_result(key.content, nonce, ct)
                    },
                }
            },
        }
    }
}

/// The cipher capability: generates keys, seals and opens envelopes.
#[derive(Debug)]
pub struct EncHandler;

impl EncHandler {
    pub fn new() -> EncHandler {
        EncHandler
    }

    /// A fresh symmetric key, tagged with the cipher's key version.
    /// Key generation itself cannot fail; the result is fallible only so
    /// that other cipher capabilities with fallible sources fit the same
    /// interface.
    pub fn gen_key(&self) -> (r: Result<VersionBytes, Error>)
        ensures
            r is Ok,
            r matches Ok(k) ==> k@.version == KEY_VERSION && k@.content.len() == 32 && k.wf(),
    {
        let mut key: Vec<u8> = Vec::new();
        let mut i: usize = 0;
        while i < 32
            invariant
                key@.len() == i,
                i <= 32,
            decreases 32 - i,
        {
            key.push(0);
            i = i + 1;
        }
        fill_random(&mut key);
        Ok(VersionBytes::new(KEY_VERSION, key))
    }

    /// Seals `clear_text` under `key`: a fresh nonce, the AEAD
    /// ciphertext, and the named-field envelope tagged with the data
    /// version.  Fails with a version mismatch exactly when the key does
    /// not carry the cipher's key version.
    pub fn encrypt(&self, key: VersionBytesRef<'_>, clear_text: &[u8]) -> (r: Result<
        Vec<u8>,
        Error,
    >)
        ensures
            r matches Ok(out) ==> key@.version == KEY_VERSION && key@.content.len() == 32
                && exists|n: Seq<u8>|
                n.len() == 24 && seal_of(key@.content, n, clear_text@).len() <= u32::MAX
                    && enc_box_enc_of(n, seal_of(key@.content, n, clear_text@)).len()
                    <= u32::MAX && enc_box_enc_of(
                    n,
                    seal_of(key@.content, n, clear_text@),
                ).len() + 16 <= usize::MAX && out@ == <VersionBytes as Codec>::enc_of(
                    VersionBytesView {
                        version: DATA_VERSION,
                        content: enc_box_enc_of(n, seal_of(key@.content, n, clear_text@)),
                    },
                ) && (forall|m2: Seq<u8>|
                    m2 != clear_text@ ==> #[trigger] seal_of(key@.content, n, m2) != seal_of(
                        key@.content,
                        n,
                        clear_text@,
                    )),
            key@.version != KEY_VERSION ==> (r matches Err(e) && e matches
                Error::VersionMismatch { expected, got } && expected@ == seq![KEY_VERSION] && got
                == key@.version),
            key@.version == KEY_VERSION && key@.content.len() == 32 && clear_text@.len() + 200
                < 0xffff_ffff ==> r is Ok,
    {
        if let Err(ve) = key.ensure_version(KEY_VERSION) {
            return Err(Error::VersionMismatch { expected: ve.expected, got: ve.got });
        }
        let key_bytes = key.as_ref();
        if key_bytes.len() != 32 {
            return Err(Error::CryptoFailure);
        }
        let mut nonce: Vec<u8> = Vec::new();
        let mut i: usize = 0;
        while i < 24
            invariant
                nonce@.len() == i,
                i <= 24,
            decreases 24 - i,
        {
            nonce.push(0);
            i = i + 1;
        }
        fill_random(&mut nonce);
        let ct = match xchacha_seal(key_bytes, nonce.as_slice(), clear_text) {
            Ok(ct) => ct,
            Err(e) => {
                return Err(e);
            },
        };
        if ct.len() as u64 > u32::MAX as u64 {
            return Err(Error::Serialization);
        }
        let mut box_bytes: Vec<u8> = Vec::new();
        enc_box_encode(&mut box_bytes, nonce.as_slice(), ct.as_slice());
        if box_bytes.len() as u64 > u32::MAX as u64 || box_bytes.len() > usize::MAX - 16 {
            return Err(Error::Serialization);
        }
        let version_box = VersionBytes::new(DATA_VERSION, box_bytes);
        let mut out: Vec<u8> = Vec::new();
        version_box.encode(&mut out);
        proof {
            let n = nonce@;
            assert(n.len() == 24 && seal_of(key@.content, n, clear_text@).len() <= u32::MAX
                && enc_box_enc_of(n, seal_of(key@.content, n, clear_text@)).len() <= u32::MAX
                && enc_box_enc_of(n, seal_of(key@.content, n, clear_text@)).len() + 16
                <= usize::MAX && out@ == <VersionBytes as Codec>::enc_of(
                VersionBytesView {
                    version: DATA_VERSION,
                    content: enc_box_enc_of(n, seal_of(key@.content, n, clear_text@)),
                },
            ) && (forall|m2: Seq<u8>|
                m2 != clear_text@ ==> #[trigger] seal_of(key@.content, n, m2) != seal_of(
                    key@.content,
                    n,
                    clear_text@,
                )));
        }
        Ok(out)
    }

    /// Opens an envelope sealed by `encrypt`.  Fails with a version
    /// mismatch — before any AEAD work — exactly when the key does not
    /// carry the cipher's key version; otherwise succeeds exactly when
    /// the decryption pipeline does, and returns what it recovers.
    pub fn decrypt(&self, key: VersionBytesRef<'_>, enc_data: &[u8]) -> (r: Result<
        Vec<u8>,
        Error,
    >)
        ensures
            key@.version != KEY_VERSION ==> (r matches Err(e) && e matches
                Error::VersionMismatch { expected, got } && expected@ == seq![KEY_VERSION] && got
                == key@.version),
            r matches Ok(pt) ==> decrypt_pipeline(key@, enc_data@) == Some(pt@),
            r is Err ==> decrypt_pipeline(key@, enc_data@) is None,
            r matches Err(e) ==> (e matches Error::VersionMismatch { expected, got } ==> expected@
                == seq![KEY_VERSION] || expected@ == seq![DATA_VERSION]),
    {
        if let Err(ve) = key.ensure_version(KEY_VERSION) {
            return Err(Error::VersionMismatch { expected: ve.expected, got: ve.got });
        }
        let key_bytes = key.as_ref();
        if key_bytes.len() != 32 {
            return Err(Error::CryptoFailure);
        }
        let (version_box, _) = match <VersionBytes as Codec>::decode(enc_data, 0) {
            Ok(x) => x,
            Err(e) => {
                return Err(e);
            },
        };
        let version = version_box.version();
        if version != DATA_VERSION {
            return Err(
                Error::VersionMismatch { expected: vec_of_data_version(), got: version },
            );
        }
        let content = version_box.as_ref();
        let (nonce, ct, _) = match enc_box_decode(content, 0) {
            Ok(x) => x,
            Err(e) => {
                return Err(e);
            },
        };
        if nonce.len() != 24 {
            return Err(Error::CryptoFailure);
        }
        let pt = match xchacha_open(key_bytes, nonce.as_slice(), ct.as_slice()) {
            Ok(pt) => pt,
            Err(e) => {
                proof {
                    assert(open_result(key@.content, nonce@, ct@) is None);
                }
                return Err(e);
            },
        };
        proof {
            if exists|m: Seq<u8>| ct@ == seal_of(key@.content, nonce@, m) {
                let m0 = choose|m: Seq<u8>| ct@ == seal_of(key@.content, nonce@, m);
                assert(pt@ == m0);
            }
            assert(open_result(key@.content, nonce@, ct@) == Some(pt@));
        }
        Ok(pt)
    }
}

/// The XChaCha20-Poly1305 handler is a cipher capability.
impl crate::cryptor::Cryptor for EncHandler {
    open spec fn decrypt_of(&self, key: VersionBytesView, enc: Seq<u8>) -> Option<Seq<u8>> {
        decrypt_pipeline(key, enc)
    }

    fn set_remote_meta(&mut self, data: Option<&crate::crdt::mvreg::MVReg<VersionBytes>>) -> (r:
        Result<(), Error>) {
        Ok(())
    }

    fn gen_key(&self) -> (r: Result<VersionBytes, Error>) {
        self.gen_key()
    }

    fn encrypt(&self, key: VersionBytesRef<'_>, clear_text: &[u8]) -> (r: Result<
        Vec<u8>,
        Error,
    >) {
        let r = self.encrypt(key, clear_text);
        proof {
            match &r {
                Ok(out) => {
                    let n = choose|n: Seq<u8>|
                        n.len() == 24 && seal_of(key@.content, n, clear_text@).len()
                            <= u32::MAX && enc_box_enc_of(
                            n,
                            seal_of(key@.content, n, clear_text@),
                        ).len() <= u32::MAX && enc_box_enc_of(
                            n,
                            seal_of(key@.content, n, clear_text@),
                        ).len() + 16 <= usize::MAX && out@ == <VersionBytes as Codec>::enc_of(
                            VersionBytesView {
                                version: DATA_VERSION,
                                content: enc_box_enc_of(
                                    n,
                                    seal_of(key@.content, n, clear_text@),
                                ),
                            },
                        ) && (forall|m2: Seq<u8>|
                            m2 != clear_text@ ==> #[trigger] seal_of(key@.content, n, m2)
                                != seal_of(key@.content, n, clear_text@));
                    lemma_pipeline_of_genuine(key@, clear_text@, n, out@);
                },
                Err(_) => {},
            }
        }
        r
    }

    fn decrypt(&self, key: VersionBytesRef<'_>, enc_data: &[u8]) -> (r: Result<
        Vec<u8>,
        Error,
    >) {
        let r = self.decrypt(key, enc_data);
        proof {
            // this cipher's version diagnostics carry its key or data
            // version, which differ from the engine's storage-format set
            assert(seq![KEY_VERSION][0] != crate::supported_versions_spec()[0]);
            assert(seq![DATA_VERSION][0] != crate::supported_versions_spec()[0]);
            assert(seq![KEY_VERSION] != crate::supported_versions_spec());
            assert(seq![DATA_VERSION] != crate::supported_versions_spec());
        }
        r
    }
}

/// A genuine envelope decrypts back to the sealed message.
proof fn lemma_pipeline_of_genuine(key: VersionBytesView, msg: Seq<u8>, n: Seq<u8>, out: Seq<u8>)
    requires
        key.version == KEY_VERSION,
        key.content.len() == 32,
        n.len() == 24,
        seal_of(key.content, n, msg) == seal_of(key.content, n, msg),
        forall|m2: Seq<u8>| m2 != msg ==> seal_of(key.content, n, msg) != #[trigger] seal_of(
            key.content,
            n,
            m2,
        ),
        n.len() <= u32::MAX,
        seal_of(key.content, n, msg).len() <= u32::MAX,
        enc_box_enc_of(n, seal_of(key.content, n, msg)).len() <= u32::MAX,
        enc_box_enc_of(n, seal_of(key.content, n, msg)).len() + 16 <= usize::MAX,
        out == <VersionBytes as Codec>::enc_of(
            VersionBytesView {
                version: DATA_VERSION,
                content: enc_box_enc_of(n, seal_of(key.content, n, msg)),
            },
        ),
    ensures
        decrypt_pipeline(key, out) == Some(msg),
{
    let ct = seal_of(key.content, n, msg);
    let bv = VersionBytesView { version: DATA_VERSION, content: enc_box_enc_of(n, ct) };
    assert(out.subrange(0, <VersionBytes as Codec>::enc_of(bv).len() as int)
        =~= <VersionBytes as Codec>::enc_of(bv));
    <VersionBytes as Codec>::lemma_enc_dec(bv, out, 0);
    assert(bv.content.subrange(0, enc_box_enc_of(n, ct).len() as int) =~= enc_box_enc_of(
        n,
        ct,
    ));
    lemma_enc_box_round_trip(n, ct, bv.content, 0);
    assert(exists|m: Seq<u8>| ct == seal_of(key.content, n, m));
    let m0 = choose|m: Seq<u8>| ct == seal_of(key.content, n, m);
    assert(m0 == msg);
}

/// The expected data version, as a vector for diagnostics.
fn vec_of_data_version() -> (r: Vec<u128>)
    ensures
        r@ == seq![DATA_VERSION],
{
    let mut r: Vec<u128> = Vec::new();
    r.push(DATA_VERSION);
    proof {
        assert(r@ =~= seq![DATA_VERSION]);
    }
    r
}

} // verus!
