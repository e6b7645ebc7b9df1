//! An encrypted, offline-capable, multi-writer replicated store for a single
//! logical document whose state is a conflict-free replicated data type.
//!
//! Replicas exchange state through a shared blob-oriented remote storage
//! area.  Every persisted blob is framed as a 16-byte version identifier
//! followed by a payload; payloads are message-pack encoded.  Writes are
//! expressed as CRDT operations, persisted as encrypted blobs, and merged by
//! every replica; compaction collapses accumulated operations into a single
//! encrypted state snapshot.  Symmetric keys are themselves managed as a CRDT
//! and distributed through the same channel.

pub mod cipher;
pub mod crdt;
pub mod cryptor;
pub mod error;
pub mod key_cryptor;
pub mod msgpack;
pub mod storage;
pub mod utils;

use vstd::prelude::*;

use crate::crdt::mvreg::{mvreg_wf, MVReg};
use crate::crdt::vclock::{entries_wf, seq_get, VClock};
use crate::crdt::{CmCrdt, CvCrdt, DeepClone};
use crate::cryptor::Cryptor;
use crate::error::Error;
use crate::key_cryptor::{Key, KeyCryptor, Keys, KeysView};
use crate::msgpack::Codec;
use crate::storage::{framed, Storage};
use crate::utils::version_bytes::{
    serialized_spec, sorted_ascending, u128_from_be, VersionBytes, VersionBytesView,
};

verus! {

/// The storage-format version of every blob the engine itself frames.
pub const CURRENT_VERSION: u128 = 0xe834d789_101b_4634_9823_9de990a9051f;

/// The storage-format versions this engine can read, sorted ascending.
pub open spec fn supported_versions_spec() -> Seq<u128> {
    seq![CURRENT_VERSION]
}

/// The storage-format versions this engine can read, sorted ascending.
fn supported_versions() -> (r: Vec<u128>)
    ensures
        r@ == supported_versions_spec(),
        sorted_ascending(r@),
{
    let mut r: Vec<u128> = Vec::new();
    r.push(CURRENT_VERSION);
    proof {
        assert(r@ =~= supported_versions_spec());
    }
    r
}

/// The replica's identity, created once at first open.
#[derive(Debug, Clone)]
pub struct LocalMeta {
    local_actor_id: u128,
}

impl View for LocalMeta {
    type V = u128;

    closed spec fn view(&self) -> u128 {
        self.local_actor_id
    }
}

/// The encoded field name `local_actor_id`.
pub open spec fn field_local_actor_id() -> Seq<u8> {
    seq![
        0xaeu8, 0x6cu8, 0x6fu8, 0x63u8, 0x61u8, 0x6cu8, 0x5fu8, 0x61u8, 0x63u8, 0x74u8, 0x6fu8,
        0x72u8, 0x5fu8, 0x69u8, 0x64u8,
    ]
}

/// Local meta is a map with the named field `local_actor_id`.
impl Codec for LocalMeta {
    open spec fn enc_of(m: u128) -> Seq<u8> {
        crate::msgpack::enc_fixmap_header_spec(1) + field_local_actor_id()
            + crate::msgpack::enc_bin_spec(crate::utils::version_bytes::u128_be_bytes(m))
    }

    open spec fn dec_of(s: Seq<u8>, pos: int) -> Option<(u128, int)> {
        match crate::msgpack::dec_expect_spec(
            s,
            pos,
            crate::msgpack::enc_fixmap_header_spec(1) + field_local_actor_id(),
        ) {
            Some(p0) => match crate::msgpack::dec_bin_spec(s, p0) {
                Some((ib, p1)) => if ib.len() == 16 {
                    Some((u128_from_be(ib), p1))
                } else {
                    None
                },
                None => None,
            },
            None => None,
        }
    }

    open spec fn valid_of(m: u128) -> bool {
        true
    }

    proof fn lemma_enc_len(m: u128) {
    }

    proof fn lemma_dec_progress(s: Seq<u8>, pos: int) {
    }

    proof fn lemma_enc_dec(m: u128, s: Seq<u8>, pos: int) {
        let h = crate::msgpack::enc_fixmap_header_spec(1) + field_local_actor_id();
        let eb = crate::msgpack::enc_bin_spec(crate::utils::version_bytes::u128_be_bytes(m));
        assert(Self::enc_of(m) =~= h + eb);
        crate::msgpack::lemma_subrange_split(s, pos, h, eb);
        crate::msgpack::lemma_enc_dec_expect(s, pos, h);
        crate::msgpack::lemma_enc_dec_bin(
            s,
            pos + h.len(),
            crate::utils::version_bytes::u128_be_bytes(m),
        );
        crate::utils::version_bytes::lemma_u128_be_round_trip(m);
    }

    fn encode(&self, out: &mut Vec<u8>) {
        out.push(0x81);
        out.push(0xae);
        out.push(0x6c);
        out.push(0x6f);
        out.push(0x63);
        out.push(0x61);
        out.push(0x6c);
        out.push(0x5f);
        out.push(0x61);
        out.push(0x63);
        out.push(0x74);
        out.push(0x6f);
        out.push(0x72);
        out.push(0x5f);
        out.push(0x69);
        out.push(0x64);
        let ib = crate::utils::version_bytes::u128_to_be_bytes(self.local_actor_id);
        crate::msgpack::enc_bin(out, ib.as_slice());
        proof {
            assert(out@ =~= old(out)@ + Self::enc_of(self@));
        }
    }

    fn decode(s: &[u8], pos: usize) -> (r: Result<(Self, usize), Error>) {
        let mut header: Vec<u8> = Vec::new();
        header.push(0x81);
        header.push(0xae);
        header.push(0x6c);
        header.push(0x6f);
        header.push(0x63);
        header.push(0x61);
        header.push(0x6c);
        header.push(0x5f);
        header.push(0x61);
        header.push(0x63);
        header.push(0x74);
        header.push(0x6f);
        header.push(0x72);
        header.push(0x5f);
        header.push(0x69);
        header.push(0x64);
        proof {
            assert(header@ =~= crate::msgpack::enc_fixmap_header_spec(1)
                + field_local_actor_id());
        }
        let p0 = match crate::msgpack::dec_expect(s, pos, header.as_slice()) {
            Ok(p) => p,
            Err(e) => {
                return Err(e);
            },
        };
        let (ib, p1) = match crate::msgpack::dec_bin(s, p0) {
            Ok(x) => x,
            Err(e) => {
                return Err(e);
            },
        };
        if ib.len() != 16 {
            return Err(Error::Serialization);
        }
        let id = crate::utils::version_bytes::u128_from_be_slice(ib.as_slice());
        Ok((LocalMeta { local_actor_id: id }, p1))
    }

    fn is_valid(&self) -> (r: bool) {
        true
    }
}

/// The user CRDT plus, per actor, one past the largest op version already
/// folded into it.
#[derive(Debug, Clone)]
pub struct StateWrapper<S> {
    next_op_versions: VClock,
    state: S,
}

impl<S: View> View for StateWrapper<S> {
    type V = (Seq<(u128, u64)>, S::V);

    closed spec fn view(&self) -> (Seq<(u128, u64)>, S::V) {
        (self.next_op_versions@, self.state@)
    }
}

/// The encoded field name `next_op_versions`.
pub open spec fn field_next_op_versions() -> Seq<u8> {
    seq![
        0xb0u8, 0x6eu8, 0x65u8, 0x78u8, 0x74u8, 0x5fu8, 0x6fu8, 0x70u8, 0x5fu8, 0x76u8, 0x65u8,
        0x72u8, 0x73u8, 0x69u8, 0x6fu8, 0x6eu8, 0x73u8,
    ]
}

/// The encoded field name `state`.
pub open spec fn field_state() -> Seq<u8> {
    seq![0xa5u8, 0x73u8, 0x74u8, 0x61u8, 0x74u8, 0x65u8]
}

/// A state wrapper is a map with named fields `next_op_versions` and
/// `state`.
impl<S: CmCrdt> Codec for StateWrapper<S> {
    open spec fn enc_of(m: (Seq<(u128, u64)>, S::V)) -> Seq<u8> {
        crate::msgpack::enc_fixmap_header_spec(2) + field_next_op_versions()
            + <VClock as Codec>::enc_of(m.0) + field_state() + S::enc_of(m.1)
    }

    open spec fn dec_of(s: Seq<u8>, pos: int) -> Option<((Seq<(u128, u64)>, S::V), int)> {
        match crate::msgpack::dec_expect_spec(
            s,
            pos,
            crate::msgpack::enc_fixmap_header_spec(2) + field_next_op_versions(),
        ) {
            Some(p0) => match <VClock as Codec>::dec_of(s, p0) {
                Some((clock, p1)) => match crate::msgpack::dec_expect_spec(s, p1, field_state()) {
                    Some(p2) => match S::dec_of(s, p2) {
                        Some((st, p3)) => Some(((clock, st), p3)),
                        None => None,
                    },
                    None => None,
                },
                None => None,
            },
            None => None,
        }
    }

    open spec fn valid_of(m: (Seq<(u128, u64)>, S::V)) -> bool {
        <VClock as Codec>::valid_of(m.0) && S::valid_of(m.1)
    }

    proof fn lemma_enc_len(m: (Seq<(u128, u64)>, S::V)) {
    }

    proof fn lemma_dec_progress(s: Seq<u8>, pos: int) {
        match crate::msgpack::dec_expect_spec(
            s,
            pos,
            crate::msgpack::enc_fixmap_header_spec(2) + field_next_op_versions(),
        ) {
            Some(p0) => {
                <VClock as Codec>::lemma_dec_progress(s, p0);
                match <VClock as Codec>::dec_of(s, p0) {
                    Some((clock, p1)) => {
                        match crate::msgpack::dec_expect_spec(s, p1, field_state()) {
                            Some(p2) => {
                                S::lemma_dec_progress(s, p2);
                            },
                            None => {},
                        }
                    },
                    None => {},
                }
            },
            None => {},
        }
    }

    proof fn lemma_enc_dec(m: (Seq<(u128, u64)>, S::V), s: Seq<u8>, pos: int) {
        let h = crate::msgpack::enc_fixmap_header_spec(2) + field_next_op_versions();
        let ec = <VClock as Codec>::enc_of(m.0);
        let fs = field_state();
        let es = S::enc_of(m.1);
        assert(Self::enc_of(m) =~= h + (ec + (fs + es)));
        crate::msgpack::lemma_subrange_split(s, pos, h, ec + (fs + es));
        crate::msgpack::lemma_subrange_split(s, pos + h.len(), ec, fs + es);
        crate::msgpack::lemma_subrange_split(s, pos + h.len() + ec.len(), fs, es);
        crate::msgpack::lemma_enc_dec_expect(s, pos, h);
        <VClock as Codec>::lemma_enc_dec(m.0, s, pos + h.len());
        crate::msgpack::lemma_enc_dec_expect(s, pos + h.len() + ec.len(), fs);
        S::lemma_enc_dec(m.1, s, pos + h.len() + ec.len() + fs.len());
    }

    fn encode(&self, out: &mut Vec<u8>) {
        out.push(0x82);
        out.push(0xb0);
        out.push(0x6e);
        out.push(0x65);
        out.push(0x78);
        out.push(0x74);
        out.push(0x5f);
        out.push(0x6f);
        out.push(0x70);
        out.push(0x5f);
        out.push(0x76);
        out.push(0x65);
        out.push(0x72);
        out.push(0x73);
        out.push(0x69);
        out.push(0x6f);
        out.push(0x6e);
        out.push(0x73);
        self.next_op_versions.encode(out);
        out.push(0xa5);
        out.push(0x73);
        out.push(0x74);
        out.push(0x61);
        out.push(0x74);
        out.push(0x65);
        self.state.encode(out);
        proof {
            assert(out@ =~= old(out)@ + Self::enc_of(self@));
        }
    }

    fn decode(s: &[u8], pos: usize) -> (r: Result<(Self, usize), Error>) {
        let mut header: Vec<u8> = Vec::new();
        header.push(0x82);
        header.push(0xb0);
        header.push(0x6e);
        header.push(0x65);
        header.push(0x78);
        header.push(0x74);
        header.push(0x5f);
        header.push(0x6f);
        header.push(0x70);
        header.push(0x5f);
        header.push(0x76);
        header.push(0x65);
        header.push(0x72);
        header.push(0x73);
        header.push(0x69);
        header.push(0x6f);
        header.push(0x6e);
        header.push(0x73);
        proof {
            assert(header@ =~= crate::msgpack::enc_fixmap_header_spec(2)
                + field_next_op_versions());
        }
        let p0 = match crate::msgpack::dec_expect(s, pos, header.as_slice()) {
            Ok(p) => p,
            Err(e) => {
                return Err(e);
            },
        };
        let (clock, p1) = match <VClock as Codec>::decode(s, p0) {
            Ok(x) => x,
            Err(e) => {
                return Err(e);
            },
        };
        let mut fs: Vec<u8> = Vec::new();
        fs.push(0xa5);
        fs.push(0x73);
        fs.push(0x74);
        fs.push(0x61);
        fs.push(0x74);
        fs.push(0x65);
        proof {
            assert(fs@ =~= field_state());
        }
        let p2 = match crate::msgpack::dec_expect(s, p1, fs.as_slice()) {
            Ok(p) => p,
            Err(e) => {
                return Err(e);
            },
        };
        let (state, p3) = match S::decode(s, p2) {
            Ok(x) => x,
            Err(e) => {
                return Err(e);
            },
        };
        Ok((StateWrapper { next_op_versions: clock, state }, p3))
    }

    fn is_valid(&self) -> (r: bool) {
        self.next_op_versions.is_valid() && self.state.is_valid()
    }
}

/// The replica's public identity.
#[derive(Debug, Clone)]
pub struct Info {
    actor: u128,
}

impl Info {
    /// The replica's actor id.
    pub closed spec fn actor_spec(&self) -> u128 {
        self.actor
    }

    pub fn actor(&self) -> (r: u128)
        ensures
            r == self.actor_spec(),
    {
        self.actor
    }
}

/// Everything a replica is opened with.
pub struct OpenOptions<ST, C, KC> {
    pub storage: ST,
    pub cryptor: C,
    pub key_cryptor: KC,
    pub create: bool,
    pub supported_data_versions: Vec<u128>,
    pub current_data_version: u128,
}

/// The encoded field name `storage`.
pub open spec fn field_storage() -> Seq<u8> {
    seq![0xa7u8, 0x73u8, 0x74u8, 0x6fu8, 0x72u8, 0x61u8, 0x67u8, 0x65u8]
}

/// The encoded field name `cryptor`.
pub open spec fn field_cryptor() -> Seq<u8> {
    seq![0xa7u8, 0x63u8, 0x72u8, 0x79u8, 0x70u8, 0x74u8, 0x6fu8, 0x72u8]
}

/// The encoded field name `key_cryptor`.
pub open spec fn field_key_cryptor() -> Seq<u8> {
    seq![
        0xabu8, 0x6bu8, 0x65u8, 0x79u8, 0x5fu8, 0x63u8, 0x72u8, 0x79u8, 0x70u8, 0x74u8, 0x6fu8,
        0x72u8,
    ]
}


/// Appends the encoded field name `storage`.
fn push_field_storage(out: &mut Vec<u8>)
    ensures
        final(out)@ == old(out)@ + field_storage(),
{
    out.push(0xa7);
    out.push(0x73);
    out.push(0x74);
    out.push(0x6f);
    out.push(0x72);
    out.push(0x61);
    out.push(0x67);
    out.push(0x65);
    proof {
        assert(out@ =~= old(out)@ + field_storage());
    }
}

/// Appends the encoded field name `cryptor`.
fn push_field_cryptor(out: &mut Vec<u8>)
    ensures
        final(out)@ == old(out)@ + field_cryptor(),
{
    out.push(0xa7);
    out.push(0x63);
    out.push(0x72);
    out.push(0x79);
    out.push(0x70);
    out.push(0x74);
    out.push(0x6f);
    out.push(0x72);
    proof {
        assert(out@ =~= old(out)@ + field_cryptor());
    }
}

/// Appends the encoded field name `key_cryptor`.
fn push_field_key_cryptor(out: &mut Vec<u8>)
    ensures
        final(out)@ == old(out)@ + field_key_cryptor(),
{
    out.push(0xab);
    out.push(0x6b);
    out.push(0x65);
    out.push(0x79);
    out.push(0x5f);
    out.push(0x63);
    out.push(0x72);
    out.push(0x79);
    out.push(0x70);
    out.push(0x74);
    out.push(0x6f);
    out.push(0x72);
    proof {
        assert(out@ =~= old(out)@ + field_key_cryptor());
    }
}

/// One multi-value register of framed blobs per capability: blob store,
/// cipher, and envelope.  The whole value merges component-wise.
#[derive(Debug, Clone)]
pub struct RemoteMeta {
    storage: MVReg<VersionBytes>,
    cryptor: MVReg<VersionBytes>,
    key_cryptor: MVReg<VersionBytes>,
}

/// The ghost shape of the tripartite remote meta.
pub struct RemoteMetaView {
    pub storage: Seq<(Seq<(u128, u64)>, VersionBytesView)>,
    pub cryptor: Seq<(Seq<(u128, u64)>, VersionBytesView)>,
    pub key_cryptor: Seq<(Seq<(u128, u64)>, VersionBytesView)>,
}

impl View for RemoteMeta {
    type V = RemoteMetaView;

    closed spec fn view(&self) -> RemoteMetaView {
        RemoteMetaView {
            storage: self.storage@,
            cryptor: self.cryptor@,
            key_cryptor: self.key_cryptor@,
        }
    }
}

impl RemoteMeta {
    pub open spec fn wf(self) -> bool {
        mvreg_wf(self@.storage) && mvreg_wf(self@.cryptor) && mvreg_wf(self@.key_cryptor)
    }

    /// The empty meta: no register holds a value yet.
    pub fn new() -> (r: RemoteMeta)
        ensures
            r.wf(),
            r@.storage.len() == 0,
            r@.cryptor.len() == 0,
            r@.key_cryptor.len() == 0,
    {
        RemoteMeta {
            storage: MVReg::new(),
            cryptor: MVReg::new(),
            key_cryptor: MVReg::new(),
        }
    }

    /// Merges component-wise.
    pub fn merge(&mut self, other: RemoteMeta)
        requires
            old(self).wf(),
            other.wf(),
        ensures
            final(self).wf(),
            final(self)@.storage == crate::crdt::mvreg::mvreg_merged(
                old(self)@.storage,
                other@.storage,
            ),
            final(self)@.cryptor == crate::crdt::mvreg::mvreg_merged(
                old(self)@.cryptor,
                other@.cryptor,
            ),
            final(self)@.key_cryptor == crate::crdt::mvreg::mvreg_merged(
                old(self)@.key_cryptor,
                other@.key_cryptor,
            ),
    {
        self.storage.merge_with(other.storage);
        self.cryptor.merge_with(other.cryptor);
        self.key_cryptor.merge_with(other.key_cryptor);
    }
}

/// Remote meta is a map with named fields `storage`, `cryptor` and
/// `key_cryptor`.
impl Codec for RemoteMeta {
    open spec fn enc_of(m: RemoteMetaView) -> Seq<u8> {
        crate::msgpack::enc_fixmap_header_spec(3) + field_storage() + <MVReg<
            VersionBytes,
        > as Codec>::enc_of(m.storage) + field_cryptor() + <MVReg<VersionBytes> as Codec>::enc_of(
            m.cryptor,
        ) + field_key_cryptor() + <MVReg<VersionBytes> as Codec>::enc_of(m.key_cryptor)
    }

    open spec fn dec_of(s: Seq<u8>, pos: int) -> Option<(RemoteMetaView, int)> {
        match crate::msgpack::dec_expect_spec(
            s,
            pos,
            crate::msgpack::enc_fixmap_header_spec(3) + field_storage(),
        ) {
            Some(p0) => match <MVReg<VersionBytes> as Codec>::dec_of(s, p0) {
                Some((st, p1)) => match crate::msgpack::dec_expect_spec(s, p1, field_cryptor()) {
                    Some(p2) => match <MVReg<VersionBytes> as Codec>::dec_of(s, p2) {
                        Some((cr, p3)) => match crate::msgpack::dec_expect_spec(
                            s,
                            p3,
                            field_key_cryptor(),
                        ) {
                            Some(p4) => match <MVReg<VersionBytes> as Codec>::dec_of(s, p4) {
                                Some((kc, p5)) => Some(
                                    (
                                        RemoteMetaView {
                                            storage: st,
                                            cryptor: cr,
                                            key_cryptor: kc,
                                        },
                                        p5,
                                    ),
                                ),
                                None => None,
                            },
                            None => None,
                        },
                        None => None,
                    },
                    None => None,
                },
                None => None,
            },
            None => None,
        }
    }

    open spec fn valid_of(m: RemoteMetaView) -> bool {
        &&& <MVReg<VersionBytes> as Codec>::valid_of(m.storage)
        &&& <MVReg<VersionBytes> as Codec>::valid_of(m.cryptor)
        &&& <MVReg<VersionBytes> as Codec>::valid_of(m.key_cryptor)
    }

    proof fn lemma_enc_len(m: RemoteMetaView) {
    }

    proof fn lemma_dec_progress(s: Seq<u8>, pos: int) {
        match crate::msgpack::dec_expect_spec(
            s,
            pos,
            crate::msgpack::enc_fixmap_header_spec(3) + field_storage(),
        ) {
            Some(p0) => {
                <MVReg<VersionBytes> as Codec>::lemma_dec_progress(s, p0);
                match <MVReg<VersionBytes> as Codec>::dec_of(s, p0) {
                    Some((st, p1)) => {
                        match crate::msgpack::dec_expect_spec(s, p1, field_cryptor()) {
                            Some(p2) => {
                                <MVReg<VersionBytes> as Codec>::lemma_dec_progress(s, p2);
                                match <MVReg<VersionBytes> as Codec>::dec_of(s, p2) {
                                    Some((cr, p3)) => {
                                        match crate::msgpack::dec_expect_spec(
                                            s,
                                            p3,
                                            field_key_cryptor(),
                                        ) {
                                            Some(p4) => {
                                                <MVReg<
                                                    VersionBytes,
                                                > as Codec>::lemma_dec_progress(s, p4);
                                            },
                                            None => {},
                                        }
                                    },
                                    None => {},
                                }
                            },
                            None => {},
                        }
                    },
                    None => {},
                }
            },
            None => {},
        }
    }

    #[verifier::rlimit(60)]
    proof fn lemma_enc_dec(m: RemoteMetaView, s: Seq<u8>, pos: int) {
        let h = crate::msgpack::enc_fixmap_header_spec(3) + field_storage();
        let e1 = <MVReg<VersionBytes> as Codec>::enc_of(m.storage);
        let f2 = field_cryptor();
        let e2 = <MVReg<VersionBytes> as Codec>::enc_of(m.cryptor);
        let f3 = field_key_cryptor();
        let e3 = <MVReg<VersionBytes> as Codec>::enc_of(m.key_cryptor);
        assert(Self::enc_of(m) =~= h + (e1 + (f2 + (e2 + (f3 + e3)))));
        crate::msgpack::lemma_subrange_split(s, pos, h, e1 + (f2 + (e2 + (f3 + e3))));
        crate::msgpack::lemma_subrange_split(s, pos + h.len(), e1, f2 + (e2 + (f3 + e3)));
        crate::msgpack::lemma_subrange_split(s, pos + h.len() + e1.len(), f2, e2 + (f3 + e3));
        crate::msgpack::lemma_subrange_split(
            s,
            pos + h.len() + e1.len() + f2.len(),
            e2,
            f3 + e3,
        );
        crate::msgpack::lemma_subrange_split(
            s,
            pos + h.len() + e1.len() + f2.len() + e2.len(),
            f3,
            e3,
        );
        crate::msgpack::lemma_enc_dec_expect(s, pos, h);
        <MVReg<VersionBytes> as Codec>::lemma_enc_dec(m.storage, s, pos + h.len());
        crate::msgpack::lemma_enc_dec_expect(s, pos + h.len() + e1.len(), f2);
        <MVReg<VersionBytes> as Codec>::lemma_enc_dec(
            m.cryptor,
            s,
            pos + h.len() + e1.len() + f2.len(),
        );
        crate::msgpack::lemma_enc_dec_expect(s, pos + h.len() + e1.len() + f2.len() + e2.len(), f3);
        <MVReg<VersionBytes> as Codec>::lemma_enc_dec(
            m.key_cryptor,
            s,
            pos + h.len() + e1.len() + f2.len() + e2.len() + f3.len(),
        );
    }

    fn encode(&self, out: &mut Vec<u8>) {
        crate::msgpack::enc_fixmap_header(out, 3);
        push_field_storage(out);
        self.storage.encode(out);
        push_field_cryptor(out);
        self.cryptor.encode(out);
        push_field_key_cryptor(out);
        self.key_cryptor.encode(out);
        proof {
            assert(out@ =~= old(out)@ + Self::enc_of(self@));
        }
    }

    fn decode(s: &[u8], pos: usize) -> (r: Result<(Self, usize), Error>) {
        let mut h: Vec<u8> = Vec::new();
        crate::msgpack::enc_fixmap_header(&mut h, 3);
        push_field_storage(&mut h);
        proof {
            assert(h@ =~= crate::msgpack::enc_fixmap_header_spec(3) + field_storage());
        }
        let p0 = match crate::msgpack::dec_expect(s, pos, h.as_slice()) {
            Ok(p) => p,
            Err(e) => {
                return Err(e);
            },
        };
        let (st, p1) = match <MVReg<VersionBytes> as Codec>::decode(s, p0) {
            Ok(x) => x,
            Err(e) => {
                return Err(e);
            },
        };
        let mut f2: Vec<u8> = Vec::new();
        push_field_cryptor(&mut f2);
        proof {
            assert(f2@ =~= field_cryptor());
        }
        let p2 = match crate::msgpack::dec_expect(s, p1, f2.as_slice()) {
            Ok(p) => p,
            Err(e) => {
                return Err(e);
            },
        };
        let (cr, p3) = match <MVReg<VersionBytes> as Codec>::decode(s, p2) {
            Ok(x) => x,
            Err(e) => {
                return Err(e);
            },
        };
        let mut f3: Vec<u8> = Vec::new();
        push_field_key_cryptor(&mut f3);
        proof {
            assert(f3@ =~= field_key_cryptor());
        }
        let p4 = match crate::msgpack::dec_expect(s, p3, f3.as_slice()) {
            Ok(p) => p,
            Err(e) => {
                return Err(e);
            },
        };
        let (kc, p5) = match <MVReg<VersionBytes> as Codec>::decode(s, p4) {
            Ok(x) => x,
            Err(e) => {
                return Err(e);
            },
        };
        Ok((RemoteMeta { storage: st, cryptor: cr, key_cryptor: kc }, p5))
    }

    fn is_valid(&self) -> (r: bool) {
        self.storage.is_valid() && self.cryptor.is_valid() && self.key_cryptor.is_valid()
    }
}

/// True when no name appears twice.
pub open spec fn distinct_names(s: Seq<Seq<char>>) -> bool {
    forall|i: int, j: int| 0 <= i < j < s.len() ==> (#[trigger] s[i]) != (#[trigger] s[j])
}

/// The set of names in a sequence of names.
pub open spec fn name_set(s: Seq<Seq<char>>) -> Set<Seq<char>> {
    s.to_set()
}

/// True when `names` (as views) contains `name`.
fn contains_name(names: &Vec<String>, name: &String) -> (r: bool)
    ensures
        r <==> msgpack::views_of(names@).contains(name@),
{
    let n = names.len();
    let mut i: usize = 0;
    while i < n
        invariant
            i <= n,
            n == names@.len(),
            forall|j: int| 0 <= j < i ==> (#[trigger] names@[j])@ != name@,
        decreases n - i,
    {
        if names[i].eq(name) {
            proof {
                assert(msgpack::views_of(names@)[i as int] == names@[i as int]@);
            }
            return true;
        }
        i = i + 1;
    }
    proof {
        if msgpack::views_of(names@).contains(name@) {
            let j = choose|j: int|
                0 <= j < names@.len() && msgpack::views_of(names@)[j] == name@;
            assert(names@[j]@ == name@);
        }
    }
    false
}

/// Sorts the versions ascending and drops duplicates, preserving
/// membership.
fn sort_dedup(xs: Vec<u128>) -> (r: Vec<u128>)
    ensures
        sorted_ascending(r@),
        forall|x: u128| r@.contains(x) <==> xs@.contains(x),
{
    let mut r: Vec<u128> = Vec::new();
    let n = xs.len();
    let mut i: usize = 0;
    while i < n
        invariant
            i <= n,
            n == xs@.len(),
            sorted_ascending(r@),
            forall|x: u128| r@.contains(x) <==> xs@.take(i as int).contains(x),
        decreases n - i,
    {
        let x = xs[i];
        let ghost pre = r@;
        let m = r.len();
        let mut k: usize = 0;
        while k < m && r[k] < x
            invariant
                k <= m,
                m == r@.len(),
                r@ == pre,
                sorted_ascending(r@),
                forall|j: int| 0 <= j < k ==> (#[trigger] r@[j]) < x,
            decreases m - k,
        {
            k = k + 1;
        }
        let present = k < r.len() && r[k] == x;
        if !present {
            r.insert(k, x);
            proof {
                assert forall|p: int, q: int|
                    0 <= p < q < r@.len() implies (#[trigger] r@[p]) < (#[trigger] r@[q]) by {
                    if q < k {
                    } else if p < k && q == k {
                    } else if p < k && q > k {
                        assert(r@[q] == pre[q - 1]);
                    } else if p == k {
                        assert(r@[q] == pre[q - 1]);
                        assert(pre[q - 1] >= x);
                        // x is absent, so the successor is strictly above it
                        assert(pre[q - 1] != x) by {
                            if q - 1 > k {
                                assert(pre[k as int] < pre[q - 1]);
                            }
                        }
                    } else {
                        assert(r@[p] == pre[p - 1]);
                        assert(r@[q] == pre[q - 1]);
                    }
                }
            }
        }
        proof {
            assert(xs@.take(i + 1).drop_last() =~= xs@.take(i as int));
            assert(xs@.take(i + 1).last() == x);
            assert forall|y: u128| r@.contains(y) <==> xs@.take(i + 1).contains(y) by {
                if present {
                    assert(r@ == pre);
                    if y == x {
                        assert(pre.contains(x)) by {
                            assert(pre[k as int] == x);
                        }
                    } else {
                        assert(xs@.take(i + 1).contains(y) <==> xs@.take(i as int).contains(
                            y,
                        )) by {
                            if xs@.take(i + 1).contains(y) {
                                let j = choose|j: int|
                                    0 <= j < xs@.take(i + 1).len() && #[trigger] xs@.take(
                                        i + 1,
                                    )[j] == y;
                                assert(xs@.take(i as int)[j] == y);
                            }
                            if xs@.take(i as int).contains(y) {
                                let j = choose|j: int|
                                    0 <= j < i && xs@.take(i as int)[j] == y;
                                assert(xs@.take(i + 1)[j] == y);
                            }
                        }
                    }
                } else {
                    assert(r@ == pre.insert(k as int, x));
                    if r@.contains(y) {
                        let j = choose|j: int| 0 <= j < r@.len() && r@[j] == y;
                        if j == k {
                            assert(y == x);
                            assert(xs@.take(i + 1)[i as int] == x);
                        } else if j < k {
                            assert(pre[j] == y);
                            assert(pre.contains(y)) by {
                                assert(pre[j] == y);
                            }
                            assert(xs@.take(i as int).contains(y));
                            let jj = choose|jj: int|
                                0 <= jj < i && xs@.take(i as int)[jj] == y;
                            assert(xs@.take(i + 1)[jj] == y);
                        } else {
                            assert(pre[j - 1] == y);
                            assert(pre.contains(y)) by {
                                assert(pre[j - 1] == y);
                            }
                            assert(xs@.take(i as int).contains(y));
                            let jj = choose|jj: int|
                                0 <= jj < i && xs@.take(i as int)[jj] == y;
                            assert(xs@.take(i + 1)[jj] == y);
                        }
                    }
                    if xs@.take(i + 1).contains(y) {
                        let j = choose|j: int|
                            0 <= j < i + 1 && #[trigger] xs@.take(i + 1)[j] == y;
                        if j == i {
                            assert(y == x);
                            assert(r@[k as int] == x);
                        } else {
                            assert(xs@.take(i as int)[j] == y);
                            assert(pre.contains(y));
                            let jj = choose|jj: int| 0 <= jj < pre.len() && pre[jj] == y;
                            if jj < k {
                                assert(r@[jj] == y);
                            } else {
                                assert(r@[jj + 1] == y);
                            }
                        }
                    }
                }
            }
        }
        i = i + 1;
    }
    proof {
        assert(xs@.take(n as int) =~= xs@);
    }
    r
}

/// The concurrency-safe replica engine: loads, merges, encrypts, stores
/// and compacts the CRDT state, the op log, and the three remote-meta
/// registers, through its storage, cipher and envelope capabilities.
pub struct Core<S, ST, C, KC> {
    storage: ST,
    cryptor: C,
    key_cryptor: KC,
    data: CoreMutData<S>,
    supported_data_versions: Vec<u128>,
    current_data_version: u128,
}

/// The mutable replica record.
struct CoreMutData<S> {
    local_meta: Option<LocalMeta>,
    remote_meta: RemoteMeta,
    keys: Keys,
    state: StateWrapper<S>,
    read_states: Vec<String>,
    read_remote_metas: Vec<String>,
}

impl<S: CmCrdt, ST: Storage, C: Cryptor, KC: KeyCryptor> Core<S, ST, C, KC> {
    /// The replica's actor id, once the local meta is loaded.
    pub closed spec fn actor_spec(&self) -> Option<u128> {
        match self.data.local_meta {
            Some(lm) => Some(lm@),
            None => None,
        }
    }

    /// The key registry.
    pub closed spec fn keys_spec(&self) -> KeysView {
        self.data.keys@
    }

    /// The user CRDT state.
    pub closed spec fn state_spec(&self) -> S::V {
        self.data.state@.1
    }

    /// The per-actor next-op-version clock.
    pub closed spec fn clock_spec(&self) -> Seq<(u128, u64)> {
        self.data.state@.0
    }

    /// The tripartite remote meta.
    pub closed spec fn meta_spec(&self) -> RemoteMetaView {
        self.data.remote_meta@
    }

    /// The names of the state snapshots already merged.
    pub closed spec fn read_states_spec(&self) -> Seq<Seq<char>> {
        crate::msgpack::views_of(self.data.read_states@)
    }

    /// The names of the remote-meta blobs already merged.
    pub closed spec fn read_metas_spec(&self) -> Seq<Seq<char>> {
        crate::msgpack::views_of(self.data.read_remote_metas@)
    }

    /// The sorted user data versions this replica accepts.
    pub closed spec fn supported_spec(&self) -> Seq<u128> {
        self.supported_data_versions@
    }

    /// The user data version this replica writes.
    pub closed spec fn current_version_spec(&self) -> u128 {
        self.current_data_version
    }

    /// The storage models, delegated.
    pub closed spec fn st_local_spec(&self) -> Option<Seq<u8>> {
        self.storage.local_meta_model()
    }

    pub closed spec fn st_metas_spec(&self) -> Map<Seq<char>, Seq<u8>> {
        self.storage.metas_model()
    }

    pub closed spec fn st_states_spec(&self) -> Map<Seq<char>, Seq<u8>> {
        self.storage.states_model()
    }

    pub closed spec fn st_ops_spec(&self) -> Map<(u128, u64), Seq<u8>> {
        self.storage.ops_model()
    }

    /// The cipher's decryption pipeline, delegated.
    pub closed spec fn dec_spec(&self, key: VersionBytesView, enc: Seq<u8>) -> Option<Seq<u8>> {
        self.cryptor.decrypt_of(key, enc)
    }

    /// The cipher capability itself, for framing arguments: reads leave
    /// it untouched.
    pub closed spec fn cryptor_spec(&self) -> C {
        self.cryptor
    }

    /// The engine's internal well-formedness.
    pub closed spec fn wf(&self) -> bool {
        &&& self.data.keys.wf()
        &&& entries_wf(self.clock_spec())
        &&& S::inv_of(self.state_spec())
        &&& self.data.remote_meta.wf()
        &&& sorted_ascending(self.supported_spec())
        &&& distinct_names(self.read_states_spec())
        &&& distinct_names(self.read_metas_spec())
    }
}

/// What a stored remote-meta blob decodes to: framing in the engine's
/// supported set, then the tripartite register map.
pub open spec fn decode_meta_blob(bytes: Seq<u8>) -> Option<RemoteMetaView> {
    if bytes.len() < 16 {
        None
    } else if !supported_versions_spec().contains(u128_from_be(bytes.subrange(0, 16))) {
        None
    } else {
        match <RemoteMeta as Codec>::dec_of(bytes.skip(16), 0) {
            Some(p) => Some(p.0),
            None => None,
        }
    }
}

/// Decoded remote metas merged in, first to last, component-wise.
pub open spec fn meta_fold(views: Seq<RemoteMetaView>, acc: RemoteMetaView) -> RemoteMetaView
    decreases views.len(),
{
    if views.len() == 0 {
        acc
    } else {
        let m = meta_fold(views.drop_last(), acc);
        RemoteMetaView {
            storage: crate::crdt::mvreg::mvreg_merged(m.storage, views.last().storage),
            cryptor: crate::crdt::mvreg::mvreg_merged(m.cryptor, views.last().cryptor),
            key_cryptor: crate::crdt::mvreg::mvreg_merged(
                m.key_cryptor,
                views.last().key_cryptor,
            ),
        }
    }
}

/// Clones a vector of names.
fn clone_names(v: &Vec<String>) -> (r: Vec<String>)
    ensures
        r@ == v@,
{
    let mut r: Vec<String> = Vec::new();
    let mut i: usize = 0;
    while i < v.len()
        invariant
            i <= v@.len(),
            r@ == v@.take(i as int),
        decreases v@.len() - i,
    {
        r.push(v[i].clone());
        proof {
            assert(r@ =~= v@.take(i + 1));
        }
        i = i + 1;
    }
    proof {
        assert(v@.take(v@.len() as int) =~= v@);
    }
    r
}

impl<S: CmCrdt, ST: Storage, C: Cryptor, KC: KeyCryptor> Core<S, ST, C, KC> {
    /// Serializes and stores the current remote meta, then swaps the
    /// read-set to the new blob's name alone and removes the drained
    /// names from the store.  The drained names are removed as handed
    /// over: should a meta ever re-serialize to bytes identical to a
    /// drained blob, its content-addressed name collides with a drained
    /// one and the fresh blob is deleted with it — the contract states
    /// this faithfully rather than hiding it.
    fn store_remote_meta(&mut self) -> (r: Result<(), Error>)
        requires
            old(self).wf(),
        ensures
            final(self).wf(),
            final(self).actor_spec() == old(self).actor_spec(),
            final(self).state_spec() == old(self).state_spec(),
            final(self).clock_spec() == old(self).clock_spec(),
            final(self).keys_spec() == old(self).keys_spec(),
            final(self).meta_spec() == old(self).meta_spec(),
            final(self).supported_spec() == old(self).supported_spec(),
            final(self).current_version_spec() == old(self).current_version_spec(),
            final(self).read_states_spec() == old(self).read_states_spec(),
            final(self).st_states_spec() == old(self).st_states_spec(),
            final(self).st_ops_spec() == old(self).st_ops_spec(),
            final(self).st_local_spec() == old(self).st_local_spec(),
            r is Ok ==> exists|name: Seq<char>|
                {
                    &&& final(self).st_metas_spec() == old(self).st_metas_spec().insert(
                        name,
                        serialized_spec(
                            CURRENT_VERSION,
                            <RemoteMeta as Codec>::enc_of(old(self).meta_spec()),
                        ),
                    ).remove_keys(name_set(old(self).read_metas_spec()))
                    &&& final(self).read_metas_spec() == seq![name]
                },
    {
        if !self.data.remote_meta.is_valid() {
            return Err(Error::Serialization);
        }
        let mut bytes: Vec<u8> = Vec::new();
        self.data.remote_meta.encode(&mut bytes);
        if bytes.len() > usize::MAX - 16 {
            return Err(Error::Serialization);
        }
        let vb = VersionBytes::new(CURRENT_VERSION, bytes);
        let new_name = match self.storage.store_remote_meta(vb) {
            Ok(n) => n,
            Err(e) => {
                return Err(e);
            },
        };
        let names_to_remove = clone_names(&self.data.read_remote_metas);
        let mut fresh: Vec<String> = Vec::new();
        fresh.push(new_name);
        let ghost name_v = fresh@[0]@;
        self.data.read_remote_metas = fresh;
        proof {
            assert(self.read_metas_spec() =~= seq![name_v]);
        }
        match self.storage.remove_remote_metas(names_to_remove) {
            Ok(()) => {},
            Err(e) => {
                return Err(e);
            },
        }
        proof {
            assert(Set::new(
                |n: Seq<char>|
                    exists|i: int|
                        0 <= i < names_to_remove@.len() && (#[trigger] names_to_remove@[i])@
                            == n,
            ) =~= name_set(old(self).read_metas_spec())) by {
                assert forall|n: Seq<char>|
                    name_set(old(self).read_metas_spec()).contains(n) implies exists|i: int|
                    0 <= i < names_to_remove@.len() && (#[trigger] names_to_remove@[i])@
                        == n by {
                    let i = choose|i: int|
                        0 <= i < old(self).read_metas_spec().len() && #[trigger] old(
                            self,
                        ).read_metas_spec()[i] == n;
                    assert(names_to_remove@[i]@ == n);
                }
                assert forall|n: Seq<char>|
                    (exists|i: int|
                        0 <= i < names_to_remove@.len() && (#[trigger] names_to_remove@[i])@
                            == n) implies name_set(old(self).read_metas_spec()).contains(
                    n,
                ) by {
                    let i = choose|i: int|
                        0 <= i < names_to_remove@.len() && (#[trigger] names_to_remove@[i])@
                            == n;
                    assert(old(self).read_metas_spec()[i] == n);
                }
            }
        }
        Ok(())
    }

    /// Merges a capability's updated register into the matching slot and
    /// stores the remote meta.
    pub fn set_remote_meta_storage(&mut self, remote_meta: MVReg<VersionBytes>) -> (r: Result<
        (),
        Error,
    >)
        requires
            old(self).wf(),
            mvreg_wf(remote_meta@),
        ensures
            final(self).meta_spec().storage == crate::crdt::mvreg::mvreg_merged(
                old(self).meta_spec().storage,
                remote_meta@,
            ),
            final(self).meta_spec().cryptor == old(self).meta_spec().cryptor,
            final(self).meta_spec().key_cryptor == old(self).meta_spec().key_cryptor,
            r is Ok ==> exists|name: Seq<char>|
                {
                    &&& final(self).st_metas_spec() == old(self).st_metas_spec().insert(
                        name,
                        serialized_spec(
                            CURRENT_VERSION,
                            <RemoteMeta as Codec>::enc_of(final(self).meta_spec()),
                        ),
                    ).remove_keys(name_set(old(self).read_metas_spec()))
                    &&& final(self).read_metas_spec() == seq![name]
                },
            final(self).wf(),
            final(self).actor_spec() == old(self).actor_spec(),
            final(self).state_spec() == old(self).state_spec(),
            final(self).clock_spec() == old(self).clock_spec(),
            final(self).keys_spec() == old(self).keys_spec(),
            final(self).read_states_spec() == old(self).read_states_spec(),
            final(self).supported_spec() == old(self).supported_spec(),
            final(self).current_version_spec() == old(self).current_version_spec(),
            final(self).st_states_spec() == old(self).st_states_spec(),
            final(self).st_ops_spec() == old(self).st_ops_spec(),
            final(self).st_local_spec() == old(self).st_local_spec(),
    {
        self.data.remote_meta.storage.merge_with(remote_meta);
        self.store_remote_meta()
    }

    /// Merges a capability's updated register into the matching slot and
    /// stores the remote meta.
    pub fn set_remote_meta_cryptor(&mut self, remote_meta: MVReg<VersionBytes>) -> (r: Result<
        (),
        Error,
    >)
        requires
            old(self).wf(),
            mvreg_wf(remote_meta@),
        ensures
            final(self).meta_spec().cryptor == crate::crdt::mvreg::mvreg_merged(
                old(self).meta_spec().cryptor,
                remote_meta@,
            ),
            final(self).meta_spec().storage == old(self).meta_spec().storage,
            final(self).meta_spec().key_cryptor == old(self).meta_spec().key_cryptor,
            r is Ok ==> exists|name: Seq<char>|
                {
                    &&& final(self).st_metas_spec() == old(self).st_metas_spec().insert(
                        name,
                        serialized_spec(
                            CURRENT_VERSION,
                            <RemoteMeta as Codec>::enc_of(final(self).meta_spec()),
                        ),
                    ).remove_keys(name_set(old(self).read_metas_spec()))
                    &&& final(self).read_metas_spec() == seq![name]
                },
            final(self).wf(),
            final(self).actor_spec() == old(self).actor_spec(),
            final(self).state_spec() == old(self).state_spec(),
            final(self).clock_spec() == old(self).clock_spec(),
            final(self).keys_spec() == old(self).keys_spec(),
            final(self).read_states_spec() == old(self).read_states_spec(),
            final(self).supported_spec() == old(self).supported_spec(),
            final(self).current_version_spec() == old(self).current_version_spec(),
            final(self).st_states_spec() == old(self).st_states_spec(),
            final(self).st_ops_spec() == old(self).st_ops_spec(),
            final(self).st_local_spec() == old(self).st_local_spec(),
    {
        self.data.remote_meta.cryptor.merge_with(remote_meta);
        self.store_remote_meta()
    }

    /// Merges a capability's updated register into the matching slot and
    /// stores the remote meta.
    pub fn set_remote_meta_key_cryptor(&mut self, remote_meta: MVReg<VersionBytes>) -> (r: Result<
        (),
        Error,
    >)
        requires
            old(self).wf(),
            mvreg_wf(remote_meta@),
        ensures
            final(self).meta_spec().key_cryptor == crate::crdt::mvreg::mvreg_merged(
                old(self).meta_spec().key_cryptor,
                remote_meta@,
            ),
            final(self).meta_spec().storage == old(self).meta_spec().storage,
            final(self).meta_spec().cryptor == old(self).meta_spec().cryptor,
            r is Ok ==> exists|name: Seq<char>|
                {
                    &&& final(self).st_metas_spec() == old(self).st_metas_spec().insert(
                        name,
                        serialized_spec(
                            CURRENT_VERSION,
                            <RemoteMeta as Codec>::enc_of(final(self).meta_spec()),
                        ),
                    ).remove_keys(name_set(old(self).read_metas_spec()))
                    &&& final(self).read_metas_spec() == seq![name]
                },
            final(self).wf(),
            final(self).actor_spec() == old(self).actor_spec(),
            final(self).state_spec() == old(self).state_spec(),
            final(self).clock_spec() == old(self).clock_spec(),
            final(self).keys_spec() == old(self).keys_spec(),
            final(self).read_states_spec() == old(self).read_states_spec(),
            final(self).supported_spec() == old(self).supported_spec(),
            final(self).current_version_spec() == old(self).current_version_spec(),
            final(self).st_states_spec() == old(self).st_states_spec(),
            final(self).st_ops_spec() == old(self).st_ops_spec(),
            final(self).st_local_spec() == old(self).st_local_spec(),
    {
        self.data.remote_meta.key_cryptor.merge_with(remote_meta);
        self.store_remote_meta()
    }

    /// Reads unseen remote-meta blobs, merges them, and fans the three
    /// component registers out to the capabilities; a register the
    /// envelope capability decodes a key registry from is merged into the
    /// local registry.  With `force_notify` the capabilities hear even
    /// when nothing is stored yet.
    #[verifier::spinoff_prover]
    #[verifier::rlimit(100)]
    fn read_remote_meta_(&mut self, force_notify: bool) -> (r: Result<(), Error>)
        requires
            old(self).wf(),
        ensures
            final(self).wf(),
            final(self).actor_spec() == old(self).actor_spec(),
            final(self).state_spec() == old(self).state_spec(),
            final(self).clock_spec() == old(self).clock_spec(),
            final(self).read_states_spec() == old(self).read_states_spec(),
            final(self).supported_spec() == old(self).supported_spec(),
            final(self).current_version_spec() == old(self).current_version_spec(),
            final(self).st_states_spec() == old(self).st_states_spec(),
            final(self).st_ops_spec() == old(self).st_ops_spec(),
            final(self).st_metas_spec() == old(self).st_metas_spec(),
            final(self).st_local_spec() == old(self).st_local_spec(),
            r is Ok ==> exists|new_names: Seq<Seq<char>>, decoded: Seq<RemoteMetaView>|
                {
                    &&& new_names.len() == decoded.len()
                    &&& distinct_names(new_names)
                    &&& forall|i: int|
                        0 <= i < new_names.len() ==> old(self).st_metas_spec().dom().contains(
                            #[trigger] new_names[i],
                        ) && !old(self).read_metas_spec().contains(new_names[i])
                    &&& forall|n: Seq<char>|
                        old(self).st_metas_spec().dom().contains(n) && !old(
                            self,
                        ).read_metas_spec().contains(n) ==> new_names.contains(n)
                    &&& forall|i: int|
                        0 <= i < decoded.len() ==> decode_meta_blob(
                            old(self).st_metas_spec()[new_names[i]],
                        ) == Some(#[trigger] decoded[i])
                    &&& final(self).meta_spec() == meta_fold(decoded, old(self).meta_spec())
                    &&& final(self).read_metas_spec() == old(self).read_metas_spec()
                        + new_names
                    &&& (final(self).keys_spec() == old(self).keys_spec() || exists|
                        kd: KeysView,
                    |
                        {
                            &&& final(self).keys_spec().latest
                                == crate::crdt::mvreg::mvreg_merged(
                                old(self).keys_spec().latest,
                                kd.latest,
                            )
                            &&& forall|id: u128|
                                #![trigger crate::key_cryptor::kget(final(self).keys_spec().keys, id)]
                                crate::key_cryptor::kget(final(self).keys_spec().keys, id)
                                    == crate::key_cryptor::kunion_get(
                                    old(self).keys_spec().keys,
                                    kd.keys,
                                    id,
                                )
                        })
                },
    {
        let names = match self.storage.list_remote_meta_names() {
            Ok(n) => n,
            Err(e) => {
                return Err(e);
            },
        };
        // keep the unseen names
        let mut to_read: Vec<String> = Vec::new();
        let n = names.len();
        let mut i: usize = 0;
        while i < n
            invariant
                i <= n,
                n == names@.len(),
                *self == *old(self),
                self.wf(),
                forall|j: int|
                    0 <= j < to_read@.len() ==> exists|l: int|
                        0 <= l < i && (#[trigger] to_read@[j])@ == names@[l]@,
                forall|j: int|
                    0 <= j < to_read@.len() ==> self.storage.metas_model().dom().contains(
                        (#[trigger] to_read@[j])@,
                    ),
                forall|j: int, k: int|
                    0 <= j < k < to_read@.len() ==> (#[trigger] to_read@[j])@ != (
                    #[trigger] to_read@[k])@,
                forall|j: int|
                    0 <= j < to_read@.len() ==> !self.read_metas_spec().contains(
                        (#[trigger] to_read@[j])@,
                    ),
                forall|j: int|
                    0 <= j < names@.len() ==> self.storage.metas_model().dom().contains(
                        (#[trigger] names@[j])@,
                    ),
                forall|j: int, k: int|
                    0 <= j < k < names@.len() ==> (#[trigger] names@[j])@ != (
                    #[trigger] names@[k])@,
                forall|j: int|
                    0 <= j < i ==> self.read_metas_spec().contains((#[trigger] names@[j])@)
                        || crate::msgpack::views_of(to_read@).contains(names@[j]@),
            decreases n - i,
        {
            let name = names[i].clone();
            let ghost pre_read = to_read@;
            if !contains_name(&self.data.read_remote_metas, &name) {
                proof {
                    assert(crate::msgpack::views_of(self.data.read_remote_metas@)
                        == self.read_metas_spec());
                }
                to_read.push(name);
                proof {
                    assert forall|j: int, k: int|
                        0 <= j < k < to_read@.len() implies (#[trigger] to_read@[j])@ != (
                    #[trigger] to_read@[k])@ by {
                        if k == to_read@.len() - 1 {
                            assert(to_read@[k]@ == names@[i as int]@);
                            let l = choose|l: int|
                                0 <= l < i && (#[trigger] pre_read[j])@ == names@[l]@;
                            assert(to_read@[j] == pre_read[j]);
                            assert(names@[l]@ != names@[i as int]@);
                        } else {
                            assert(to_read@[j] == pre_read[j]);
                            assert(to_read@[k] == pre_read[k]);
                        }
                    }
                }
            } else {
                proof {
                    assert(crate::msgpack::views_of(self.data.read_remote_metas@)
                        == self.read_metas_spec());
                }
            }
            proof {
                assert forall|j: int|
                    0 <= j < i + 1 implies self.read_metas_spec().contains(
                    (#[trigger] names@[j])@,
                ) || crate::msgpack::views_of(to_read@).contains(names@[j]@) by {
                    if j == i {
                        if !self.read_metas_spec().contains(names@[j]@) {
                            assert(to_read@[to_read@.len() - 1]@ == names@[i as int]@);
                            assert(crate::msgpack::views_of(to_read@)[to_read@.len() - 1]
                                == names@[i as int]@);
                        }
                    } else {
                        if crate::msgpack::views_of(pre_read).contains(names@[j]@) {
                            let q = choose|q: int|
                                0 <= q < pre_read.len() && #[trigger] crate::msgpack::views_of(
                                    pre_read,
                                )[q] == names@[j]@;
                            assert(to_read@[q] == pre_read[q]);
                            assert(crate::msgpack::views_of(to_read@)[q] == names@[j]@);
                        }
                    }
                }
            }
            i = i + 1;
        }
        // load and decode them
        let ghost to_read_v = to_read@;
        let items = match self.storage.load_remote_metas(to_read) {
            Ok(x) => x,
            Err(e) => {
                return Err(e);
            },
        };
        let supported = supported_versions();
        let mut decoded: Vec<(String, RemoteMeta)> = Vec::new();
        let m = items.len();
        let mut j: usize = 0;
        while j < m
            invariant
                j <= m,
                m == items@.len(),
                *self == *old(self),
                self.wf(),
                sorted_ascending(supported@),
                supported@ == supported_versions_spec(),
                decoded@.len() == j,
                forall|k: int|
                    0 <= k < j ==> (#[trigger] decoded@[k]).1.wf() && decoded@[k].0
                        == items@[k].0 && decode_meta_blob(
                        self.storage.metas_model()[items@[k].0@],
                    ) == Some(decoded@[k].1@),
                forall|k: int, l: int|
                    0 <= k < l < items@.len() ==> (#[trigger] items@[k]).0@ != (
                    #[trigger] items@[l]).0@,
                forall|k: int|
                    0 <= k < items@.len() ==> !self.read_metas_spec().contains(
                        (#[trigger] items@[k]).0@,
                    ) && self.storage.metas_model().dom().contains(items@[k].0@) && framed(
                        items@[k].1@,
                    ) == self.storage.metas_model()[items@[k].0@],
            decreases m - j,
        {
            let vb = &items[j].1;
            proof {
                let bytes = framed(vb@);
                assert(bytes.subrange(0, 16) =~= crate::utils::version_bytes::u128_be_bytes(
                    vb@.version,
                ));
                crate::utils::version_bytes::lemma_u128_be_round_trip(vb@.version);
                assert(bytes.skip(16) =~= vb@.content);
            }
            match vb.ensure_versions(supported.as_slice()) {
                Ok(()) => {},
                Err(ve) => {
                    return Err(Error::VersionMismatch { expected: ve.expected, got: ve.got });
                },
            }
            let (rm, _) = match <RemoteMeta as Codec>::decode(vb.as_ref(), 0) {
                Ok(x) => x,
                Err(e) => {
                    return Err(e);
                },
            };
            proof {
                <RemoteMeta as Codec>::lemma_dec_progress(vb@.content, 0);
            }
            let name = items[j].0.clone();
            decoded.push((name, rm));
            j = j + 1;
        }
        // merge them in and record the names
        let had_any = decoded.len() > 0;
        let ghost dnames = Seq::new(decoded@.len(), |q: int| decoded@[q].0@);
        let ghost dviews = Seq::new(decoded@.len(), |q: int| decoded@[q].1@);
        let mut k: usize = 0;
        let dn = decoded.len();
        while k < dn
            invariant
                k <= dn,
                dn == decoded@.len(),
                dnames.len() == dn,
                dviews.len() == dn,
                forall|q: int|
                    0 <= q < dn ==> #[trigger] dnames[q] == decoded@[q].0@ && dviews[q]
                        == decoded@[q].1@,
                old(self).wf(),
                distinct_names(old(self).read_metas_spec()),
                self.wf(),
                self.meta_spec() == meta_fold(dviews.take(k as int), old(self).meta_spec()),
                self.actor_spec() == old(self).actor_spec(),
                self.state_spec() == old(self).state_spec(),
                self.clock_spec() == old(self).clock_spec(),
                self.read_states_spec() == old(self).read_states_spec(),
                self.supported_spec() == old(self).supported_spec(),
                self.current_version_spec() == old(self).current_version_spec(),
                self.st_states_spec() == old(self).st_states_spec(),
                self.st_ops_spec() == old(self).st_ops_spec(),
                self.st_local_spec() == old(self).st_local_spec(),
                self.st_metas_spec() == old(self).st_metas_spec(),
                self.keys_spec() == old(self).keys_spec(),
                forall|q: int| 0 <= q < dn ==> (#[trigger] decoded@[q]).1.wf(),
                forall|q: int, l: int|
                    0 <= q < l < decoded@.len() ==> (#[trigger] decoded@[q]).0@ != (
                    #[trigger] decoded@[l]).0@,
                forall|q: int|
                    0 <= q < decoded@.len() ==> !old(self).read_metas_spec().contains(
                        (#[trigger] decoded@[q]).0@,
                    ),
                self.read_metas_spec().len() == old(self).read_metas_spec().len() + k,
                forall|q: int|
                    0 <= q < old(self).read_metas_spec().len() ==> #[trigger] self.read_metas_spec()[q]
                        == old(self).read_metas_spec()[q],
                forall|q: int|
                    0 <= q < k ==> #[trigger] self.read_metas_spec()[old(
                        self,
                    ).read_metas_spec().len() + q] == decoded@[q].0@,
            decreases dn - k,
        {
            let (name, rm) = {
                let p = &decoded[k];
                (p.0.clone(), p.1.deep_clone())
            };
            let ghost pre_names = self.data.read_remote_metas@;
            let ghost pre_meta = self.data.remote_meta@;
            self.data.remote_meta.merge(rm);
            self.data.read_remote_metas.push(name);
            proof {
                assert(dnames[k as int] == decoded@[k as int].0@);
                assert(dviews[k as int] == decoded@[k as int].1@);
                assert(rm@ == dviews[k as int]);
                assert(pre_meta == meta_fold(dviews.take(k as int), old(self).meta_spec()));
                assert(dviews.take(k + 1).drop_last() =~= dviews.take(k as int));
                assert(dviews.take(k + 1).last() == dviews[k as int]);
                assert(self.meta_spec() == meta_fold(
                    dviews.take(k + 1),
                    old(self).meta_spec(),
                ));
                let base = old(self).read_metas_spec();
                assert forall|q: int|
                    0 <= q < base.len() implies #[trigger] self.read_metas_spec()[q] == base[q] by {
                    assert(self.read_metas_spec()[q] == self.data.read_remote_metas@[q]@);
                    assert(self.data.read_remote_metas@[q] == pre_names[q]);
                    assert(crate::msgpack::views_of(pre_names)[q] == pre_names[q]@);
                }
                assert forall|q: int|
                    0 <= q < k + 1 implies #[trigger] self.read_metas_spec()[base.len() + q]
                    == decoded@[q].0@ by {
                    assert(self.read_metas_spec()[base.len() + q]
                        == self.data.read_remote_metas@[base.len() + q]@);
                    if q < k {
                        assert(self.data.read_remote_metas@[base.len() + q] == pre_names[base.len()
                            + q]);
                        assert(crate::msgpack::views_of(pre_names)[base.len() + q]
                            == pre_names[base.len() + q]@);
                    } else {
                        assert(self.data.read_remote_metas@[base.len() + q] == name);
                    }
                }
                assert(distinct_names(self.read_metas_spec())) by {
                    assert forall|p: int, q: int|
                        0 <= p < q < self.read_metas_spec().len() implies (
                    #[trigger] self.read_metas_spec()[p]) != (
                    #[trigger] self.read_metas_spec()[q]) by {
                        if q >= base.len() {
                            let qq = q - base.len();
                            assert(self.read_metas_spec()[base.len() + qq] == decoded@[qq].0@);
                            if p >= base.len() {
                                let pp = p - base.len();
                                assert(self.read_metas_spec()[base.len() + pp]
                                    == decoded@[pp].0@);
                            } else {
                                assert(self.read_metas_spec()[p] == base[p]);
                                assert(base.contains(base[p])) by {
                                    assert(base[p] == base[p]);
                                }
                            }
                        } else {
                            assert(self.read_metas_spec()[p] == base[p]);
                            assert(self.read_metas_spec()[q] == base[q]);
                        }
                    }
                }
            }
            k = k + 1;
        }
        proof {
            assert(dviews.take(dn as int) =~= dviews);
        }
        let ghost keys_before = self.data.keys@;
        // fan out
        if had_any {
            match self.storage.set_remote_meta(Some(&self.data.remote_meta.storage)) {
                Ok(()) => {},
                Err(e) => {
                    return Err(e);
                },
            }
            match self.cryptor.set_remote_meta(Some(&self.data.remote_meta.cryptor)) {
                Ok(()) => {},
                Err(e) => {
                    return Err(e);
                },
            }
            match self.key_cryptor.set_remote_meta(Some(&self.data.remote_meta.key_cryptor)) {
                Ok(Some(ctx)) => {
                    let ghost kd = ctx.val@;
                    self.data.keys.merge(ctx.val);
                    proof {
                        assert(self.keys_spec().latest == crate::crdt::mvreg::mvreg_merged(
                            keys_before.latest,
                            kd.latest,
                        ));
                    }
                },
                Ok(None) => {},
                Err(e) => {
                    return Err(e);
                },
            }
        } else if force_notify {
            match self.storage.set_remote_meta(None) {
                Ok(()) => {},
                Err(e) => {
                    return Err(e);
                },
            }
            match self.cryptor.set_remote_meta(None) {
                Ok(()) => {},
                Err(e) => {
                    return Err(e);
                },
            }
            match self.key_cryptor.set_remote_meta(None) {
                Ok(Some(ctx)) => {
                    let ghost kd = ctx.val@;
                    self.data.keys.merge(ctx.val);
                    proof {
                        assert(self.keys_spec().latest == crate::crdt::mvreg::mvreg_merged(
                            keys_before.latest,
                            kd.latest,
                        ));
                    }
                },
                Ok(None) => {},
                Err(e) => {
                    return Err(e);
                },
            }
        }
        proof {
            // the unseen stored names, in list order, witness the effect
            assert forall|i: int|
                0 <= i < dnames.len() implies old(self).st_metas_spec().dom().contains(
                #[trigger] dnames[i],
            ) && !old(self).read_metas_spec().contains(dnames[i]) by {
                assert(dnames[i] == items@[i].0@);
            }
            assert forall|n2: Seq<char>|
                old(self).st_metas_spec().dom().contains(n2) && !old(
                    self,
                ).read_metas_spec().contains(n2) implies dnames.contains(n2) by {
                let l = choose|l: int|
                    0 <= l < names@.len() && (#[trigger] names@[l])@ == n2;
                assert(crate::msgpack::views_of(to_read_v).contains(n2));
                let l2 = choose|l2: int|
                    0 <= l2 < to_read_v.len() && #[trigger] crate::msgpack::views_of(
                        to_read_v,
                    )[l2] == n2;
                assert(items@[l2].0@ == to_read_v[l2]@);
                assert(dnames[l2] == n2);
            }
            assert forall|i: int, j2: int|
                0 <= i < j2 < dnames.len() implies (#[trigger] dnames[i]) != (
            #[trigger] dnames[j2]) by {
                assert(dnames[i] == items@[i].0@);
                assert(dnames[j2] == items@[j2].0@);
            }
            assert forall|i: int|
                0 <= i < dviews.len() implies decode_meta_blob(
                old(self).st_metas_spec()[dnames[i]],
            ) == Some(#[trigger] dviews[i]) by {
                assert(dnames[i] == items@[i].0@);
                assert(dviews[i] == decoded@[i].1@);
            }
            assert(self.read_metas_spec() =~= old(self).read_metas_spec() + dnames) by {
                assert forall|q: int|
                    0 <= q < self.read_metas_spec().len() implies #[trigger] self.read_metas_spec()[q]
                    == (old(self).read_metas_spec() + dnames)[q] by {
                    if q >= old(self).read_metas_spec().len() {
                        let qq = q - old(self).read_metas_spec().len();
                        assert(self.read_metas_spec()[old(self).read_metas_spec().len() + qq]
                            == decoded@[qq].0@);
                    }
                }
            }
        }
        Ok(())
    }

    /// Reads unseen remote-meta blobs, merges them, and fans the three
    /// component registers out to the capabilities.
    pub fn read_remote_meta(&mut self) -> (r: Result<(), Error>)
        requires
            old(self).wf(),
        ensures
            final(self).wf(),
            final(self).actor_spec() == old(self).actor_spec(),
            final(self).state_spec() == old(self).state_spec(),
            final(self).clock_spec() == old(self).clock_spec(),
            final(self).read_states_spec() == old(self).read_states_spec(),
            final(self).supported_spec() == old(self).supported_spec(),
            final(self).current_version_spec() == old(self).current_version_spec(),
            final(self).st_states_spec() == old(self).st_states_spec(),
            final(self).st_ops_spec() == old(self).st_ops_spec(),
            final(self).st_metas_spec() == old(self).st_metas_spec(),
            final(self).st_local_spec() == old(self).st_local_spec(),
            r is Ok ==> exists|new_names: Seq<Seq<char>>, decoded: Seq<RemoteMetaView>|
                {
                    &&& new_names.len() == decoded.len()
                    &&& distinct_names(new_names)
                    &&& forall|i: int|
                        0 <= i < new_names.len() ==> old(self).st_metas_spec().dom().contains(
                            #[trigger] new_names[i],
                        ) && !old(self).read_metas_spec().contains(new_names[i])
                    &&& forall|n: Seq<char>|
                        old(self).st_metas_spec().dom().contains(n) && !old(
                            self,
                        ).read_metas_spec().contains(n) ==> new_names.contains(n)
                    &&& forall|i: int|
                        0 <= i < decoded.len() ==> decode_meta_blob(
                            old(self).st_metas_spec()[new_names[i]],
                        ) == Some(#[trigger] decoded[i])
                    &&& final(self).meta_spec() == meta_fold(decoded, old(self).meta_spec())
                    &&& final(self).read_metas_spec() == old(self).read_metas_spec()
                        + new_names
                },
    {
        self.read_remote_meta_(false)
    }
}

impl DeepClone for RemoteMeta {
    fn deep_clone(&self) -> (r: RemoteMeta)
        ensures
            r@ == self@,
    {
        let r = RemoteMeta {
            storage: self.storage.deep_clone(),
            cryptor: self.cryptor.deep_clone(),
            key_cryptor: self.key_cryptor.deep_clone(),
        };
        proof {
            assert(r@ == self@);
        }
        r
    }
}

impl<S: CmCrdt, ST: Storage, C: Cryptor, KC: KeyCryptor> Core<S, ST, C, KC> {
    /// Opens a replica: loads or creates the local meta, publishes the
    /// identity, reads the remote meta so every capability hears its
    /// register, and makes sure a latest key exists.
    pub fn open(options: OpenOptions<ST, C, KC>) -> (r: Result<(Core<S, ST, C, KC>, Info), Error>)
        ensures
            r matches Ok(p) ==> {
                &&& p.0.wf()
                &&& p.0.actor_spec() == Some(p.1.actor_spec())
                &&& sorted_ascending(p.0.supported_spec())
                &&& forall|x: u128|
                    p.0.supported_spec().contains(x) <==> options.supported_data_versions@.contains(
                        x,
                    )
                &&& p.0.current_version_spec() == options.current_data_version
                &&& p.0.state_spec() == S::empty_of()
                &&& p.0.clock_spec() == Seq::<(u128, u64)>::empty()
                &&& crate::key_cryptor::keys_latest_spec(p.0.keys_spec()) is Some
            },
            // the identity is permanent: opening never fails to honour an
            // existing local meta, never rewrites it, and persists a fresh
            // one exactly when it creates it
            !options.create && options.storage.local_meta_model() is None ==> r is Err,
            r matches Ok(p) ==> (options.storage.local_meta_model() matches Some(bytes) ==> {
                &&& bytes.len() >= 16
                &&& supported_versions_spec().contains(u128_from_be(bytes.subrange(0, 16)))
                &&& (<LocalMeta as Codec>::dec_of(bytes.skip(16), 0) matches Some(lm) && lm.0
                    == p.1.actor_spec())
                &&& p.0.st_local_spec() == Some(bytes)
            }),
            r matches Ok(p) ==> (options.storage.local_meta_model() is None ==> options.create
                && p.0.st_local_spec() == Some(
                serialized_spec(
                    CURRENT_VERSION,
                    <LocalMeta as Codec>::enc_of(p.1.actor_spec()),
                ),
            )),
    {
        let mut storage = options.storage;
        let cryptor = options.cryptor;
        let mut key_cryptor = options.key_cryptor;
        let supported_data_versions = sort_dedup(options.supported_data_versions);
        let supported = supported_versions();
        let lm_opt = match storage.load_local_meta() {
            Ok(x) => x,
            Err(e) => {
                return Err(e);
            },
        };
        let local_meta = match lm_opt {
            Some(vb) => {
                proof {
                    let bytes = framed(vb@);
                    assert(bytes.subrange(0, 16)
                        =~= crate::utils::version_bytes::u128_be_bytes(vb@.version));
                    crate::utils::version_bytes::lemma_u128_be_round_trip(vb@.version);
                    assert(bytes.skip(16) =~= vb@.content);
                }
                match vb.ensure_versions(supported.as_slice()) {
                    Ok(()) => {},
                    Err(ve) => {
                        return Err(
                            Error::VersionMismatch { expected: ve.expected, got: ve.got },
                        );
                    },
                }
                let (lm, _) = match <LocalMeta as Codec>::decode(vb.as_ref(), 0) {
                    Ok(x) => x,
                    Err(e) => {
                        return Err(e);
                    },
                };
                lm
            },
            None => {
                if !options.create {
                    return Err(Error::Precondition);
                }
                let lm = LocalMeta { local_actor_id: crate::utils::fresh_uuid() };
                let mut bytes: Vec<u8> = Vec::new();
                lm.encode(&mut bytes);
                if bytes.len() > usize::MAX - 16 {
                    return Err(Error::Serialization);
                }
                let vb = VersionBytes::new(CURRENT_VERSION, bytes);
                proof {
                    assert(framed(vb@) == serialized_spec(
                        CURRENT_VERSION,
                        <LocalMeta as Codec>::enc_of(lm@),
                    ));
                }
                match storage.store_local_meta(vb) {
                    Ok(()) => {},
                    Err(e) => {
                        return Err(e);
                    },
                }
                lm
            },
        };
        let info = Info { actor: local_meta.local_actor_id };
        match storage.set_info(&info) {
            Ok(()) => {},
            Err(e) => {
                return Err(e);
            },
        }
        match key_cryptor.set_info(&info) {
            Ok(()) => {},
            Err(e) => {
                return Err(e);
            },
        }
        let mut core = Core {
            storage,
            cryptor,
            key_cryptor,
            data: CoreMutData {
                local_meta: Some(local_meta),
                remote_meta: RemoteMeta::new(),
                keys: Keys::default(),
                state: StateWrapper { next_op_versions: VClock::new(), state: S::new_empty() },
                read_states: Vec::new(),
                read_remote_metas: Vec::new(),
            },
            supported_data_versions,
            current_data_version: options.current_data_version,
        };
        proof {
            assert(core.read_states_spec() =~= Seq::<Seq<char>>::empty());
            assert(core.read_metas_spec() =~= Seq::<Seq<char>>::empty());
        }
        match core.read_remote_meta_(true) {
            Ok(()) => {},
            Err(e) => {
                return Err(e);
            },
        }
        let have_latest = match core.data.keys.latest_key() {
            Some(_) => true,
            None => false,
        };
        if !have_latest {
            let new_key = match core.cryptor.gen_key() {
                Ok(k) => k,
                Err(e) => {
                    return Err(e);
                },
            };
            if core.data.keys.latest_join_get(info.actor()) == u64::MAX {
                return Err(Error::Integrity);
            }
            let key = Key::new(new_key);
            let ghost key_id = key@.id;
            core.data.keys.insert_latest_key(info.actor(), key);
            proof {
                crate::key_cryptor::lemma_kget_some(core.data.keys@.keys, key_id);
                let kv = crate::key_cryptor::kget(core.data.keys@.keys, key_id).unwrap();
                crate::key_cryptor::lemma_latest_of_single(core.data.keys@, kv);
            }
            let reg = match core.key_cryptor.set_keys(core.data.keys.deep_clone(), info.actor()) {
                Ok(r2) => r2,
                Err(e) => {
                    return Err(e);
                },
            };
            match core.set_remote_meta_key_cryptor(reg) {
                Ok(()) => {},
                Err(e) => {
                    return Err(e);
                },
            }
        }
        Ok((core, info))
    }

    /// Applies `f` to the replica's current state.
    pub fn with_state<F, R>(&self, f: F) -> (r: R) where F: FnOnce(&S) -> R
        requires
            forall|s: &S| s@ == self.state_spec() ==> call_requires(f, (s,)),
        ensures
            exists|s: &S| s@ == self.state_spec() && call_ensures(f, (s,), r),
    {
        let s_ref = &self.data.state.state;
        proof {
            assert(s_ref@ == self.state_spec());
            assert(call_requires(f, (s_ref,)));
        }
        let r = f(s_ref);
        proof {
            assert(s_ref@ == self.state_spec() && call_ensures(f, (s_ref,), r));
        }
        r
    }

    /// Serializes `ops`, encrypts them under the latest key, durably
    /// stores the blob at the replica's next op version, and only then
    /// applies the ops and advances the clock.
    pub fn apply_ops(&mut self, ops: Vec<S::Op>) -> (r: Result<(), Error>)
        requires
            old(self).wf(),
        ensures
            final(self).wf(),
            final(self).actor_spec() == old(self).actor_spec(),
            final(self).keys_spec() == old(self).keys_spec(),
            final(self).meta_spec() == old(self).meta_spec(),
            final(self).read_states_spec() == old(self).read_states_spec(),
            final(self).read_metas_spec() == old(self).read_metas_spec(),
            final(self).supported_spec() == old(self).supported_spec(),
            final(self).current_version_spec() == old(self).current_version_spec(),
            final(self).st_states_spec() == old(self).st_states_spec(),
            final(self).st_metas_spec() == old(self).st_metas_spec(),
            final(self).st_local_spec() == old(self).st_local_spec(),
            r is Ok ==> {
                &&& old(self).actor_spec() matches Some(a)
                &&& final(self).state_spec() == crate::crdt::applied_all_of::<S>(
                    old(self).state_spec(),
                    crate::msgpack::views_of(ops@),
                )
                &&& seq_get(final(self).clock_spec(), old(self).actor_spec().unwrap()) == seq_get(
                    old(self).clock_spec(),
                    old(self).actor_spec().unwrap(),
                ) + 1
                &&& forall|x: u128|
                    x != old(self).actor_spec().unwrap() ==> seq_get(
                        final(self).clock_spec(),
                        x,
                    ) == seq_get(old(self).clock_spec(), x)
                &&& crate::key_cryptor::keys_latest_spec(old(self).keys_spec()) is Some
                &&& exists|ct: Seq<u8>|
                    {
                        &&& final(self).st_ops_spec() == old(self).st_ops_spec().insert(
                            (
                                old(self).actor_spec().unwrap(),
                                seq_get(
                                    old(self).clock_spec(),
                                    old(self).actor_spec().unwrap(),
                                ),
                            ),
                            serialized_spec(CURRENT_VERSION, ct),
                        )
                        &&& old(self).dec_spec(
                            crate::key_cryptor::keys_latest_spec(old(self).keys_spec()).unwrap().key,
                            ct,
                        ) == Some(
                            serialized_spec(
                                old(self).current_version_spec(),
                                crate::msgpack::enc_list_of::<S::Op>(
                                    crate::msgpack::views_of(ops@),
                                ),
                            ),
                        )
                    }
            },
            r is Err ==> final(self).state_spec() == old(self).state_spec()
                && final(self).clock_spec() == old(self).clock_spec()
                && final(self).st_ops_spec() == old(self).st_ops_spec(),
            // the library's own rejections, by kind: an unencodable op or
            // an oversized batch, and a missing latest key
            (exists|i: int|
                0 <= i < ops@.len() && !<S::Op as Codec>::valid_of(
                    (#[trigger] ops@[i])@,
                )) ==> (r matches Err(e) && e is Serialization),
            ops@.len() > u32::MAX ==> (r matches Err(e) && e is Serialization),
            (forall|i: int|
                0 <= i < ops@.len() ==> <S::Op as Codec>::valid_of((#[trigger] ops@[i])@))
                && ops@.len() <= u32::MAX && crate::msgpack::enc_list_of::<S::Op>(
                crate::msgpack::views_of(ops@),
            ).len() + 16 <= usize::MAX && (crate::key_cryptor::keys_latest_spec(
                old(self).keys_spec(),
            ) is None) ==> (r matches Err(e) && e is Precondition),
    {
        // every op must be encodable
        let nops = ops.len();
        let mut i: usize = 0;
        while i < nops
            invariant
                i <= nops,
                nops == ops@.len(),
                *self == *old(self),
                old(self).wf(),
                forall|j: int|
                    0 <= j < i ==> <S::Op as Codec>::valid_of((#[trigger] ops@[j])@),
            decreases nops - i,
        {
            if !ops[i].is_valid() {
                return Err(Error::Serialization);
            }
            i = i + 1;
        }
        if ops.len() as u64 > u32::MAX as u64 {
            return Err(Error::Serialization);
        }
        let mut clear: Vec<u8> = Vec::new();
        crate::msgpack::enc_list::<S::Op>(&mut clear, &ops);
        if clear.len() > usize::MAX - 16 {
            return Err(Error::Serialization);
        }
        let inner = VersionBytes::new(self.current_data_version, clear);
        let framed_clear = inner.serialize();
        let key = match self.data.keys.latest_key() {
            Some(k) => k,
            None => {
                return Err(Error::Precondition);
            },
        };
        let ct = match self.cryptor.encrypt(key.key(), framed_clear.as_slice()) {
            Ok(ct) => ct,
            Err(e) => {
                return Err(e);
            },
        };
        if ct.len() > usize::MAX - 16 {
            return Err(Error::Serialization);
        }
        let outer = VersionBytes::new(CURRENT_VERSION, ct);
        let ghost ctv = outer@.content;
        let actor = match &self.data.local_meta {
            Some(lm) => lm.local_actor_id,
            None => {
                return Err(Error::Precondition);
            },
        };
        let version = self.data.state.next_op_versions.get(actor);
        if version == u64::MAX {
            return Err(Error::Integrity);
        }
        match self.storage.store_ops(actor, version, outer) {
            Ok(()) => {},
            Err(e) => {
                return Err(e);
            },
        }
        // durably stored: now fold the ops in and advance the clock
        let ghost opsv = crate::msgpack::views_of(ops@);
        let ghost smid = *self;
        let mut rest = ops;
        let mut applied: usize = 0;
        while rest.len() > 0
            invariant
                applied + rest@.len() == opsv.len(),
                opsv.len() <= usize::MAX,
                forall|j: int|
                    0 <= j < rest@.len() ==> (#[trigger] rest@[j])@ == opsv[applied + j],
                forall|j: int|
                    0 <= j < rest@.len() ==> <S::Op as Codec>::valid_of((#[trigger] rest@[j])@),
                old(self).wf(),
                S::inv_of(self.state_spec()),
                self.state_spec() == crate::crdt::applied_all_of::<S>(
                    old(self).state_spec(),
                    opsv.take(applied as int),
                ),
                self.clock_spec() == old(self).clock_spec(),
                entries_wf(self.clock_spec()),
                self.actor_spec() == old(self).actor_spec(),
                self.keys_spec() == old(self).keys_spec(),
                self.data.keys == smid.data.keys,
                self.data.remote_meta == smid.data.remote_meta,
                self.meta_spec() == old(self).meta_spec(),
                self.data.remote_meta.wf(),
                self.read_states_spec() == old(self).read_states_spec(),
                distinct_names(self.read_states_spec()),
                distinct_names(self.read_metas_spec()),
                self.read_metas_spec() == old(self).read_metas_spec(),
                self.supported_spec() == old(self).supported_spec(),
                sorted_ascending(self.supported_spec()),
                self.current_version_spec() == old(self).current_version_spec(),
                self.st_ops_spec() == smid.st_ops_spec(),
                self.st_states_spec() == smid.st_states_spec(),
                self.st_metas_spec() == smid.st_metas_spec(),
                self.st_local_spec() == smid.st_local_spec(),
            decreases rest@.len(),
        {
            let op = rest.remove(0);
            proof {
                S::lemma_valid_op_inv(op@);
                assert(opsv.take(applied + 1).drop_last() =~= opsv.take(applied as int));
                assert(opsv.take(applied + 1).last() == opsv[applied as int]);
            }
            self.data.state.state.apply(op);
            applied = applied + 1;
            proof {
                assert(forall|j: int|
                    0 <= j < rest@.len() ==> (#[trigger] rest@[j])@ == opsv[applied + j]);
            }
        }
        proof {
            assert(opsv.take(opsv.len() as int) =~= opsv);
        }
        let ghost preclock = self.data.state.next_op_versions;
        self.data.state.next_op_versions.increment(actor);
        proof {
            let a = old(self).actor_spec().unwrap();
            assert forall|x: u128|
                x != a implies seq_get(self.clock_spec(), x) == seq_get(
                old(self).clock_spec(),
                x,
            ) by {
                assert(self.data.state.next_op_versions.get_spec(x) == preclock.get_spec(x));
            }
            let kv = crate::key_cryptor::keys_latest_spec(old(self).keys_spec()).unwrap();
            assert(self.st_ops_spec() == old(self).st_ops_spec().insert(
                (a, seq_get(old(self).clock_spec(), a)),
                serialized_spec(CURRENT_VERSION, ctv),
            ));
            assert(old(self).dec_spec(kv.key, ctv) == Some(
                serialized_spec(
                    old(self).current_version_spec(),
                    crate::msgpack::enc_list_of::<S::Op>(opsv),
                ),
            ));
            assert(exists|ct2: Seq<u8>|
                {
                    &&& final(self).st_ops_spec() == old(self).st_ops_spec().insert(
                        (
                            old(self).actor_spec().unwrap(),
                            seq_get(old(self).clock_spec(), old(self).actor_spec().unwrap()),
                        ),
                        serialized_spec(CURRENT_VERSION, ct2),
                    )
                    &&& old(self).dec_spec(
                        crate::key_cryptor::keys_latest_spec(
                            old(self).keys_spec(),
                        ).unwrap().key,
                        ct2,
                    ) == Some(
                        serialized_spec(
                            old(self).current_version_spec(),
                            crate::msgpack::enc_list_of::<S::Op>(
                                crate::msgpack::views_of(ops@),
                            ),
                        ),
                    )
                }) by {
                assert(final(self).st_ops_spec() == old(self).st_ops_spec().insert(
                    (
                        old(self).actor_spec().unwrap(),
                        seq_get(old(self).clock_spec(), old(self).actor_spec().unwrap()),
                    ),
                    serialized_spec(CURRENT_VERSION, ctv),
                ) && old(self).dec_spec(
                    crate::key_cryptor::keys_latest_spec(old(self).keys_spec()).unwrap().key,
                    ctv,
                ) == Some(
                    serialized_spec(
                        old(self).current_version_spec(),
                        crate::msgpack::enc_list_of::<S::Op>(crate::msgpack::views_of(ops@)),
                    ),
                ));
            }
        }
        Ok(())
    }
}

/// One decoded snapshot folded into state and clock: the state merges,
/// the clock takes the pointwise maximum.
pub open spec fn state_step<S: CmCrdt>(
    w: (Seq<(u128, u64)>, S::V),
    st0: S::V,
    ck0: Seq<(u128, u64)>,
    st1: S::V,
    ck1: Seq<(u128, u64)>,
) -> bool {
    &&& st1 == S::merged_of(st0, w.1)
    &&& entries_wf(ck1)
    &&& forall|x: u128|
        #![trigger seq_get(ck1, x)]
        seq_get(ck1, x) == if seq_get(ck0, x) >= seq_get(w.0, x) {
            seq_get(ck0, x)
        } else {
            seq_get(w.0, x)
        }
}

/// A sequence of decoded snapshots folded in, first to last.
pub open spec fn states_run<S: CmCrdt>(
    ws: Seq<(Seq<(u128, u64)>, S::V)>,
    st0: S::V,
    ck0: Seq<(u128, u64)>,
    st1: S::V,
    ck1: Seq<(u128, u64)>,
) -> bool
    decreases ws.len(),
{
    if ws.len() == 0 {
        st1 == st0 && ck1 == ck0
    } else {
        exists|stm: S::V, ckm: Seq<(u128, u64)>|
            #![trigger state_step::<S>(ws.last(), stm, ckm, st1, ck1)]
            states_run::<S>(ws.drop_last(), st0, ck0, stm, ckm) && state_step::<S>(
                ws.last(),
                stm,
                ckm,
                st1,
                ck1,
            )
    }
}

impl<S: CmCrdt, ST: Storage, C: Cryptor, KC: KeyCryptor> Core<S, ST, C, KC> {
    /// A stored state blob the engine rejects over the version `got`:
    /// either its outer tag is `got` and outside the engine's set, or the
    /// outer tag passes, it decrypts, and the inner tag is `got` and
    /// outside the user's set.
    pub open spec fn rejected_state_version(
        &self,
        key: VersionBytesView,
        bytes: Seq<u8>,
        got: u128,
    ) -> bool {
        bytes.len() >= 16 && {
            ||| (u128_from_be(bytes.subrange(0, 16)) == got && !supported_versions_spec().contains(
                got,
            ))
            ||| (supported_versions_spec().contains(u128_from_be(bytes.subrange(0, 16)))
                && match self.dec_spec(key, bytes.skip(16)) {
                Some(clear) => clear.len() >= 16 && u128_from_be(clear.subrange(0, 16)) == got
                    && !self.supported_spec().contains(got),
                None => false,
            })
        }
    }

    /// What a stored state blob decodes to: outer framing in the engine's
    /// supported set, decrypt under `key`, inner framing in the user's
    /// supported set, then the state wrapper.
    pub open spec fn decode_state_blob(
        &self,
        key: VersionBytesView,
        bytes: Seq<u8>,
    ) -> Option<(Seq<(u128, u64)>, S::V)> {
        if bytes.len() < 16 {
            None
        } else {
            let v = u128_from_be(bytes.subrange(0, 16));
            if !supported_versions_spec().contains(v) {
                None
            } else {
                match self.dec_spec(key, bytes.skip(16)) {
                    None => None,
                    Some(clear) => if clear.len() < 16 {
                        None
                    } else {
                        let dv = u128_from_be(clear.subrange(0, 16));
                        if !self.supported_spec().contains(dv) {
                            None
                        } else {
                            match <StateWrapper<S> as Codec>::dec_of(clear.skip(16), 0) {
                                Some(p) => Some(p.0),
                                None => None,
                            }
                        }
                    },
                }
            }
        }
    }

    /// The whole effect of one snapshot-reading phase, from the
    /// `(state, clock, read set)` triple before it to the triple after
    /// it; `self` supplies the store contents, the latest key and the
    /// supported sets, which the phase leaves unchanged.
    pub open spec fn states_phase_post(
        &self,
        st0: S::V,
        ck0: Seq<(u128, u64)>,
        reads0: Seq<Seq<char>>,
        st1: S::V,
        ck1: Seq<(u128, u64)>,
        reads1: Seq<Seq<char>>,
        changed: bool,
    ) -> bool {
        exists|new_names: Seq<Seq<char>>, ws: Seq<(Seq<(u128, u64)>, S::V)>|
            {
                &&& new_names.len() == ws.len()
                &&& distinct_names(new_names)
                &&& forall|i: int|
                    0 <= i < new_names.len() ==> self.st_states_spec().dom().contains(
                        #[trigger] new_names[i],
                    ) && !reads0.contains(new_names[i])
                &&& forall|n: Seq<char>|
                    self.st_states_spec().dom().contains(n) && !reads0.contains(n)
                        ==> new_names.contains(n)
                &&& forall|i: int|
                    0 <= i < ws.len() ==> self.decode_state_blob(
                        crate::key_cryptor::keys_latest_spec(self.keys_spec()).unwrap().key,
                        self.st_states_spec()[new_names[i]],
                    ) == Some(#[trigger] ws[i])
                &&& states_run::<S>(ws, st0, ck0, st1, ck1)
                &&& reads1 == reads0 + new_names
                &&& changed == (new_names.len() > 0)
            }
    }

    /// The whole effect of one op-reading phase, from the state and clock
    /// before it to those after it; `self` supplies the store contents,
    /// the latest key and the supported sets, which the phase leaves
    /// unchanged.
    pub open spec fn ops_phase_post(
        &self,
        st0: S::V,
        ck0: Seq<(u128, u64)>,
        st1: S::V,
        ck1: Seq<(u128, u64)>,
        changed: bool,
    ) -> bool {
        exists|decoded: Seq<(u128, u64, Seq<<S::Op as View>::V>)>|
            {
                &&& forall|i: int|
                    0 <= i < decoded.len() ==> {
                        let (a, v, ops2) = #[trigger] decoded[i];
                        &&& self.st_ops_spec().dom().contains((a, v))
                        &&& self.decode_ops_blob(
                            crate::key_cryptor::keys_latest_spec(
                                self.keys_spec(),
                            ).unwrap().key,
                            self.st_ops_spec()[(a, v)],
                        ) == Some(ops2)
                        &&& seq_get(ck0, a) <= v
                        &&& crate::storage::dense_upto(
                            self.st_ops_spec(),
                            a,
                            seq_get(ck0, a),
                            v,
                        )
                    }
                &&& forall|i: int, j: int|
                    0 <= i < j < decoded.len() && (#[trigger] decoded[i]).0 == (
                    #[trigger] decoded[j]).0 ==> decoded[i].1 < decoded[j].1
                &&& forall|a: u128, v: u64|
                    #![trigger crate::storage::dense_upto(
                        self.st_ops_spec(),
                        a,
                        seq_get(ck0, a),
                        v,
                    )]
                    crate::storage::dense_upto(self.st_ops_spec(), a, seq_get(ck0, a), v)
                        ==> exists|i: int|
                        0 <= i < decoded.len() && (#[trigger] decoded[i]).0 == a && decoded[i].1
                            == v
                &&& ops_run::<S>(decoded, st0, ck0, st1, ck1)
                &&& decoded.len() == 0 ==> !changed
                &&& decoded.len() > 0 ==> changed
            }
    }

    /// The phase effects depend on the replica only through its store
    /// contents, key registry, cipher and supported sets: two replicas
    /// agreeing on those agree on the effect.
    proof fn lemma_states_post_frame(
        a: Core<S, ST, C, KC>,
        b: Core<S, ST, C, KC>,
        st0: S::V,
        ck0: Seq<(u128, u64)>,
        reads0: Seq<Seq<char>>,
        st1: S::V,
        ck1: Seq<(u128, u64)>,
        reads1: Seq<Seq<char>>,
        changed: bool,
    )
        requires
            a.st_states_spec() == b.st_states_spec(),
            a.keys_spec() == b.keys_spec(),
            a.cryptor_spec() == b.cryptor_spec(),
            a.supported_spec() == b.supported_spec(),
            a.states_phase_post(st0, ck0, reads0, st1, ck1, reads1, changed),
        ensures
            b.states_phase_post(st0, ck0, reads0, st1, ck1, reads1, changed),
    {
        let (new_names, ws) = choose|
            new_names: Seq<Seq<char>>,
            ws: Seq<(Seq<(u128, u64)>, S::V)>,
        |
            {
                &&& new_names.len() == ws.len()
                &&& distinct_names(new_names)
                &&& forall|i: int|
                    0 <= i < new_names.len() ==> a.st_states_spec().dom().contains(
                        #[trigger] new_names[i],
                    ) && !reads0.contains(new_names[i])
                &&& forall|n: Seq<char>|
                    a.st_states_spec().dom().contains(n) && !reads0.contains(n)
                        ==> new_names.contains(n)
                &&& forall|i: int|
                    0 <= i < ws.len() ==> a.decode_state_blob(
                        crate::key_cryptor::keys_latest_spec(a.keys_spec()).unwrap().key,
                        a.st_states_spec()[new_names[i]],
                    ) == Some(#[trigger] ws[i])
                &&& states_run::<S>(ws, st0, ck0, st1, ck1)
                &&& reads1 == reads0 + new_names
                &&& changed == (new_names.len() > 0)
            };
        assert forall|i: int|
            0 <= i < ws.len() implies b.decode_state_blob(
            crate::key_cryptor::keys_latest_spec(b.keys_spec()).unwrap().key,
            b.st_states_spec()[new_names[i]],
        ) == Some(#[trigger] ws[i]) by {
            let kk = crate::key_cryptor::keys_latest_spec(a.keys_spec()).unwrap().key;
            let bytes = a.st_states_spec()[new_names[i]];
            assert(b.dec_spec(kk, bytes.skip(16)) == a.dec_spec(kk, bytes.skip(16)));
        }
    }

    /// The same framing for the op-reading phase.
    proof fn lemma_ops_post_frame(
        a: Core<S, ST, C, KC>,
        b: Core<S, ST, C, KC>,
        st0: S::V,
        ck0: Seq<(u128, u64)>,
        st1: S::V,
        ck1: Seq<(u128, u64)>,
        changed: bool,
    )
        requires
            a.st_ops_spec() == b.st_ops_spec(),
            a.keys_spec() == b.keys_spec(),
            a.cryptor_spec() == b.cryptor_spec(),
            a.supported_spec() == b.supported_spec(),
            a.ops_phase_post(st0, ck0, st1, ck1, changed),
        ensures
            b.ops_phase_post(st0, ck0, st1, ck1, changed),
    {
        let decoded = choose|decoded: Seq<(u128, u64, Seq<<S::Op as View>::V>)>|
            {
                &&& forall|i: int|
                    0 <= i < decoded.len() ==> {
                        let (a2, v2, ops2) = #[trigger] decoded[i];
                        &&& a.st_ops_spec().dom().contains((a2, v2))
                        &&& a.decode_ops_blob(
                            crate::key_cryptor::keys_latest_spec(a.keys_spec()).unwrap().key,
                            a.st_ops_spec()[(a2, v2)],
                        ) == Some(ops2)
                        &&& seq_get(ck0, a2) <= v2
                        &&& crate::storage::dense_upto(
                            a.st_ops_spec(),
                            a2,
                            seq_get(ck0, a2),
                            v2,
                        )
                    }
                &&& forall|i: int, j: int|
                    0 <= i < j < decoded.len() && (#[trigger] decoded[i]).0 == (
                    #[trigger] decoded[j]).0 ==> decoded[i].1 < decoded[j].1
                &&& forall|a2: u128, v2: u64|
                    #![trigger crate::storage::dense_upto(
                        a.st_ops_spec(),
                        a2,
                        seq_get(ck0, a2),
                        v2,
                    )]
                    crate::storage::dense_upto(a.st_ops_spec(), a2, seq_get(ck0, a2), v2)
                        ==> exists|i: int|
                        0 <= i < decoded.len() && (#[trigger] decoded[i]).0 == a2
                            && decoded[i].1 == v2
                &&& ops_run::<S>(decoded, st0, ck0, st1, ck1)
                &&& decoded.len() == 0 ==> !changed
                &&& decoded.len() > 0 ==> changed
            };
        assert forall|i: int|
            0 <= i < decoded.len() implies {
            let (a2, v2, ops2) = #[trigger] decoded[i];
            b.decode_ops_blob(
                crate::key_cryptor::keys_latest_spec(b.keys_spec()).unwrap().key,
                b.st_ops_spec()[(a2, v2)],
            ) == Some(ops2)
        } by {
            let kk = crate::key_cryptor::keys_latest_spec(a.keys_spec()).unwrap().key;
            let bytes = a.st_ops_spec()[(decoded[i].0, decoded[i].1)];
            assert(b.dec_spec(kk, bytes.skip(16)) == a.dec_spec(kk, bytes.skip(16)));
        }
        assert forall|a2: u128, v2: u64|
            #![trigger crate::storage::dense_upto(b.st_ops_spec(), a2, seq_get(ck0, a2), v2)]
            crate::storage::dense_upto(b.st_ops_spec(), a2, seq_get(ck0, a2), v2)
                implies exists|i: int|
                0 <= i < decoded.len() && (#[trigger] decoded[i]).0 == a2 && decoded[i].1
                    == v2 by {
            assert(crate::storage::dense_upto(a.st_ops_spec(), a2, seq_get(ck0, a2), v2));
        }
    }

    /// Reads every state snapshot not yet merged: decrypts and decodes
    /// each under the latest key, merges them into the state, joins their
    /// clocks, and records their names.  Yields whether anything new was
    /// merged.
    pub fn read_remote_states(&mut self) -> (r: Result<bool, Error>)
        requires
            old(self).wf(),
        ensures
            final(self).wf(),
            final(self).actor_spec() == old(self).actor_spec(),
            final(self).cryptor_spec() == old(self).cryptor_spec(),
            final(self).keys_spec() == old(self).keys_spec(),
            final(self).meta_spec() == old(self).meta_spec(),
            final(self).read_metas_spec() == old(self).read_metas_spec(),
            final(self).supported_spec() == old(self).supported_spec(),
            final(self).current_version_spec() == old(self).current_version_spec(),
            final(self).st_states_spec() == old(self).st_states_spec(),
            final(self).st_ops_spec() == old(self).st_ops_spec(),
            final(self).st_metas_spec() == old(self).st_metas_spec(),
            final(self).st_local_spec() == old(self).st_local_spec(),
            r matches Ok(changed) ==> crate::key_cryptor::keys_latest_spec(
                old(self).keys_spec(),
            ) is Some && final(self).states_phase_post(
                old(self).state_spec(),
                old(self).clock_spec(),
                old(self).read_states_spec(),
                final(self).state_spec(),
                final(self).clock_spec(),
                final(self).read_states_spec(),
                changed,
            ),
            r is Ok ==> name_set(final(self).read_states_spec()) == name_set(
                old(self).read_states_spec(),
            ).union(old(self).st_states_spec().dom()),
            r is Err ==> final(self).state_spec() == old(self).state_spec()
                && final(self).clock_spec() == old(self).clock_spec()
                && final(self).read_states_spec() == old(self).read_states_spec(),
            // a version mismatch in the engine's own terms names a stored,
            // unread blob that genuinely carries the offending version
            r matches Err(e) ==> (e matches Error::VersionMismatch { expected, got } ==> (
            expected@ == supported_versions_spec() ==> exists|n: Seq<char>|
                #![trigger old(self).st_states_spec().dom().contains(n)]
                old(self).st_states_spec().dom().contains(n) && !old(
                    self,
                ).read_states_spec().contains(n) && old(self).rejected_state_version(
                    crate::key_cryptor::keys_latest_spec(old(self).keys_spec()).unwrap().key,
                    old(self).st_states_spec()[n],
                    got,
                ))),
    {
        let names = match self.storage.list_state_names() {
            Ok(n) => n,
            Err(e) => {
                return Err(e);
            },
        };
        // keep the unseen names
        let mut to_read: Vec<String> = Vec::new();
        let n = names.len();
        let mut i: usize = 0;
        while i < n
            invariant
                i <= n,
                n == names@.len(),
                *self == *old(self),
                old(self).wf(),
                self.wf(),
                forall|j: int|
                    0 <= j < to_read@.len() ==> exists|l: int|
                        0 <= l < i && (#[trigger] to_read@[j])@ == names@[l]@,
                forall|j: int|
                    0 <= j < to_read@.len() ==> self.storage.states_model().dom().contains(
                        (#[trigger] to_read@[j])@,
                    ),
                forall|j: int, k: int|
                    0 <= j < k < to_read@.len() ==> (#[trigger] to_read@[j])@ != (
                    #[trigger] to_read@[k])@,
                forall|j: int|
                    0 <= j < to_read@.len() ==> !self.read_states_spec().contains(
                        (#[trigger] to_read@[j])@,
                    ),
                forall|j: int|
                    0 <= j < names@.len() ==> self.storage.states_model().dom().contains(
                        (#[trigger] names@[j])@,
                    ),
                forall|j: int, k: int|
                    0 <= j < k < names@.len() ==> (#[trigger] names@[j])@ != (
                    #[trigger] names@[k])@,
                forall|n2: Seq<char>|
                    self.storage.states_model().dom().contains(n2) ==> exists|l: int|
                        0 <= l < names@.len() && (#[trigger] names@[l])@ == n2,
                forall|j: int|
                    0 <= j < i ==> self.read_states_spec().contains((#[trigger] names@[j])@)
                        || crate::msgpack::views_of(to_read@).contains(names@[j]@),
            decreases n - i,
        {
            let name = names[i].clone();
            let ghost pre_read = to_read@;
            if !contains_name(&self.data.read_states, &name) {
                proof {
                    assert(crate::msgpack::views_of(self.data.read_states@)
                        == self.read_states_spec());
                }
                to_read.push(name);
                proof {
                    assert forall|j: int, k: int|
                        0 <= j < k < to_read@.len() implies (#[trigger] to_read@[j])@ != (
                    #[trigger] to_read@[k])@ by {
                        if k == to_read@.len() - 1 {
                            assert(to_read@[k]@ == names@[i as int]@);
                            let l = choose|l: int|
                                0 <= l < i && (#[trigger] pre_read[j])@ == names@[l]@;
                            assert(to_read@[j] == pre_read[j]);
                            assert(names@[l]@ != names@[i as int]@);
                        } else {
                            assert(to_read@[j] == pre_read[j]);
                            assert(to_read@[k] == pre_read[k]);
                        }
                    }
                }
            } else {
                proof {
                    assert(crate::msgpack::views_of(self.data.read_states@)
                        == self.read_states_spec());
                }
            }
            proof {
                assert forall|j: int|
                    0 <= j < i + 1 implies self.read_states_spec().contains(
                    (#[trigger] names@[j])@,
                ) || crate::msgpack::views_of(to_read@).contains(names@[j]@) by {
                    if j == i {
                        if !self.read_states_spec().contains(names@[j]@) {
                            assert(to_read@[to_read@.len() - 1]@ == names@[i as int]@);
                            assert(crate::msgpack::views_of(to_read@)[to_read@.len() - 1]
                                == names@[i as int]@);
                        }
                    } else {
                        if crate::msgpack::views_of(pre_read).contains(names@[j]@) {
                            let q = choose|q: int|
                                0 <= q < pre_read.len() && #[trigger] crate::msgpack::views_of(
                                    pre_read,
                                )[q] == names@[j]@;
                            assert(to_read@[q] == pre_read[q]);
                            assert(crate::msgpack::views_of(to_read@)[q] == names@[j]@);
                        }
                    }
                }
            }
            i = i + 1;
        }
        let key = match self.data.keys.latest_key() {
            Some(k) => k,
            None => {
                return Err(Error::Precondition);
            },
        };
        let ghost kv = crate::key_cryptor::keys_latest_spec(old(self).keys_spec()).unwrap();
        let ghost to_read_v = to_read@;
        let items = match self.storage.load_states(to_read) {
            Ok(x) => x,
            Err(e) => {
                return Err(e);
            },
        };
        let supported = supported_versions();
        // decode them all before touching the replica record
        let mut wrappers: Vec<(String, StateWrapper<S>)> = Vec::new();
        let m = items.len();
        let mut j: usize = 0;
        while j < m
            invariant
                j <= m,
                m == items@.len(),
                *self == *old(self),
                old(self).wf(),
                self.wf(),
                key@ == kv,
                kv == crate::key_cryptor::keys_latest_spec(old(self).keys_spec()).unwrap(),
                sorted_ascending(supported@),
                supported@ == supported_versions_spec(),
                self.supported_data_versions@ == self.supported_spec(),
                wrappers@.len() == j,
                forall|k2: int, l: int|
                    0 <= k2 < l < items@.len() ==> (#[trigger] items@[k2]).0@ != (
                    #[trigger] items@[l]).0@,
                forall|k2: int|
                    0 <= k2 < items@.len() ==> !self.read_states_spec().contains(
                        (#[trigger] items@[k2]).0@,
                    ) && self.storage.states_model().dom().contains(items@[k2].0@) && framed(
                        items@[k2].1@,
                    ) == self.storage.states_model()[items@[k2].0@],
                forall|k2: int|
                    0 <= k2 < j ==> (#[trigger] wrappers@[k2]).0 == items@[k2].0
                        && self.decode_state_blob(
                        kv.key,
                        self.storage.states_model()[items@[k2].0@],
                    ) == Some(wrappers@[k2].1@) && <StateWrapper<S> as Codec>::valid_of(
                        wrappers@[k2].1@,
                    ),
            decreases m - j,
        {
            let vb = &items[j].1;
            proof {
                let bytes = framed(vb@);
                assert(bytes.subrange(0, 16) =~= crate::utils::version_bytes::u128_be_bytes(
                    vb@.version,
                ));
                crate::utils::version_bytes::lemma_u128_be_round_trip(vb@.version);
                assert(bytes.skip(16) =~= vb@.content);
            }
            match vb.ensure_versions(supported.as_slice()) {
                Ok(()) => {},
                Err(ve) => {
                    proof {
                        let n = items@[j as int].0@;
                        let bytes = self.storage.states_model()[n];
                        assert(self.rejected_state_version(kv.key, bytes, vb@.version)) by {
                            assert(u128_from_be(bytes.subrange(0, 16)) == vb@.version);
                            assert(!supported_versions_spec().contains(vb@.version));
                        }
                        assert(old(self).st_states_spec().dom().contains(n));
                    }
                    return Err(Error::VersionMismatch { expected: ve.expected, got: ve.got });
                },
            }
            let clear = match self.cryptor.decrypt(key.key(), vb.as_ref()) {
                Ok(c) => c,
                Err(e) => {
                    return Err(e);
                },
            };
            let clear_ref = match crate::utils::version_bytes::VersionBytesRef::deserialize(
                clear.as_slice(),
            ) {
                Ok(x) => x,
                Err(_) => {
                    return Err(Error::FramingInvalid);
                },
            };
            match clear_ref.ensure_versions(self.supported_data_versions.as_slice()) {
                Ok(()) => {},
                Err(ve) => {
                    proof {
                        if self.supported_data_versions@ == supported_versions_spec() {
                            let n = items@[j as int].0@;
                            let bytes = self.storage.states_model()[n];
                            assert(self.rejected_state_version(
                                kv.key,
                                bytes,
                                clear_ref@.version,
                            )) by {
                                assert(supported_versions_spec().contains(
                                    u128_from_be(bytes.subrange(0, 16)),
                                )) by {
                                    assert(u128_from_be(bytes.subrange(0, 16)) == vb@.version);
                                }
                                assert(self.dec_spec(kv.key, bytes.skip(16)) == Some(clear@))
                                    by {
                                    assert(bytes.skip(16) =~= vb@.content);
                                }
                                assert(u128_from_be(clear@.subrange(0, 16))
                                    == clear_ref@.version);
                            }
                            assert(old(self).st_states_spec().dom().contains(n));
                        }
                    }
                    return Err(Error::VersionMismatch { expected: ve.expected, got: ve.got });
                },
            }
            let (w, _) = match <StateWrapper<S> as Codec>::decode(clear_ref.as_ref(), 0) {
                Ok(x) => x,
                Err(e) => {
                    return Err(e);
                },
            };
            proof {
                <StateWrapper<S> as Codec>::lemma_dec_progress(clear_ref@.content, 0);
                assert(clear_ref@.content =~= clear@.skip(16));
                assert(clear_ref@.version == u128_from_be(clear@.subrange(0, 16)));
            }
            let name = items[j].0.clone();
            wrappers.push((name, w));
            j = j + 1;
        }
        // merge them in
        let changed = wrappers.len() > 0;
        let ghost base_names = self.read_states_spec();
        let ghost st0 = self.state_spec();
        let ghost ck0 = self.clock_spec();
        let dn = wrappers.len();
        let mut k: usize = 0;
        let mut rest = wrappers;
        let ghost wsall = crate::msgpack::views_of(rest@).map_values(
            |p: (Seq<char>, (Seq<(u128, u64)>, S::V))| p.1,
        );
        let ghost allnames = crate::msgpack::views_of(rest@).map_values(
            |p: (Seq<char>, (Seq<(u128, u64)>, S::V))| p.0,
        );
        proof {
            assert forall|q: int|
                0 <= q < dn implies ((#[trigger] rest@[q]).0@ == allnames[q] && rest@[q].1@
                == wsall[q]) by {
                assert(crate::msgpack::views_of(rest@)[q] == rest@[q]@);
            }
            assert forall|q: int|
                0 <= q < dn implies S::inv_of((#[trigger] wsall[q]).1) && entries_wf(
                wsall[q].0,
            ) by {
                assert(crate::msgpack::views_of(rest@)[q] == rest@[q]@);
                assert(<StateWrapper<S> as Codec>::valid_of(rest@[q].1@));
                S::lemma_valid_state_inv(rest@[q].1@.1);
            }
            assert forall|q: int, l: int|
                0 <= q < l < dn implies (#[trigger] allnames[q]) != (
            #[trigger] allnames[l]) by {
                assert(crate::msgpack::views_of(rest@)[q] == rest@[q]@);
                assert(crate::msgpack::views_of(rest@)[l] == rest@[l]@);
                assert(rest@[q].0 == items@[q].0);
                assert(rest@[l].0 == items@[l].0);
            }
            assert forall|q: int|
                0 <= q < dn implies !old(self).read_states_spec().contains(
                #[trigger] allnames[q],
            ) by {
                assert(crate::msgpack::views_of(rest@)[q] == rest@[q]@);
                assert(rest@[q].0 == items@[q].0);
            }
            assert forall|q: int|
                0 <= q < dn implies old(self).st_states_spec().dom().contains(
                #[trigger] allnames[q],
            ) && old(self).decode_state_blob(
                kv.key,
                old(self).st_states_spec()[allnames[q]],
            ) == Some(wsall[q]) by {
                assert(crate::msgpack::views_of(rest@)[q] == rest@[q]@);
                assert(rest@[q].0 == items@[q].0);
                assert(self.decode_state_blob(
                    kv.key,
                    self.storage.states_model()[items@[q].0@],
                ) == Some(rest@[q].1@));
            }
            assert forall|n2: Seq<char>|
                old(self).st_states_spec().dom().contains(n2) && !old(
                    self,
                ).read_states_spec().contains(n2) implies allnames.contains(n2) by {
                let l = choose|l: int|
                    0 <= l < names@.len() && (#[trigger] names@[l])@ == n2;
                assert(crate::msgpack::views_of(to_read_v).contains(n2));
                let l2 = choose|l2: int|
                    0 <= l2 < to_read_v.len() && #[trigger] crate::msgpack::views_of(
                        to_read_v,
                    )[l2] == n2;
                assert(items@[l2].0@ == to_read_v[l2]@);
                assert(crate::msgpack::views_of(rest@)[l2] == rest@[l2]@);
                assert(rest@[l2].0 == items@[l2].0);
                assert(allnames[l2] == n2);
            }
        }
        while k < dn
            invariant
                k <= dn,
                dn == wsall.len(),
                dn == allnames.len(),
                rest@.len() + k == dn,
                old(self).wf(),
                distinct_names(old(self).read_states_spec()),
                self.wf(),
                kv == crate::key_cryptor::keys_latest_spec(old(self).keys_spec()).unwrap(),
                changed == (dn > 0),
                forall|q: int|
                    0 <= q < dn ==> old(self).st_states_spec().dom().contains(
                        #[trigger] allnames[q],
                    ) && old(self).decode_state_blob(
                        kv.key,
                        old(self).st_states_spec()[allnames[q]],
                    ) == Some(wsall[q]),
                forall|n2: Seq<char>|
                    old(self).st_states_spec().dom().contains(n2) && !old(
                        self,
                    ).read_states_spec().contains(n2) ==> allnames.contains(n2),
                forall|q: int|
                    0 <= q < rest@.len() ==> ((#[trigger] rest@[q]).0@ == allnames[k + q]
                        && rest@[q].1@ == wsall[k + q]),
                forall|q: int|
                    0 <= q < dn ==> S::inv_of((#[trigger] wsall[q]).1) && entries_wf(wsall[q].0),
                forall|q: int, l: int|
                    0 <= q < l < dn ==> (#[trigger] allnames[q]) != (#[trigger] allnames[l]),
                forall|q: int|
                    0 <= q < dn ==> !old(self).read_states_spec().contains(
                        #[trigger] allnames[q],
                    ),
                self.actor_spec() == old(self).actor_spec(),
                self.keys_spec() == old(self).keys_spec(),
                self.cryptor == old(self).cryptor,
                self.data.keys == old(self).data.keys,
                self.data.remote_meta == old(self).data.remote_meta,
                self.meta_spec() == old(self).meta_spec(),
                self.read_metas_spec() == old(self).read_metas_spec(),
                distinct_names(self.read_metas_spec()),
                self.supported_spec() == old(self).supported_spec(),
                self.current_version_spec() == old(self).current_version_spec(),
                self.st_states_spec() == old(self).st_states_spec(),
                self.st_ops_spec() == old(self).st_ops_spec(),
                self.st_metas_spec() == old(self).st_metas_spec(),
                self.st_local_spec() == old(self).st_local_spec(),
                st0 == old(self).state_spec(),
                ck0 == old(self).clock_spec(),
                base_names == old(self).read_states_spec(),
                states_run::<S>(wsall.take(k as int), st0, ck0, self.state_spec(), self.clock_spec()),
                self.read_states_spec().len() == base_names.len() + k,
                forall|q: int|
                    0 <= q < base_names.len() ==> #[trigger] self.read_states_spec()[q]
                        == base_names[q],
                forall|q: int|
                    0 <= q < k ==> #[trigger] self.read_states_spec()[base_names.len() + q]
                        == allnames[q],
            decreases dn - k,
        {
            let (name, w) = rest.remove(0);
            let StateWrapper { next_op_versions: wck, state: wst } = w;
            let ghost stm = self.state_spec();
            let ghost ckm = self.clock_spec();
            proof {
                assert(rest@.len() + 1 + k == dn);
                assert forall|q: int|
                    0 <= q < rest@.len() implies ((#[trigger] rest@[q]).0@ == allnames[k + 1 + q]
                        && rest@[q].1@ == wsall[k + 1 + q]) by {}
            }
            self.data.state.state.merge(wst);
            self.data.state.next_op_versions.merge(&wck);
            let ghost pre_names = self.data.read_states@;
            self.data.read_states.push(name);
            proof {
                // the fold step
                assert(state_step::<S>(
                    wsall[k as int],
                    stm,
                    ckm,
                    self.state_spec(),
                    self.clock_spec(),
                )) by {
                    assert forall|x: u128|
                        #![trigger seq_get(self.clock_spec(), x)]
                        seq_get(self.clock_spec(), x) == if seq_get(ckm, x) >= seq_get(
                            wsall[k as int].0,
                            x,
                        ) {
                            seq_get(ckm, x)
                        } else {
                            seq_get(wsall[k as int].0, x)
                        } by {
                        assert(self.data.state.next_op_versions.get_spec(x) == seq_get(
                            self.clock_spec(),
                            x,
                        ));
                    }
                }
                assert(wsall.take(k + 1).drop_last() =~= wsall.take(k as int));
                assert(wsall.take(k + 1).last() == wsall[k as int]);
                assert(states_run::<S>(
                    wsall.take(k + 1),
                    st0,
                    ck0,
                    self.state_spec(),
                    self.clock_spec(),
                ));
                // names bookkeeping
                let base = base_names;
                assert forall|q: int|
                    0 <= q < base.len() implies #[trigger] self.read_states_spec()[q]
                    == base[q] by {
                    assert(self.read_states_spec()[q] == self.data.read_states@[q]@);
                    assert(self.data.read_states@[q] == pre_names[q]);
                    assert(crate::msgpack::views_of(pre_names)[q] == pre_names[q]@);
                }
                assert forall|q: int|
                    0 <= q < k + 1 implies #[trigger] self.read_states_spec()[base.len() + q]
                    == allnames[q] by {
                    assert(self.read_states_spec()[base.len() + q]
                        == self.data.read_states@[base.len() + q]@);
                    if q < k {
                        assert(self.data.read_states@[base.len() + q] == pre_names[base.len()
                            + q]);
                        assert(crate::msgpack::views_of(pre_names)[base.len() + q]
                            == pre_names[base.len() + q]@);
                    } else {
                        assert(self.data.read_states@[base.len() + q] == name);
                    }
                }
                assert(distinct_names(self.read_states_spec())) by {
                    assert forall|p: int, q: int|
                        0 <= p < q < self.read_states_spec().len() implies (
                    #[trigger] self.read_states_spec()[p]) != (
                    #[trigger] self.read_states_spec()[q]) by {
                        if q >= base.len() {
                            let qq = q - base.len();
                            assert(self.read_states_spec()[base.len() + qq] == allnames[qq]);
                            if p >= base.len() {
                                let pp = p - base.len();
                                assert(self.read_states_spec()[base.len() + pp]
                                    == allnames[pp]);
                            } else {
                                assert(self.read_states_spec()[p] == base[p]);
                                assert(base.contains(base[p])) by {
                                    assert(base[p] == base[p]);
                                }
                            }
                        } else {
                            assert(self.read_states_spec()[p] == base[p]);
                            assert(self.read_states_spec()[q] == base[q]);
                        }
                    }
                }
            }
            k = k + 1;
        }
        proof {
            assert(wsall.take(dn as int) =~= wsall);
            assert(self.read_states_spec() =~= base_names + allnames) by {
                assert forall|q: int|
                    0 <= q < self.read_states_spec().len() implies #[trigger] self.read_states_spec()[q]
                    == (base_names + allnames)[q] by {
                    if q >= base_names.len() {
                        let qq = q - base_names.len();
                        assert(self.read_states_spec()[base_names.len() + qq] == allnames[qq]);
                    }
                }
            }
            // package the phase effect under the final replica
            assert(self.states_phase_post(
                old(self).state_spec(),
                old(self).clock_spec(),
                base_names,
                self.state_spec(),
                self.clock_spec(),
                self.read_states_spec(),
                changed,
            )) by {
                assert forall|i: int|
                    0 <= i < wsall.len() implies self.decode_state_blob(
                    kv.key,
                    self.st_states_spec()[allnames[i]],
                ) == Some(#[trigger] wsall[i]) by {
                    assert(old(self).decode_state_blob(
                        kv.key,
                        old(self).st_states_spec()[allnames[i]],
                    ) == Some(wsall[i]));
                }
                assert(crate::key_cryptor::keys_latest_spec(self.keys_spec()).unwrap()
                    == kv);
            }
            // the read set now holds exactly the old names plus every
            // stored snapshot name
            assert(name_set(self.read_states_spec()) =~= name_set(base_names).union(
                old(self).st_states_spec().dom(),
            )) by {
                let reads1 = self.read_states_spec();
                assert forall|n2: Seq<char>|
                    name_set(reads1).contains(n2) implies name_set(base_names).union(
                    old(self).st_states_spec().dom(),
                ).contains(n2) by {
                    let q = choose|q: int| 0 <= q < reads1.len() && reads1[q] == n2;
                    if q < base_names.len() {
                        assert(base_names[q] == n2);
                        assert(base_names.contains(n2));
                    } else {
                        assert(allnames[q - base_names.len()] == n2);
                    }
                }
                assert forall|n2: Seq<char>|
                    name_set(base_names).union(old(self).st_states_spec().dom()).contains(
                        n2,
                    ) implies name_set(reads1).contains(n2) by {
                    if base_names.contains(n2) {
                        let q = choose|q: int|
                            0 <= q < base_names.len() && base_names[q] == n2;
                        assert(reads1[q] == n2);
                    } else {
                        assert(old(self).st_states_spec().dom().contains(n2));
                        assert(allnames.contains(n2));
                        let q = choose|q: int| 0 <= q < allnames.len() && allnames[q] == n2;
                        assert(reads1[base_names.len() + q] == n2);
                    }
                }
            }
        }
        Ok(changed)
    }
}

/// One loaded op blob processed: an already-seen version changes
/// nothing; the expected version applies its ops and advances the
/// actor's counter; a version from the future is impossible in a
/// well-formed run.
pub open spec fn op_step<S: CmCrdt>(
    item: (u128, u64, Seq<<S::Op as View>::V>),
    st0: S::V,
    ck0: Seq<(u128, u64)>,
    st1: S::V,
    ck1: Seq<(u128, u64)>,
) -> bool {
    let e = seq_get(ck0, item.0);
    if item.1 < e {
        st1 == st0 && ck1 == ck0
    } else if item.1 > e {
        false
    } else {
        &&& e < u64::MAX
        &&& st1 == crate::crdt::applied_all_of::<S>(st0, item.2)
        &&& entries_wf(ck1)
        &&& seq_get(ck1, item.0) == e + 1
        &&& forall|x: u128|
            x != item.0 ==> #[trigger] seq_get(ck1, x) == seq_get(ck0, x)
    }
}

/// A sequence of loaded op blobs processed, first to last.
pub open spec fn ops_run<S: CmCrdt>(
    items: Seq<(u128, u64, Seq<<S::Op as View>::V>)>,
    st0: S::V,
    ck0: Seq<(u128, u64)>,
    st1: S::V,
    ck1: Seq<(u128, u64)>,
) -> bool
    decreases items.len(),
{
    if items.len() == 0 {
        st1 == st0 && ck1 == ck0
    } else {
        exists|stm: S::V, ckm: Seq<(u128, u64)>|
            #![trigger op_step::<S>(items.last(), stm, ckm, st1, ck1)]
            ops_run::<S>(items.drop_last(), st0, ck0, stm, ckm) && op_step::<S>(
                items.last(),
                stm,
                ckm,
                st1,
                ck1,
            )
    }
}

impl<S: CmCrdt, ST: Storage, C: Cryptor, KC: KeyCryptor> Core<S, ST, C, KC> {
    /// What a stored op blob decodes to: outer framing in the engine's
    /// supported set, decrypt under `key`, inner framing in the user's
    /// supported set, then the op list.
    pub open spec fn decode_ops_blob(&self, key: VersionBytesView, bytes: Seq<u8>) -> Option<
        Seq<<S::Op as View>::V>,
    > {
        if bytes.len() < 16 {
            None
        } else {
            let v = u128_from_be(bytes.subrange(0, 16));
            if !supported_versions_spec().contains(v) {
                None
            } else {
                match self.dec_spec(key, bytes.skip(16)) {
                    None => None,
                    Some(clear) => if clear.len() < 16 {
                        None
                    } else {
                        let dv = u128_from_be(clear.subrange(0, 16));
                        if !self.supported_spec().contains(dv) {
                            None
                        } else {
                            match crate::msgpack::dec_list_of::<S::Op>(clear.skip(16), 0) {
                                Some(p) => Some(p.0),
                                None => None,
                            }
                        }
                    },
                }
            }
        }
    }

    /// Reads every op not yet folded in: for each actor, loads the dense
    /// run from the replica's next expected version, decrypts and decodes
    /// each blob, then applies the runs in order, advancing the clock one
    /// version at a time.  Yields whether anything was applied.
    #[verifier::rlimit(100)]
    pub fn read_remote_ops(&mut self) -> (r: Result<bool, Error>)
        requires
            old(self).wf(),
        ensures
            final(self).wf(),
            final(self).actor_spec() == old(self).actor_spec(),
            final(self).cryptor_spec() == old(self).cryptor_spec(),
            final(self).keys_spec() == old(self).keys_spec(),
            final(self).meta_spec() == old(self).meta_spec(),
            final(self).read_states_spec() == old(self).read_states_spec(),
            final(self).read_metas_spec() == old(self).read_metas_spec(),
            final(self).supported_spec() == old(self).supported_spec(),
            final(self).current_version_spec() == old(self).current_version_spec(),
            final(self).st_states_spec() == old(self).st_states_spec(),
            final(self).st_ops_spec() == old(self).st_ops_spec(),
            final(self).st_metas_spec() == old(self).st_metas_spec(),
            final(self).st_local_spec() == old(self).st_local_spec(),
            r matches Ok(changed) ==> crate::key_cryptor::keys_latest_spec(
                old(self).keys_spec(),
            ) is Some && final(self).ops_phase_post(
                old(self).state_spec(),
                old(self).clock_spec(),
                final(self).state_spec(),
                final(self).clock_spec(),
                changed,
            ),
            // every failure except the integrity guards precedes any
            // mutation; the guards themselves fire only against a store
            // that broke the dense-run contract mid-way
            r matches Err(e) && !(e is Integrity) ==> final(self).state_spec() == old(
                self,
            ).state_spec() && final(self).clock_spec() == old(self).clock_spec(),
    {
        let actors = match self.storage.list_op_actors() {
            Ok(a) => a,
            Err(e) => {
                return Err(e);
            },
        };
        let mut queries: Vec<(u128, u64)> = Vec::new();
        let na = actors.len();
        let mut i: usize = 0;
        while i < na
            invariant
                i <= na,
                na == actors@.len(),
                *self == *old(self),
                old(self).wf(),
                self.wf(),
                queries@.len() == i,
                forall|j: int|
                    0 <= j < i ==> (#[trigger] queries@[j]) == (
                        actors@[j],
                        seq_get(old(self).clock_spec(), actors@[j]),
                    ),
                forall|j: int, k2: int|
                    0 <= j < k2 < actors@.len() ==> (#[trigger] actors@[j]) != (
                    #[trigger] actors@[k2]),
                forall|a: u128, v: u64|
                    old(self).st_ops_spec().dom().contains((a, v)) ==> actors@.contains(a),
            decreases na - i,
        {
            let a = actors[i];
            let fv = self.data.state.next_op_versions.get(a);
            queries.push((a, fv));
            i = i + 1;
        }
        proof {
            assert forall|j: int, k2: int|
                0 <= j < k2 < queries@.len() implies (#[trigger] queries@[j]).0 != (
            #[trigger] queries@[k2]).0 by {
                assert(queries@[j].0 == actors@[j]);
                assert(queries@[k2].0 == actors@[k2]);
            }
        }
        let key = match self.data.keys.latest_key() {
            Some(k) => k,
            None => {
                return Err(Error::Precondition);
            },
        };
        let ghost kv = crate::key_cryptor::keys_latest_spec(old(self).keys_spec()).unwrap();
        let ghost qs = queries@;
        let items = match self.storage.load_ops(queries) {
            Ok(x) => x,
            Err(e) => {
                return Err(e);
            },
        };
        let supported = supported_versions();
        // decode every blob before touching the replica record
        let mut decoded: Vec<(u128, u64, Vec<S::Op>)> = Vec::new();
        let m = items.len();
        let mut j: usize = 0;
        while j < m
            invariant
                j <= m,
                m == items@.len(),
                *self == *old(self),
                old(self).wf(),
                self.wf(),
                key@ == kv,
                sorted_ascending(supported@),
                supported@ == supported_versions_spec(),
                self.supported_data_versions@ == self.supported_spec(),
                decoded@.len() == j,
                forall|q: int|
                    0 <= q < items@.len() ==> {
                        let (a, v, vb) = #[trigger] items@[q];
                        &&& self.storage.ops_model().dom().contains((a, v))
                        &&& framed(vb@) == self.storage.ops_model()[(a, v)]
                        &&& exists|l: int|
                            0 <= l < qs.len() && (#[trigger] qs[l]).0 == a && qs[l].1 <= v
                    },
                forall|q: int, l: int|
                    0 <= q < l < items@.len() && (#[trigger] items@[q]).0 == (
                    #[trigger] items@[l]).0 ==> items@[q].1 < items@[l].1,
                forall|q: int|
                    0 <= q < j ==> {
                        let (a, v, ops2) = #[trigger] decoded@[q];
                        &&& a == items@[q].0
                        &&& v == items@[q].1
                        &&& self.decode_ops_blob(kv.key, self.storage.ops_model()[(a, v)])
                            == Some(crate::msgpack::views_of(ops2@))
                        &&& forall|w: int|
                            0 <= w < ops2@.len() ==> <S::Op as Codec>::valid_of(
                                (#[trigger] ops2@[w])@,
                            )
                    },
            decreases m - j,
        {
            let vb = &items[j].2;
            proof {
                let bytes = framed(vb@);
                assert(bytes.subrange(0, 16) =~= crate::utils::version_bytes::u128_be_bytes(
                    vb@.version,
                ));
                crate::utils::version_bytes::lemma_u128_be_round_trip(vb@.version);
                assert(bytes.skip(16) =~= vb@.content);
            }
            match vb.ensure_versions(supported.as_slice()) {
                Ok(()) => {},
                Err(ve) => {
                    return Err(Error::VersionMismatch { expected: ve.expected, got: ve.got });
                },
            }
            let clear = match self.cryptor.decrypt(key.key(), vb.as_ref()) {
                Ok(c) => c,
                Err(e) => {
                    return Err(e);
                },
            };
            let clear_ref = match crate::utils::version_bytes::VersionBytesRef::deserialize(
                clear.as_slice(),
            ) {
                Ok(x) => x,
                Err(_) => {
                    return Err(Error::FramingInvalid);
                },
            };
            match clear_ref.ensure_versions(self.supported_data_versions.as_slice()) {
                Ok(()) => {},
                Err(ve) => {
                    return Err(Error::VersionMismatch { expected: ve.expected, got: ve.got });
                },
            }
            let (ops2, _) = match crate::msgpack::dec_list::<S::Op>(clear_ref.as_ref(), 0) {
                Ok(x) => x,
                Err(e) => {
                    return Err(e);
                },
            };
            proof {
                crate::msgpack::lemma_dec_list_progress::<S::Op>(clear_ref@.content, 0);
                assert(clear_ref@.content =~= clear@.skip(16));
                assert(clear_ref@.version == u128_from_be(clear@.subrange(0, 16)));
                assert forall|w: int|
                    0 <= w < ops2@.len() implies <S::Op as Codec>::valid_of(
                    (#[trigger] ops2@[w])@,
                ) by {
                    assert(crate::msgpack::views_of(ops2@)[w] == ops2@[w]@);
                }
            }
            let a = items[j].0;
            let v = items[j].1;
            decoded.push((a, v, ops2));
            j = j + 1;
        }
        // apply the runs in order
        let ghost dv = Seq::new(
            decoded@.len(),
            |q: int|
                (decoded@[q].0, decoded@[q].1, crate::msgpack::views_of(decoded@[q].2@)),
        );
        let ghost st0 = self.state_spec();
        let ghost ck0 = self.clock_spec();
        let dn = decoded.len();
        proof {
            // the first loaded blob is its actor's first run entry, whose
            // version is exactly the replica's expected one
            if dn > 0 {
                let a0 = dv[0].0;
                let v0 = dv[0].1;
                assert(a0 == items@[0].0 && v0 == items@[0].1);
                let l = choose|l: int|
                    0 <= l < qs.len() && (#[trigger] qs[l]).0 == a0 && qs[l].1 <= v0
                        && crate::storage::dense_upto(
                        self.storage.ops_model(),
                        a0,
                        qs[l].1,
                        v0,
                    );
                assert(qs[l] == (actors@[l], seq_get(ck0, actors@[l])));
                let fv = qs[l].1;
                assert(self.storage.ops_model().dom().contains((a0, fv)));
                assert(crate::storage::dense_upto(self.storage.ops_model(), qs[l].0, qs[l].1, fv));
                let i2 = choose|i2: int|
                    0 <= i2 < items@.len() && (#[trigger] items@[i2]).0 == qs[l].0
                        && items@[i2].1 == fv;
                if i2 > 0 {
                    assert(items@[0].1 < items@[i2].1);
                }
                assert(dv[0].1 == seq_get(ck0, dv[0].0));
            }
        }
        let mut rest = decoded;
        let mut k: usize = 0;
        let mut changed = false;
        while k < dn
            invariant
                k <= dn,
                dn == dv.len(),
                rest@.len() + k == dn,
                old(self).wf(),
                self.wf(),
                forall|q: int|
                    0 <= q < rest@.len() ==> ((#[trigger] rest@[q]).0 == dv[k + q].0
                        && rest@[q].1 == dv[k + q].1 && crate::msgpack::views_of(rest@[q].2@)
                        == dv[k + q].2),
                forall|q: int|
                    0 <= q < rest@.len() ==> (forall|w: int|
                        0 <= w < (#[trigger] rest@[q]).2@.len() ==> <S::Op as Codec>::valid_of(
                            (#[trigger] rest@[q].2@[w])@,
                        )),
                self.actor_spec() == old(self).actor_spec(),
                self.keys_spec() == old(self).keys_spec(),
                self.cryptor == old(self).cryptor,
                self.data.keys == old(self).data.keys,
                self.data.remote_meta == old(self).data.remote_meta,
                self.meta_spec() == old(self).meta_spec(),
                self.read_states_spec() == old(self).read_states_spec(),
                self.read_metas_spec() == old(self).read_metas_spec(),
                distinct_names(self.read_states_spec()),
                distinct_names(self.read_metas_spec()),
                self.supported_spec() == old(self).supported_spec(),
                self.current_version_spec() == old(self).current_version_spec(),
                self.st_states_spec() == old(self).st_states_spec(),
                self.st_ops_spec() == old(self).st_ops_spec(),
                self.st_metas_spec() == old(self).st_metas_spec(),
                self.st_local_spec() == old(self).st_local_spec(),
                st0 == old(self).state_spec(),
                ck0 == old(self).clock_spec(),
                dn == 0 ==> !changed,
                k > 0 ==> changed,
                dn > 0 ==> dv[0].1 == seq_get(ck0, dv[0].0),
                ops_run::<S>(dv.take(k as int), st0, ck0, self.state_spec(), self.clock_spec()),
            decreases dn - k,
        {
            let (a, v, ops2) = rest.remove(0);
            let ghost stm = self.state_spec();
            let ghost ckm = self.clock_spec();
            proof {
                assert(rest@.len() + 1 + k == dn);
                assert(a == dv[k as int].0 && v == dv[k as int].1 && crate::msgpack::views_of(
                    ops2@,
                ) == dv[k as int].2);
            }
            let expected = self.data.state.next_op_versions.get(a);
            if v < expected {
                // an overlapping run was already folded in; the very first
                // entry never is, its version being the expected one
                proof {
                    if k == 0 {
                        assert(self.clock_spec() == ck0);
                        assert(false);
                    }
                    assert(op_step::<S>(
                        dv[k as int],
                        stm,
                        ckm,
                        self.state_spec(),
                        self.clock_spec(),
                    ));
                    assert(dv.take(k + 1).drop_last() =~= dv.take(k as int));
                    assert(dv.take(k + 1).last() == dv[k as int]);
                }
                k = k + 1;
                continue ;
            }
            if v > expected {
                return Err(Error::Integrity);
            }
            if expected == u64::MAX {
                return Err(Error::Integrity);
            }
            // apply every op of this run, then advance the clock once
            let ghost opsv = crate::msgpack::views_of(ops2@);
            let mut ops_rest = ops2;
            let nrun = ops_rest.len();
            proof {
                assert(opsv.len() == nrun);
            }
            let mut applied: usize = 0;
            while ops_rest.len() > 0
                invariant
                    applied + ops_rest@.len() == opsv.len(),
                    opsv.len() <= usize::MAX,
                    forall|w: int|
                        0 <= w < ops_rest@.len() ==> (#[trigger] ops_rest@[w])@ == opsv[applied
                            + w],
                    forall|w: int|
                        0 <= w < ops_rest@.len() ==> <S::Op as Codec>::valid_of(
                            (#[trigger] ops_rest@[w])@,
                        ),
                    S::inv_of(self.state_spec()),
                    self.state_spec() == crate::crdt::applied_all_of::<S>(
                        stm,
                        opsv.take(applied as int),
                    ),
                    self.clock_spec() == ckm,
                    entries_wf(self.clock_spec()),
                    old(self).wf(),
                    self.actor_spec() == old(self).actor_spec(),
                    self.keys_spec() == old(self).keys_spec(),
                    self.cryptor == old(self).cryptor,
                    self.data.keys == old(self).data.keys,
                    self.data.remote_meta == old(self).data.remote_meta,
                    self.meta_spec() == old(self).meta_spec(),
                    self.read_states_spec() == old(self).read_states_spec(),
                    self.read_metas_spec() == old(self).read_metas_spec(),
                    distinct_names(self.read_states_spec()),
                    distinct_names(self.read_metas_spec()),
                    self.supported_spec() == old(self).supported_spec(),
                    sorted_ascending(self.supported_spec()),
                    self.current_version_spec() == old(self).current_version_spec(),
                    self.st_states_spec() == old(self).st_states_spec(),
                    self.st_ops_spec() == old(self).st_ops_spec(),
                    self.st_metas_spec() == old(self).st_metas_spec(),
                    self.st_local_spec() == old(self).st_local_spec(),
                decreases ops_rest@.len(),
            {
                let op = ops_rest.remove(0);
                proof {
                    S::lemma_valid_op_inv(op@);
                    assert(opsv.take(applied + 1).drop_last() =~= opsv.take(applied as int));
                    assert(opsv.take(applied + 1).last() == opsv[applied as int]);
                }
                self.data.state.state.apply(op);
                applied = applied + 1;
            }
            proof {
                assert(opsv.take(opsv.len() as int) =~= opsv);
            }
            let ghost preclock = self.data.state.next_op_versions;
            self.data.state.next_op_versions.increment(a);
            changed = true;
            proof {
                assert(op_step::<S>(
                    dv[k as int],
                    stm,
                    ckm,
                    self.state_spec(),
                    self.clock_spec(),
                )) by {
                    assert(dv[k as int].1 == seq_get(ckm, dv[k as int].0));
                    assert(self.state_spec() == crate::crdt::applied_all_of::<S>(
                        stm,
                        dv[k as int].2,
                    ));
                    assert(self.data.state.next_op_versions.get_spec(a) == preclock.get_spec(a)
                        + 1);
                    assert forall|x: u128|
                        x != a implies #[trigger] seq_get(self.clock_spec(), x) == seq_get(
                        ckm,
                        x,
                    ) by {
                        assert(self.data.state.next_op_versions.get_spec(x)
                            == preclock.get_spec(x));
                    }
                }
                assert(dv.take(k + 1).drop_last() =~= dv.take(k as int));
                assert(dv.take(k + 1).last() == dv[k as int]);
            }
            k = k + 1;
        }
        proof {
            assert(dv.take(dn as int) =~= dv);
            let om = old(self).st_ops_spec();
            let ock = old(self).clock_spec();
            assert forall|i: int|
                0 <= i < dv.len() implies {
                let (a2, v2, ops3) = #[trigger] dv[i];
                &&& om.dom().contains((a2, v2))
                &&& old(self).decode_ops_blob(kv.key, om[(a2, v2)]) == Some(ops3)
                &&& seq_get(ock, a2) <= v2
                &&& crate::storage::dense_upto(om, a2, seq_get(ock, a2), v2)
            } by {
                assert(dv[i] == (
                    decoded@[i].0,
                    decoded@[i].1,
                    crate::msgpack::views_of(decoded@[i].2@),
                ));
                assert(decoded@[i].0 == items@[i].0 && decoded@[i].1 == items@[i].1);
                let (a2, v2, vb2) = items@[i];
                let l = choose|l: int|
                    0 <= l < qs.len() && (#[trigger] qs[l]).0 == a2 && qs[l].1 <= v2
                        && crate::storage::dense_upto(om, a2, qs[l].1, v2);
                assert(qs[l] == (actors@[l], seq_get(ock, actors@[l])));
            }
            assert forall|i: int, j2: int|
                0 <= i < j2 < dv.len() && (#[trigger] dv[i]).0 == (#[trigger] dv[j2]).0
                implies dv[i].1 < dv[j2].1 by {
                assert(dv[i].0 == items@[i].0 && dv[i].1 == items@[i].1);
                assert(dv[j2].0 == items@[j2].0 && dv[j2].1 == items@[j2].1);
            }
            assert forall|a2: u128, v2: u64|
                crate::storage::dense_upto(om, a2, seq_get(ock, a2), v2) implies exists|i: int|
                0 <= i < dv.len() && (#[trigger] dv[i]).0 == a2 && dv[i].1 == v2 by {
                assert(om.dom().contains((a2, seq_get(ock, a2))));
                assert(actors@.contains(a2));
                let l = choose|l: int| 0 <= l < actors@.len() && (#[trigger] actors@[l]) == a2;
                assert(qs[l] == (a2, seq_get(ock, a2)));
                assert(crate::storage::dense_upto(om, qs[l].0, qs[l].1, v2));
                let i = choose|i: int|
                    0 <= i < items@.len() && (#[trigger] items@[i]).0 == qs[l].0 && items@[i].1
                        == v2;
                assert(dv[i].0 == items@[i].0 && dv[i].1 == items@[i].1);
                assert(dv[i].0 == a2 && dv[i].1 == v2);
            }
            // package the phase effect under the final replica
            assert(self.ops_phase_post(
                old(self).state_spec(),
                old(self).clock_spec(),
                self.state_spec(),
                self.clock_spec(),
                changed,
            )) by {
                assert(crate::key_cryptor::keys_latest_spec(self.keys_spec()).unwrap()
                    == kv);
                assert forall|i: int|
                    0 <= i < dv.len() implies {
                    let (a2, v2, ops3) = #[trigger] dv[i];
                    &&& self.st_ops_spec().dom().contains((a2, v2))
                    &&& self.decode_ops_blob(kv.key, self.st_ops_spec()[(a2, v2)]) == Some(
                        ops3,
                    )
                    &&& seq_get(ck0, a2) <= v2
                    &&& crate::storage::dense_upto(self.st_ops_spec(), a2, seq_get(ck0, a2), v2)
                } by {
                    assert(om.dom().contains((dv[i].0, dv[i].1)));
                    assert(old(self).decode_ops_blob(kv.key, om[(dv[i].0, dv[i].1)]) == Some(
                        dv[i].2,
                    ));
                }
            }
        }
        Ok(changed)
    }

    /// Reads the remote: first the state snapshots, then the op runs.
    /// On success the replica holds the composition of the two phases:
    /// every unseen snapshot merged, then every decodable dense op run
    /// applied, and the read set holding every stored snapshot name.
    pub fn read_remote(&mut self) -> (r: Result<(), Error>)
        requires
            old(self).wf(),
        ensures
            final(self).wf(),
            final(self).actor_spec() == old(self).actor_spec(),
            final(self).keys_spec() == old(self).keys_spec(),
            final(self).meta_spec() == old(self).meta_spec(),
            final(self).read_metas_spec() == old(self).read_metas_spec(),
            final(self).supported_spec() == old(self).supported_spec(),
            final(self).current_version_spec() == old(self).current_version_spec(),
            final(self).st_states_spec() == old(self).st_states_spec(),
            final(self).st_ops_spec() == old(self).st_ops_spec(),
            final(self).st_metas_spec() == old(self).st_metas_spec(),
            final(self).st_local_spec() == old(self).st_local_spec(),
            r is Ok ==> crate::key_cryptor::keys_latest_spec(old(self).keys_spec()) is Some,
            r is Ok ==> exists|midst: S::V, midck: Seq<(u128, u64)>, c1: bool, c2: bool|
                {
                    &&& final(self).states_phase_post(
                        old(self).state_spec(),
                        old(self).clock_spec(),
                        old(self).read_states_spec(),
                        midst,
                        midck,
                        final(self).read_states_spec(),
                        c1,
                    )
                    &&& final(self).ops_phase_post(
                        midst,
                        midck,
                        final(self).state_spec(),
                        final(self).clock_spec(),
                        c2,
                    )
                },
            r is Ok ==> name_set(final(self).read_states_spec()) == name_set(
                old(self).read_states_spec(),
            ).union(old(self).st_states_spec().dom()),
    {
        let c1 = match self.read_remote_states() {
            Ok(c) => c,
            Err(e) => {
                return Err(e);
            },
        };
        let ghost mid = *self;
        let ghost midst = self.state_spec();
        let ghost midck = self.clock_spec();
        let c2 = match self.read_remote_ops() {
            Ok(c) => c,
            Err(e) => {
                return Err(e);
            },
        };
        proof {
            Self::lemma_states_post_frame(
                mid,
                *self,
                old(self).state_spec(),
                old(self).clock_spec(),
                old(self).read_states_spec(),
                midst,
                midck,
                self.read_states_spec(),
                c1,
            );
            assert(self.states_phase_post(
                old(self).state_spec(),
                old(self).clock_spec(),
                old(self).read_states_spec(),
                midst,
                midck,
                self.read_states_spec(),
                c1,
            ) && self.ops_phase_post(
                midst,
                midck,
                self.state_spec(),
                self.clock_spec(),
                c2,
            ));
        }
        Ok(())
    }
}

impl<S: CmCrdt, ST: Storage, C: Cryptor, KC: KeyCryptor> Core<S, ST, C, KC> {
    /// Catches up with the remote, then collapses everything into one
    /// encrypted state snapshot: stores the new snapshot first, then
    /// removes the superseded snapshots and the folded-in ops, so the
    /// remote is sufficient to rebuild the state at every instant.
    pub fn compact(&mut self) -> (r: Result<(), Error>)
        requires
            old(self).wf(),
        ensures
            final(self).wf(),
            final(self).actor_spec() == old(self).actor_spec(),
            final(self).keys_spec() == old(self).keys_spec(),
            final(self).meta_spec() == old(self).meta_spec(),
            final(self).read_metas_spec() == old(self).read_metas_spec(),
            final(self).supported_spec() == old(self).supported_spec(),
            final(self).current_version_spec() == old(self).current_version_spec(),
            final(self).st_metas_spec() == old(self).st_metas_spec(),
            final(self).st_local_spec() == old(self).st_local_spec(),
            r is Ok ==> {
                &&& crate::key_cryptor::keys_latest_spec(final(self).keys_spec()) is Some
                &&& exists|name: Seq<char>, ct: Seq<u8>, removed: Set<Seq<char>>|
                    {
                        &&& final(self).st_states_spec().dom().contains(name)
                        &&& final(self).st_states_spec()[name] == serialized_spec(
                            CURRENT_VERSION,
                            ct,
                        )
                        &&& final(self).dec_spec(
                            crate::key_cryptor::keys_latest_spec(
                                final(self).keys_spec(),
                            ).unwrap().key,
                            ct,
                        ) == Some(
                            serialized_spec(
                                final(self).current_version_spec(),
                                <StateWrapper<S> as Codec>::enc_of(
                                    (final(self).clock_spec(), final(self).state_spec()),
                                ),
                            ),
                        )
                        &&& final(self).read_states_spec().contains(name)
                        &&& !removed.contains(name)
                        &&& final(self).st_states_spec() == old(self).st_states_spec().insert(
                            name,
                            serialized_spec(CURRENT_VERSION, ct),
                        ).remove_keys(removed)
                        &&& forall|n2: Seq<char>|
                            old(self).st_states_spec().dom().contains(n2) && n2 != name
                                ==> removed.contains(n2)
                        &&& name_set(final(self).read_states_spec()) == name_set(
                            old(self).read_states_spec(),
                        ).union(old(self).st_states_spec().dom()).difference(removed).insert(
                            name,
                        )
                    }
                &&& final(self).st_ops_spec() == old(self).st_ops_spec().remove_keys(
                    Set::new(
                        |kk: (u128, u64)| kk.1 < seq_get(final(self).clock_spec(), kk.0),
                    ),
                )
                &&& forall|a: u128, w: u64|
                    w < seq_get(final(self).clock_spec(), a)
                        ==> !(#[trigger] final(self).st_ops_spec().dom().contains((a, w)))
            },
    {
        match self.read_remote() {
            Ok(()) => {},
            Err(e) => {
                return Err(e);
            },
        }
        let ghost mid = *self;
        // snapshot the wrapper under the latest key
        if !self.data.state.is_valid() {
            return Err(Error::Serialization);
        }
        let mut clear: Vec<u8> = Vec::new();
        self.data.state.encode(&mut clear);
        if clear.len() > usize::MAX - 16 {
            return Err(Error::Serialization);
        }
        let inner = VersionBytes::new(self.current_data_version, clear);
        let framed_clear = inner.serialize();
        let key = match self.data.keys.latest_key() {
            Some(k) => k,
            None => {
                return Err(Error::Precondition);
            },
        };
        let ct = match self.cryptor.encrypt(key.key(), framed_clear.as_slice()) {
            Ok(c) => c,
            Err(e) => {
                return Err(e);
            },
        };
        if ct.len() > usize::MAX - 16 {
            return Err(Error::Serialization);
        }
        let ghost ctv = ct@;
        let outer = VersionBytes::new(CURRENT_VERSION, ct);
        // the ops folded into this snapshot: every version below each
        // actor's counter
        let dots = self.data.state.next_op_versions.entries();
        let nd = dots.len();
        let mut ops_to_remove: Vec<(u128, u64)> = Vec::new();
        let mut d: usize = 0;
        while d < nd
            invariant
                d <= nd,
                nd == dots@.len(),
                dots@ == mid.clock_spec(),
                entries_wf(mid.clock_spec()),
                forall|q: int, w2: u64|
                    #![trigger ops_to_remove@.contains(((dots@[q]).0, w2))]
                    0 <= q < d && w2 < dots@[q].1 ==> ops_to_remove@.contains(
                        (dots@[q].0, w2),
                    ),
                forall|i2: int|
                    0 <= i2 < ops_to_remove@.len() ==> seq_get(
                        mid.clock_spec(),
                        (#[trigger] ops_to_remove@[i2]).0,
                    ) > ops_to_remove@[i2].1,
            decreases nd - d,
        {
            let (a, c) = dots[d];
            proof {
                assert(dots@[d as int].1 >= 1);
                crate::crdt::vclock::lemma_seq_get_present(mid.clock_spec(), d as int);
            }
            let mut w: u64 = 0;
            while w < c
                invariant
                    w <= c,
                    d < nd,
                    nd == dots@.len(),
                    dots@ == mid.clock_spec(),
                    entries_wf(mid.clock_spec()),
                    (a, c) == dots@[d as int],
                    seq_get(mid.clock_spec(), a) == c,
                    forall|q: int, w2: u64|
                        #![trigger ops_to_remove@.contains(((dots@[q]).0, w2))]
                        0 <= q < d && w2 < dots@[q].1 ==> ops_to_remove@.contains(
                            (dots@[q].0, w2),
                        ),
                    forall|w2: u64|
                        w2 < w ==> #[trigger] ops_to_remove@.contains((a, w2)),
                    forall|i2: int|
                        0 <= i2 < ops_to_remove@.len() ==> seq_get(
                            mid.clock_spec(),
                            (#[trigger] ops_to_remove@[i2]).0,
                        ) > ops_to_remove@[i2].1,
                decreases c - w,
            {
                let ghost pre = ops_to_remove@;
                ops_to_remove.push((a, w));
                proof {
                    assert(ops_to_remove@[ops_to_remove@.len() - 1] == (a, w));
                    assert forall|q: int, w2: u64|
                        #![trigger ops_to_remove@.contains(((dots@[q]).0, w2))]
                        0 <= q < d && w2 < dots@[q].1 implies ops_to_remove@.contains(
                        (dots@[q].0, w2),
                    ) by {
                        assert(pre.contains((dots@[q].0, w2)));
                        let l = choose|l: int|
                            0 <= l < pre.len() && #[trigger] pre[l] == (dots@[q].0, w2);
                        assert(ops_to_remove@[l] == pre[l]);
                    }
                    assert forall|w2: u64|
                        w2 < w + 1 implies #[trigger] ops_to_remove@.contains((a, w2)) by {
                        if w2 < w {
                            assert(pre.contains((a, w2)));
                            let l = choose|l: int|
                                0 <= l < pre.len() && #[trigger] pre[l] == (a, w2);
                            assert(ops_to_remove@[l] == pre[l]);
                        } else {
                            assert(ops_to_remove@[ops_to_remove@.len() - 1] == (a, w2));
                        }
                    }
                }
                w = w + 1;
            }
            d = d + 1;
        }
        proof {
            // the handed-over pairs are exactly the folded prefix
            let listset = Set::new(
                |kk: (u128, u64)|
                    exists|i3: int|
                        0 <= i3 < ops_to_remove@.len() && (#[trigger] ops_to_remove@[i3])
                            == kk,
            );
            let clockset = Set::new(
                |kk: (u128, u64)| kk.1 < seq_get(mid.clock_spec(), kk.0),
            );
            assert(listset =~= clockset) by {
                assert forall|kk: (u128, u64)| listset.contains(kk) implies clockset.contains(
                    kk,
                ) by {
                    let i3 = choose|i3: int|
                        0 <= i3 < ops_to_remove@.len() && (#[trigger] ops_to_remove@[i3])
                            == kk;
                }
                assert forall|kk: (u128, u64)| clockset.contains(kk) implies listset.contains(
                    kk,
                ) by {
                    crate::crdt::vclock::lemma_seq_get_positive(mid.clock_spec(), kk.0);
                    let l = choose|l: int|
                        0 <= l < mid.clock_spec().len() && (#[trigger] mid.clock_spec()[l]).0
                            == kk.0;
                    crate::crdt::vclock::lemma_seq_get_present(mid.clock_spec(), l);
                    assert(ops_to_remove@.contains((dots@[l].0, kk.1)));
                    let i3 = choose|i3: int|
                        0 <= i3 < ops_to_remove@.len() && #[trigger] ops_to_remove@[i3] == (
                            dots@[l].0,
                            kk.1,
                        );
                }
            }
        }
        let new_name = match self.storage.store_state(outer) {
            Ok(n) => n,
            Err(e) => {
                return Err(e);
            },
        };
        // remove the superseded snapshots, never the one just stored
        let mut states_to_remove: Vec<String> = Vec::new();
        let rn0 = self.data.read_states.len();
        let mut q0: usize = 0;
        while q0 < rn0
            invariant
                q0 <= rn0,
                rn0 == self.data.read_states@.len(),
                forall|w: int|
                    0 <= w < states_to_remove@.len() ==> (#[trigger] states_to_remove@[w])@
                        != new_name@,
                forall|l: int|
                    0 <= l < q0 ==> ((#[trigger] self.data.read_states@[l])@ == new_name@
                        || crate::msgpack::views_of(states_to_remove@).contains(
                        self.data.read_states@[l]@,
                    )),
            decreases rn0 - q0,
        {
            let nm = self.data.read_states[q0].clone();
            let ghost pre_rm = states_to_remove@;
            if !nm.eq(&new_name) {
                states_to_remove.push(nm);
            }
            proof {
                assert forall|l: int|
                    0 <= l < q0 + 1 implies ((#[trigger] self.data.read_states@[l])@
                    == new_name@ || crate::msgpack::views_of(states_to_remove@).contains(
                    self.data.read_states@[l]@,
                )) by {
                    if l == q0 {
                        if self.data.read_states@[l]@ != new_name@ {
                            assert(crate::msgpack::views_of(
                                states_to_remove@,
                            )[states_to_remove@.len() - 1] == nm@);
                        }
                    } else {
                        if crate::msgpack::views_of(pre_rm).contains(
                            self.data.read_states@[l]@,
                        ) {
                            let w2 = choose|w2: int|
                                0 <= w2 < pre_rm.len() && #[trigger] crate::msgpack::views_of(
                                    pre_rm,
                                )[w2] == self.data.read_states@[l]@;
                            assert(states_to_remove@[w2] == pre_rm[w2]);
                            assert(crate::msgpack::views_of(states_to_remove@)[w2]
                                == self.data.read_states@[l]@);
                        }
                    }
                }
            }
            q0 = q0 + 1;
        }
        let ghost states_to_remove_v = states_to_remove@;
        let removed = match self.storage.remove_states(states_to_remove) {
            Ok(x) => x,
            Err(e) => {
                return Err(e);
            },
        };
        match self.storage.remove_ops(ops_to_remove) {
            Ok(()) => {},
            Err(e) => {
                return Err(e);
            },
        }
        proof {
            // the snapshot survives the removals: every removed name was
            // handed over, and the just-stored name never was
            assert(self.st_states_spec().dom().contains(new_name@)) by {
                if Set::new(
                    |n2: Seq<char>|
                        exists|i2: int|
                            0 <= i2 < removed@.len() && (#[trigger] removed@[i2])@ == n2,
                ).contains(new_name@) {
                    let i2 = choose|i2: int|
                        0 <= i2 < removed@.len() && (#[trigger] removed@[i2])@ == new_name@;
                }
            }
        }
        // keep the names that were not removed, plus the new snapshot
        let ghost removed_set = Set::new(
            |n2: Seq<char>|
                exists|i2: int| 0 <= i2 < removed@.len() && (#[trigger] removed@[i2])@ == n2,
        );
        let mut kept: Vec<String> = Vec::new();
        let rn = self.data.read_states.len();
        let mut q: usize = 0;
        while q < rn
            invariant
                q <= rn,
                rn == self.data.read_states@.len(),
                removed_set == Set::new(
                    |n2: Seq<char>|
                        exists|i2: int|
                            0 <= i2 < removed@.len() && (#[trigger] removed@[i2])@ == n2,
                ),
                forall|w: int|
                    0 <= w < kept@.len() ==> exists|l: int|
                        0 <= l < q && (#[trigger] kept@[w])@ == self.data.read_states@[l]@,
                forall|w: int, w2: int|
                    0 <= w < w2 < kept@.len() ==> (#[trigger] kept@[w])@ != (
                    #[trigger] kept@[w2])@,
                distinct_names(crate::msgpack::views_of(self.data.read_states@)),
                forall|n2: Seq<char>|
                    #![trigger crate::msgpack::views_of(kept@).contains(n2)]
                    crate::msgpack::views_of(kept@).contains(n2) <==> ((exists|l: int|
                        0 <= l < q && (#[trigger] self.data.read_states@[l])@ == n2)
                        && !removed_set.contains(n2)),
            decreases rn - q,
        {
            let nm = self.data.read_states[q].clone();
            let ghost pre_kept = kept@;
            let in_removed = contains_name(&removed, &nm);
            let in_kept = contains_name(&kept, &nm);
            proof {
                if in_removed {
                    let w2 = choose|w2: int|
                        0 <= w2 < removed@.len() && #[trigger] crate::msgpack::views_of(
                            removed@,
                        )[w2] == nm@;
                    assert(removed@[w2]@ == nm@);
                    assert(removed_set.contains(nm@));
                } else {
                    if removed_set.contains(nm@) {
                        let i2 = choose|i2: int|
                            0 <= i2 < removed@.len() && (#[trigger] removed@[i2])@ == nm@;
                        assert(crate::msgpack::views_of(removed@)[i2] == nm@);
                    }
                    assert(!removed_set.contains(nm@));
                }
            }
            if !in_removed && !in_kept {
                kept.push(nm);
                proof {
                    assert forall|w: int, w2: int|
                        0 <= w < w2 < kept@.len() implies (#[trigger] kept@[w])@ != (
                    #[trigger] kept@[w2])@ by {
                        if w2 == kept@.len() - 1 {
                            assert(kept@[w] == pre_kept[w]);
                            assert(!crate::msgpack::views_of(pre_kept).contains(kept@[w2]@));
                            assert(crate::msgpack::views_of(pre_kept)[w] == pre_kept[w]@);
                        } else {
                            assert(kept@[w] == pre_kept[w]);
                            assert(kept@[w2] == pre_kept[w2]);
                        }
                    }
                }
            }
            proof {
                assert forall|n2: Seq<char>|
                    #![trigger crate::msgpack::views_of(kept@).contains(n2)]
                    crate::msgpack::views_of(kept@).contains(n2) <==> ((exists|l: int|
                        0 <= l < q + 1 && (#[trigger] self.data.read_states@[l])@ == n2)
                        && !removed_set.contains(n2)) by {
                    if crate::msgpack::views_of(kept@).contains(n2) {
                        let w2 = choose|w2: int|
                            0 <= w2 < kept@.len() && #[trigger] crate::msgpack::views_of(
                                kept@,
                            )[w2] == n2;
                        if w2 < pre_kept.len() {
                            assert(kept@[w2] == pre_kept[w2]);
                            assert(crate::msgpack::views_of(pre_kept)[w2] == n2);
                            assert(crate::msgpack::views_of(pre_kept).contains(n2));
                        } else {
                            assert(kept@[w2]@ == nm@);
                            assert(self.data.read_states@[q as int]@ == n2);
                        }
                    }
                    if (exists|l: int|
                        0 <= l < q + 1 && (#[trigger] self.data.read_states@[l])@ == n2)
                        && !removed_set.contains(n2) {
                        let l = choose|l: int|
                            0 <= l < q + 1 && (#[trigger] self.data.read_states@[l])@ == n2;
                        if l < q {
                            assert(crate::msgpack::views_of(pre_kept).contains(n2));
                            let w2 = choose|w2: int|
                                0 <= w2 < pre_kept.len() && #[trigger] crate::msgpack::views_of(
                                    pre_kept,
                                )[w2] == n2;
                            assert(kept@[w2] == pre_kept[w2]);
                            assert(crate::msgpack::views_of(kept@)[w2] == n2);
                        } else {
                            if !in_removed && !in_kept {
                                assert(crate::msgpack::views_of(kept@)[kept@.len() - 1]
                                    == nm@);
                            } else {
                                assert(in_kept);
                                assert(crate::msgpack::views_of(pre_kept).contains(nm@));
                                let w2 = choose|w2: int|
                                    0 <= w2 < pre_kept.len()
                                        && #[trigger] crate::msgpack::views_of(pre_kept)[w2]
                                        == nm@;
                                assert(kept@[w2] == pre_kept[w2]);
                                assert(crate::msgpack::views_of(kept@)[w2] == nm@);
                            }
                        }
                    }
                }
            }
            q = q + 1;
        }
        let ghost mid_reads = crate::msgpack::views_of(self.data.read_states@);
        let ghost kept_set = crate::msgpack::views_of(kept@).to_set();
        proof {
            // what survives: the names read at snapshot time, less the
            // removed ones
            assert(kept_set =~= name_set(mid_reads).difference(removed_set)) by {
                assert forall|n2: Seq<char>|
                    kept_set.contains(n2) implies name_set(mid_reads).difference(
                    removed_set,
                ).contains(n2) by {
                    assert(crate::msgpack::views_of(kept@).contains(n2));
                    let l = choose|l: int|
                        0 <= l < rn && (#[trigger] self.data.read_states@[l])@ == n2;
                    assert(mid_reads[l] == n2);
                }
                assert forall|n2: Seq<char>|
                    name_set(mid_reads).difference(removed_set).contains(n2) implies
                    kept_set.contains(n2) by {
                    let l = choose|l: int| 0 <= l < mid_reads.len() && mid_reads[l] == n2;
                    assert(self.data.read_states@[l]@ == n2);
                    assert(crate::msgpack::views_of(kept@).contains(n2));
                }
            }
        }
        if !contains_name(&kept, &new_name) {
            let ghost pre_kept = kept@;
            kept.push(new_name);
            proof {
                assert forall|w: int, w2: int|
                    0 <= w < w2 < kept@.len() implies (#[trigger] kept@[w])@ != (
                #[trigger] kept@[w2])@ by {
                    if w2 == kept@.len() - 1 {
                        assert(kept@[w] == pre_kept[w]);
                        assert(!crate::msgpack::views_of(pre_kept).contains(kept@[w2]@));
                        assert(crate::msgpack::views_of(pre_kept)[w] == pre_kept[w]@);
                    } else {
                        assert(kept@[w] == pre_kept[w]);
                        assert(kept@[w2] == pre_kept[w2]);
                    }
                }
                assert(crate::msgpack::views_of(kept@).to_set() =~= kept_set.insert(
                    new_name@,
                )) by {
                    assert forall|n2: Seq<char>|
                        crate::msgpack::views_of(kept@).to_set().contains(n2) implies
                        kept_set.insert(new_name@).contains(n2) by {
                        let w2 = choose|w2: int|
                            0 <= w2 < kept@.len() && #[trigger] crate::msgpack::views_of(
                                kept@,
                            )[w2] == n2;
                        if w2 < pre_kept.len() {
                            assert(kept@[w2] == pre_kept[w2]);
                            assert(crate::msgpack::views_of(pre_kept)[w2] == n2);
                        }
                    }
                    assert forall|n2: Seq<char>|
                        kept_set.insert(new_name@).contains(n2) implies crate::msgpack::views_of(
                        kept@,
                    ).to_set().contains(n2) by {
                        if n2 == new_name@ {
                            assert(crate::msgpack::views_of(kept@)[kept@.len() - 1]
                                == new_name@);
                        } else {
                            let w2 = choose|w2: int|
                                0 <= w2 < pre_kept.len()
                                    && #[trigger] crate::msgpack::views_of(pre_kept)[w2] == n2;
                            assert(kept@[w2] == pre_kept[w2]);
                            assert(crate::msgpack::views_of(kept@)[w2] == n2);
                        }
                    }
                }
            }
            self.data.read_states = kept;
        } else {
            proof {
                assert(crate::msgpack::views_of(kept@).contains(new_name@));
                assert(crate::msgpack::views_of(kept@).to_set() =~= kept_set.insert(
                    new_name@,
                )) by {
                    assert(kept_set.contains(new_name@));
                }
            }
            self.data.read_states = kept;
        }
        proof {
            assert(self.read_states_spec().contains(new_name@)) by {
                assert(crate::msgpack::views_of(self.data.read_states@).to_set().contains(
                    new_name@,
                ));
            }
            lemma_compact_post::<S, ST, C, KC>(*self, mid, new_name@, ctv);
            assert(self.st_ops_spec() == old(self).st_ops_spec().remove_keys(
                Set::new(|kk: (u128, u64)| kk.1 < seq_get(self.clock_spec(), kk.0)),
            ));
            assert forall|a: u128, w: u64|
                w < seq_get(self.clock_spec(), a) implies !(
            #[trigger] self.st_ops_spec().dom().contains((a, w))) by {
                assert(Set::new(
                    |kk: (u128, u64)| kk.1 < seq_get(self.clock_spec(), kk.0),
                ).contains((a, w)));
            }
            // every superseded snapshot was handed over and removed
            assert forall|n2: Seq<char>|
                old(self).st_states_spec().dom().contains(n2) && n2 != new_name@ implies
                removed_set.contains(n2) by {
                assert(name_set(mid_reads).contains(n2)) by {
                    assert(name_set(mid.read_states_spec()).contains(n2));
                }
                let l = choose|l: int| 0 <= l < mid_reads.len() && mid_reads[l] == n2;
                assert(crate::msgpack::views_of(states_to_remove_v).contains(n2));
                let w2 = choose|w2: int|
                    0 <= w2 < states_to_remove_v.len() && #[trigger] crate::msgpack::views_of(
                        states_to_remove_v,
                    )[w2] == n2;
                assert(states_to_remove_v[w2]@ == n2);
                let i2 = choose|i2: int|
                    0 <= i2 < removed@.len() && (#[trigger] removed@[i2])@
                        == states_to_remove_v[w2]@;
                assert(removed_set.contains(n2));
            }
            // the store holds the new snapshot and nothing superseded
            assert(self.st_states_spec() =~= old(self).st_states_spec().insert(
                new_name@,
                serialized_spec(CURRENT_VERSION, ctv),
            ).remove_keys(removed_set));
            // the just-stored snapshot was never handed over
            assert(!removed_set.contains(new_name@)) by {
                if removed_set.contains(new_name@) {
                    let i2 = choose|i2: int|
                        0 <= i2 < removed@.len() && (#[trigger] removed@[i2])@ == new_name@;
                }
            }
            // the read set after compaction
            assert(name_set(self.read_states_spec()) =~= name_set(
                old(self).read_states_spec(),
            ).union(old(self).st_states_spec().dom()).difference(removed_set).insert(
                new_name@,
            )) by {
                assert(name_set(self.read_states_spec()) == crate::msgpack::views_of(
                    self.data.read_states@,
                ).to_set());
                assert(name_set(mid_reads) =~= name_set(old(self).read_states_spec()).union(
                    old(self).st_states_spec().dom(),
                ));
            }
        }
        Ok(())
    }
}

/// The snapshot stored by a compaction is in the store under its name,
/// decrypts to the final wrapper, and every folded-in dot is gone.
proof fn lemma_compact_post<S: CmCrdt, ST: Storage, C: Cryptor, KC: KeyCryptor>(
    cur: Core<S, ST, C, KC>,
    mid: Core<S, ST, C, KC>,
    name: Seq<char>,
    ct: Seq<u8>,
)
    requires
        cur.st_states_spec().dom().contains(name),
        cur.st_states_spec()[name] == serialized_spec(CURRENT_VERSION, ct),
        cur.dec_spec(
            crate::key_cryptor::keys_latest_spec(cur.keys_spec()).unwrap().key,
            ct,
        ) == Some(
            serialized_spec(
                cur.current_version_spec(),
                <StateWrapper<S> as Codec>::enc_of((cur.clock_spec(), cur.state_spec())),
            ),
        ),
        cur.read_states_spec().contains(name),
    ensures
        exists|name2: Seq<char>, ct2: Seq<u8>|
            {
                &&& cur.st_states_spec().dom().contains(name2)
                &&& cur.st_states_spec()[name2] == serialized_spec(CURRENT_VERSION, ct2)
                &&& cur.dec_spec(
                    crate::key_cryptor::keys_latest_spec(cur.keys_spec()).unwrap().key,
                    ct2,
                ) == Some(
                    serialized_spec(
                        cur.current_version_spec(),
                        <StateWrapper<S> as Codec>::enc_of((cur.clock_spec(), cur.state_spec())),
                    ),
                )
                &&& cur.read_states_spec().contains(name2)
            },
{
}

} // verus!
