//! Small shared utilities: the versioned framing types, a trivial CRDT, a
//! guarded mutable cell, and the codecs that carry a key registry through
//! a framed multi-value register.

pub mod version_bytes;

use vstd::prelude::*;

use crate::crdt::mvreg::{join_get, mvreg_applied, mvreg_wf, MVReg};
use crate::crdt::vclock::{entries_wf, seq_get};
use crate::crdt::{CmCrdt, CvCrdt, DeepClone, ReadCtx};
use crate::error::Error;
use crate::key_cryptor::{kget, kunion_get, Keys, KeysView};
use crate::msgpack::Codec;
use crate::utils::version_bytes::{sorted_ascending, VersionBytes, VersionBytesView};

verus! {

/// Relies on `uuid::Uuid::new_v4` for a freshly generated random
/// identifier; nothing is promised of the value.
#[verifier::external_body]
pub fn fresh_uuid() -> u128 {
    uuid::Uuid::new_v4().as_u128()
}

/// A CRDT with no state: every op and every merge is a no-op.
#[derive(Debug, Clone, PartialEq, Eq, Structural)]
pub struct EmptyCrdt;

impl View for EmptyCrdt {
    type V = ();

    open spec fn view(&self) -> () {
        ()
    }
}

/// The unit op is carried as message-pack `nil`.
impl Codec for () {
    open spec fn enc_of(m: ()) -> Seq<u8> {
        seq![0xc0u8]
    }

    open spec fn dec_of(s: Seq<u8>, pos: int) -> Option<((), int)> {
        match crate::msgpack::dec_expect_spec(s, pos, seq![0xc0u8]) {
            Some(end) => Some(((), end)),
            None => None,
        }
    }

    open spec fn valid_of(m: ()) -> bool {
        true
    }

    proof fn lemma_enc_len(m: ()) {
    }

    proof fn lemma_dec_progress(s: Seq<u8>, pos: int) {
    }

    proof fn lemma_enc_dec(m: (), s: Seq<u8>, pos: int) {
        crate::msgpack::lemma_enc_dec_expect(s, pos, seq![0xc0u8]);
    }

    fn encode(&self, out: &mut Vec<u8>) {
        out.push(0xc0);
        proof {
            assert(out@ =~= old(out)@ + Self::enc_of(self@));
        }
    }

    fn decode(s: &[u8], pos: usize) -> (r: Result<(Self, usize), Error>) {
        let end = match crate::msgpack::dec_byte(s, pos, 0xc0) {
            Ok(p) => p,
            Err(e) => {
                return Err(e);
            },
        };
        Ok(((), end))
    }

    fn is_valid(&self) -> (r: bool) {
        true
    }
}

/// The empty CRDT is carried as an empty `fixarray`.
impl Codec for EmptyCrdt {
    open spec fn enc_of(m: ()) -> Seq<u8> {
        crate::msgpack::enc_fixarray_header_spec(0)
    }

    open spec fn dec_of(s: Seq<u8>, pos: int) -> Option<((), int)> {
        match crate::msgpack::dec_expect_spec(s, pos, crate::msgpack::enc_fixarray_header_spec(0)) {
            Some(end) => Some(((), end)),
            None => None,
        }
    }

    open spec fn valid_of(m: ()) -> bool {
        true
    }

    proof fn lemma_enc_len(m: ()) {
    }

    proof fn lemma_dec_progress(s: Seq<u8>, pos: int) {
    }

    proof fn lemma_enc_dec(m: (), s: Seq<u8>, pos: int) {
        crate::msgpack::lemma_enc_dec_expect(s, pos, crate::msgpack::enc_fixarray_header_spec(0));
    }

    fn encode(&self, out: &mut Vec<u8>) {
        out.push(0x90);
        proof {
            assert(out@ =~= old(out)@ + Self::enc_of(self@));
        }
    }

    fn decode(s: &[u8], pos: usize) -> (r: Result<(Self, usize), Error>) {
        let end = match crate::msgpack::dec_byte(s, pos, 0x90) {
            Ok(p) => p,
            Err(e) => {
                proof {
                    assert(crate::msgpack::enc_fixarray_header_spec(0) =~= seq![0x90u8]);
                }
                return Err(e);
            },
        };
        proof {
            assert(crate::msgpack::enc_fixarray_header_spec(0) =~= seq![0x90u8]);
        }
        Ok((EmptyCrdt, end))
    }

    fn is_valid(&self) -> (r: bool) {
        true
    }
}

impl CvCrdt for EmptyCrdt {
    open spec fn empty_of() -> () {
        ()
    }

    open spec fn merged_of(a: (), b: ()) -> () {
        ()
    }

    open spec fn inv_of(s: ()) -> bool {
        true
    }

    proof fn lemma_valid_state_inv(m: ()) {
    }

    fn new_empty() -> (r: Self) {
        EmptyCrdt
    }

    fn merge(&mut self, other: EmptyCrdt) {
    }
}

impl CmCrdt for EmptyCrdt {
    type Op = ();

    open spec fn applied_of(s: (), op: ()) -> () {
        ()
    }

    open spec fn op_inv_of(op: ()) -> bool {
        true
    }

    proof fn lemma_valid_op_inv(m: ()) {
    }

    fn apply(&mut self, op: ()) {
    }
}

/// One register value folded into a decoded registry: the version must be
/// supported, the payload must decode, and the registry merges in.
pub open spec fn keys_fold_step(
    val: (Seq<(u128, u64)>, VersionBytesView),
    supported: Seq<u128>,
    acc0: KeysView,
    acc1: KeysView,
) -> bool {
    &&& supported.contains(val.1.version)
    &&& exists|kv: KeysView|
        #![trigger kget(kv.keys, 0)]
        {
            &&& <Keys as Codec>::dec_of(val.1.content, 0) matches Some(p) && p.0 == kv
            &&& acc1.latest == crate::crdt::mvreg::mvreg_merged(acc0.latest, kv.latest)
            &&& crate::key_cryptor::keys_wf(acc1.keys)
            &&& forall|id: u128|
                #![trigger kget(acc1.keys, id)]
                kget(acc1.keys, id) == kunion_get(acc0.keys, kv.keys, id)
        }
}

/// The register values folded in, first to last.
pub open spec fn keys_fold_run(
    vals: Seq<(Seq<(u128, u64)>, VersionBytesView)>,
    supported: Seq<u128>,
    acc0: KeysView,
    acc1: KeysView,
) -> bool
    decreases vals.len(),
{
    if vals.len() == 0 {
        acc1 == acc0
    } else {
        exists|accm: KeysView|
            #![trigger keys_fold_step(vals.last(), supported, accm, acc1)]
            keys_fold_run(vals.drop_last(), supported, acc0, accm) && keys_fold_step(
                vals.last(),
                supported,
                accm,
                acc1,
            )
    }
}

/// Decodes the key registry a framed multi-value register carries: every
/// current value must carry a supported version and decode, and the
/// decoded registries merge into one, returned with the register's causal
/// context.
pub fn decode_version_bytes_mvreg(reg: &MVReg<VersionBytes>, supported_versions: &[u128]) -> (r:
    Result<ReadCtx<Keys>, Error>)
    requires
        mvreg_wf(reg@),
        sorted_ascending(supported_versions@),
    ensures
        r matches Ok(ctx) ==> {
            &&& ctx.val.wf()
            &&& ctx.add_clock.wf()
            &&& ctx.rm_clock.wf()
            &&& forall|x: u128|
                #![trigger ctx.add_clock.get_spec(x)]
                ctx.add_clock.get_spec(x) == join_get(reg@, x)
            &&& keys_fold_run(
                reg@,
                supported_versions@,
                crate::key_cryptor::empty_keys_view(),
                ctx.val@,
            )
        },
        r is Ok <==> (forall|i: int|
            0 <= i < reg@.len() ==> supported_versions@.contains((#[trigger] reg@[i]).1.version)
                && <Keys as Codec>::dec_of(reg@[i].1.content, 0) is Some),
        r matches Err(e) ==> e is VersionMismatch || e is Serialization,
        r matches Err(e) ==> (e matches Error::VersionMismatch { expected, got }
            ==> expected@ == supported_versions@ && (exists|i: int|
            0 <= i < reg@.len() && (#[trigger] reg@[i]).1.version == got
                && !supported_versions@.contains(got))),
{
    let ctx = reg.read_ctx();
    let mut acc = Keys::default();
    proof {
        assert(acc@ == crate::key_cryptor::empty_keys_view()) by {
            assert(acc@.latest =~= crate::key_cryptor::empty_keys_view().latest);
            assert(acc@.keys =~= crate::key_cryptor::empty_keys_view().keys);
        }
    }
    let vals = reg.vals();
    let n = vals.len();
    let mut i: usize = 0;
    while i < n
        invariant
            i <= n,
            n == vals@.len(),
            crate::msgpack::views_of(vals@) == reg@,
            mvreg_wf(reg@),
            sorted_ascending(supported_versions@),
            acc.wf(),
            forall|j: int|
                0 <= j < i ==> supported_versions@.contains((#[trigger] reg@[j]).1.version)
                    && <Keys as Codec>::dec_of(reg@[j].1.content, 0) is Some,
            keys_fold_run(
                reg@.take(i as int),
                supported_versions@,
                crate::key_cryptor::empty_keys_view(),
                acc@,
            ),
        decreases n - i,
    {
        let vb = &vals[i].1;
        proof {
            assert(reg@[i as int] == vals@[i as int]@);
        }
        match vb.ensure_versions(supported_versions) {
            Ok(()) => {},
            Err(ve) => {
                proof {
                    assert(reg@[i as int].1.version == vb@.version);
                    assert(!supported_versions@.contains(reg@[i as int].1.version));
                }
                return Err(Error::VersionMismatch { expected: ve.expected, got: ve.got });
            },
        }
        let (ks, _) = match <Keys as Codec>::decode(vb.as_ref(), 0) {
            Ok(x) => x,
            Err(e) => {
                proof {
                    assert(reg@[i as int].1.content == vb@.content);
                    assert(<Keys as Codec>::dec_of(reg@[i as int].1.content, 0) is None);
                }
                return Err(e);
            },
        };
        proof {
            <Keys as Codec>::lemma_dec_progress(vb@.content, 0);
        }
        let ghost accm = acc@;
        let ghost kvv = ks@;
        acc.merge(ks);
        proof {
            assert(keys_fold_step(reg@[i as int], supported_versions@, accm, acc@)) by {
                assert(<Keys as Codec>::dec_of(reg@[i as int].1.content, 0) matches Some(p)
                    && p.0 == kvv);
                assert(kget(kvv.keys, 0) == kget(kvv.keys, 0));
            }
            assert(reg@.take(i + 1).drop_last() =~= reg@.take(i as int));
            assert(reg@.take(i + 1).last() == reg@[i as int]);
        }
        i = i + 1;
    }
    proof {
        assert(reg@.take(n as int) =~= reg@);
    }
    Ok(ctx.with_val(acc))
}

/// Writes the registry into the framed register: serializes it, frames it
/// with `version`, and applies a write under a context derived from the
/// supplied read context with `actor`.
pub fn encode_version_bytes_mvreg(
    reg: &mut MVReg<VersionBytes>,
    val: ReadCtx<Keys>,
    actor: u128,
    version: u128,
) -> (r: Result<(), Error>)
    requires
        mvreg_wf(old(reg)@),
        val.add_clock.wf(),
    ensures
        r is Ok <==> (<Keys as Codec>::valid_of(val.val@) && val.add_clock.get_spec(actor)
            < u64::MAX && <Keys as Codec>::enc_of(val.val@).len() + 16 <= usize::MAX),
        r is Ok ==> mvreg_wf(final(reg)@),
        r is Err ==> *final(reg) == *old(reg),
        r is Ok ==> exists|cw: Seq<(u128, u64)>|
            #![trigger seq_get(cw, actor)]
            {
                &&& final(reg)@ == mvreg_applied(
                    old(reg)@,
                    (
                        cw,
                        VersionBytesView {
                            version,
                            content: <Keys as Codec>::enc_of(val.val@),
                        },
                    ),
                )
                &&& entries_wf(cw)
                &&& seq_get(cw, actor) == val.add_clock.get_spec(actor) + 1
                &&& forall|x: u128|
                    x != actor ==> #[trigger] seq_get(cw, x) == val.add_clock.get_spec(x)
            },
{
    if !val.val.is_valid() {
        return Err(Error::Serialization);
    }
    if val.add_clock.get(actor) == u64::MAX {
        return Err(Error::Integrity);
    }
    let mut buf: Vec<u8> = Vec::new();
    val.val.encode(&mut buf);
    if buf.len() > usize::MAX - 16 {
        return Err(Error::Serialization);
    }
    let vb = VersionBytes::new(version, buf);
    let write_ctx = val.derive_add_ctx(actor);
    let ghost cw = write_ctx.clock@;
    let op = reg.write(vb, write_ctx);
    proof {
        assert(crate::crdt::vclock::entries_wf(op@.0));
    }
    crate::crdt::CmCrdt::apply(reg, op);
    proof {
        assert(seq_get(cw, actor) == val.add_clock.get_spec(actor) + 1);
        assert forall|x: u128|
            x != actor implies #[trigger] seq_get(cw, x) == val.add_clock.get_spec(x) by {}
    }
    Ok(())
}

/// A guarded mutable cell: the value is handed to `f` whole and put back,
/// so nothing else can observe it mid-update.
#[derive(Debug)]
pub struct LockBox<T> {
    inner: Option<T>,
}

impl<T> LockBox<T> {
    /// The box always holds its value between calls.
    pub closed spec fn wf(&self) -> bool {
        self.inner is Some
    }

    /// The held value.
    pub closed spec fn value(&self) -> T {
        self.inner.unwrap()
    }

    pub fn new(val: T) -> (r: LockBox<T>)
        ensures
            r.wf(),
            r.value() == val,
    {
        LockBox { inner: Some(val) }
    }

    /// Applies `f` to the held value, storing the value `f` hands back.
    pub fn with<F, R>(&mut self, f: F) -> (r: R) where F: FnOnce(T) -> (T, R)
        requires
            old(self).wf(),
            call_requires(f, (old(self).value(),)),
        ensures
            final(self).wf(),
            call_ensures(f, (old(self).value(),), (final(self).value(), r)),
    {
        let v = self.inner.take().unwrap();
        let (v2, r) = f(v);
        self.inner = Some(v2);
        r
    }

    /// Like `with`, for updates that can fail: the value `f` hands back is
    /// stored either way, and `f`'s verdict is returned.
    pub fn try_with<F, R>(&mut self, f: F) -> (r: Result<R, Error>) where F: FnOnce(T) -> (
        T,
        Result<R, Error>,
    )
        requires
            old(self).wf(),
            call_requires(f, (old(self).value(),)),
        ensures
            final(self).wf(),
            call_ensures(f, (old(self).value(),), (final(self).value(), r)),
    {
        let v = self.inner.take().unwrap();
        let (v2, r) = f(v);
        self.inner = Some(v2);
        r
    }
}

} // verus!
