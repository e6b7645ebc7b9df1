//! The blob store capability interface the replica engine consumes.
//!
//! Four blob classes under stable names: the single local-meta slot, the
//! remote-meta set, the state-snapshot set, and the per-actor op log.
//! Every stored blob is the serialized framing — 16 version bytes then
//! the payload — verbatim.

use vstd::prelude::*;

use tiny_keccak::Hasher;

use crate::crdt::mvreg::MVReg;
use crate::error::Error;
use crate::utils::version_bytes::{serialized_spec, VersionBytes};

verus! {

/// The serialized framed bytes of `vb`.
pub open spec fn framed(vb: crate::utils::version_bytes::VersionBytesView) -> Seq<u8> {
    serialized_spec(vb.version, vb.content)
}

/// What SHA3-256 digests `data` to: a function of the input alone.
pub uninterp spec fn sha3_256_of(data: Seq<u8>) -> Seq<u8>;

/// What unpadded base-32 encodes `data` to: a function of the input
/// alone.
pub uninterp spec fn base32_nopad_of(data: Seq<u8>) -> Seq<char>;

/// Relies on `tiny_keccak`'s `Sha3::v256` digest: 32 bytes, a function of
/// the input alone.
#[verifier::external_body]
fn sha3_256(data: &[u8]) -> (r: Vec<u8>)
    ensures
        r@ == sha3_256_of(data@),
        r@.len() == 32,
{
    let mut digest = tiny_keccak::Sha3::v256();
    digest.update(data);
    let mut out = [0u8; 32];
    digest.finalize(&mut out);
    out.to_vec()
}

/// Relies on `data_encoding::BASE32_NOPAD.encode`: a function of the
/// input alone, one character per five bits.  The encoder asserts its
/// length arithmetic stays in range, so huge inputs are left out.
#[verifier::external_body]
fn base32_nopad(data: &[u8]) -> (r: String)
    requires
        data@.len() <= usize::MAX / 512,
    ensures
        r@ == base32_nopad_of(data@),
        r@.len() == (data@.len() * 8 + 4) / 5,
{
    data_encoding::BASE32_NOPAD.encode(data)
}

/// The content-addressed name of serialized bytes: the base-32 encoding
/// of their SHA3-256 digest.
pub open spec fn content_name_of(bytes: Seq<u8>) -> Seq<char> {
    base32_nopad_of(sha3_256_of(bytes))
}

/// The content-addressed name of a framed blob, for drivers that store
/// meta and state blobs under the digest of their serialized bytes.
pub fn content_name(data: &VersionBytes) -> (r: String)
    requires
        data.wf(),
    ensures
        r@ == content_name_of(framed(data@)),
        r@.len() == 52,
{
    let bytes = data.serialize();
    let digest = sha3_256(bytes.as_slice());
    base32_nopad(digest.as_slice())
}

/// The op log holds a dense run for `a` from `fv` through `v`.
pub open spec fn dense_upto(m: Map<(u128, u64), Seq<u8>>, a: u128, fv: u64, v: u64) -> bool {
    fv <= v && forall|w: u64| fv <= w <= v ==> #[trigger] m.dom().contains((a, w))
}

/// A blob store.  The four model functions are the store's abstract
/// contents; every operation says how it reads or changes them.  Store
/// operations are durable before they return; missing blobs on list and
/// remove are not errors; op slots are never overwritten.  Failures are
/// storage or framing failures — never version diagnostics, which belong
/// to the layers above.
pub trait Storage: Sized {
    /// The single local-meta slot, as serialized bytes.  The default
    /// leaves the model unconstrained, for drivers outside the verifier's
    /// reach.
    open spec fn local_meta_model(&self) -> Option<Seq<u8>> {
        vstd::pervasive::arbitrary()
    }

    /// The remote-meta blobs: name to serialized bytes.
    open spec fn metas_model(&self) -> Map<Seq<char>, Seq<u8>> {
        vstd::pervasive::arbitrary()
    }

    /// The state snapshots: name to serialized bytes.
    open spec fn states_model(&self) -> Map<Seq<char>, Seq<u8>> {
        vstd::pervasive::arbitrary()
    }

    /// The op log: `(actor, version)` to serialized bytes.
    open spec fn ops_model(&self) -> Map<(u128, u64), Seq<u8>> {
        vstd::pervasive::arbitrary()
    }

    /// The replica's identity, published once at open.
    fn set_info(&mut self, info: &crate::Info) -> (r: Result<(), Error>)
        ensures
            final(self).local_meta_model() == old(self).local_meta_model(),
            final(self).metas_model() == old(self).metas_model(),
            final(self).states_model() == old(self).states_model(),
            final(self).ops_model() == old(self).ops_model(),
    ;

    /// The merged remote-meta register for this capability, pushed by the
    /// engine whenever it changes; `None` at bootstrap.  Reconfigures the
    /// capability, never the stored blobs.
    fn set_remote_meta(&mut self, data: Option<&MVReg<VersionBytes>>) -> (r: Result<(), Error>)
        ensures
            final(self).local_meta_model() == old(self).local_meta_model(),
            final(self).metas_model() == old(self).metas_model(),
            final(self).states_model() == old(self).states_model(),
            final(self).ops_model() == old(self).ops_model(),
    ;

    fn load_local_meta(&self) -> (r: Result<Option<VersionBytes>, Error>)
        ensures
            r matches Ok(Some(vb)) ==> self.local_meta_model() == Some(framed(vb@)) && vb.wf(),
            r matches Ok(None) ==> self.local_meta_model() is None,
            r matches Err(e) ==> e is StorageFailure || e is FramingInvalid,
    ;

    fn store_local_meta(&mut self, data: VersionBytes) -> (r: Result<(), Error>)
        requires
            data.wf(),
        ensures
            r is Ok ==> final(self).local_meta_model() == Some(framed(data@)),
            r is Err ==> final(self).local_meta_model() == old(self).local_meta_model(),
            final(self).metas_model() == old(self).metas_model(),
            final(self).states_model() == old(self).states_model(),
            final(self).ops_model() == old(self).ops_model(),
            r matches Err(e) ==> e is StorageFailure || e is FramingInvalid
    ;

    fn list_remote_meta_names(&self) -> (r: Result<Vec<String>, Error>)
        ensures
            r matches Ok(names) ==> {
                &&& forall|i: int|
                    0 <= i < names@.len() ==> self.metas_model().dom().contains(
                        (#[trigger] names@[i])@,
                    )
                &&& forall|n: Seq<char>|
                    self.metas_model().dom().contains(n) ==> exists|i: int|
                        0 <= i < names@.len() && (#[trigger] names@[i])@ == n
                &&& forall|i: int, j: int|
                    0 <= i < j < names@.len() ==> (#[trigger] names@[i])@ != (
                    #[trigger] names@[j])@
            },
            r matches Err(e) ==> e is StorageFailure || e is FramingInvalid
    ;

    fn load_remote_metas(&self, names: Vec<String>) -> (r: Result<
        Vec<(String, VersionBytes)>,
        Error,
    >)
        requires
            forall|i: int|
                0 <= i < names@.len() ==> self.metas_model().dom().contains(
                    (#[trigger] names@[i])@,
                ),
        ensures
            r matches Ok(items) ==> items@.len() == names@.len() && forall|i: int|
                0 <= i < items@.len() ==> (#[trigger] items@[i]).0@ == names@[i]@ && items@[i].1.wf()
                    && framed(items@[i].1@) == self.metas_model()[names@[i]@],
            r matches Err(e) ==> e is StorageFailure || e is FramingInvalid
    ;

    fn store_remote_meta(&mut self, data: VersionBytes) -> (r: Result<String, Error>)
        requires
            data.wf(),
        ensures
            r matches Ok(name) ==> name@ == content_name_of(framed(data@))
                && final(self).metas_model() == old(self).metas_model().insert(
                name@,
                framed(data@),
            ),
            r is Err ==> final(self).metas_model() == old(self).metas_model(),
            final(self).local_meta_model() == old(self).local_meta_model(),
            final(self).states_model() == old(self).states_model(),
            final(self).ops_model() == old(self).ops_model(),
            r matches Err(e) ==> e is StorageFailure || e is FramingInvalid
    ;

    fn remove_remote_metas(&mut self, names: Vec<String>) -> (r: Result<(), Error>)
        ensures
            r is Ok ==> final(self).metas_model() == old(self).metas_model().remove_keys(
                Set::new(
                    |n: Seq<char>|
                        exists|i: int| 0 <= i < names@.len() && (#[trigger] names@[i])@ == n,
                ),
            ),
            final(self).local_meta_model() == old(self).local_meta_model(),
            final(self).states_model() == old(self).states_model(),
            final(self).ops_model() == old(self).ops_model(),
            r matches Err(e) ==> e is StorageFailure || e is FramingInvalid
    ;

    fn list_state_names(&self) -> (r: Result<Vec<String>, Error>)
        ensures
            r matches Ok(names) ==> {
                &&& forall|i: int|
                    0 <= i < names@.len() ==> self.states_model().dom().contains(
                        (#[trigger] names@[i])@,
                    )
                &&& forall|n: Seq<char>|
                    self.states_model().dom().contains(n) ==> exists|i: int|
                        0 <= i < names@.len() && (#[trigger] names@[i])@ == n
                &&& forall|i: int, j: int|
                    0 <= i < j < names@.len() ==> (#[trigger] names@[i])@ != (
                    #[trigger] names@[j])@
            },
            r matches Err(e) ==> e is StorageFailure || e is FramingInvalid
    ;

    fn load_states(&self, names: Vec<String>) -> (r: Result<Vec<(String, VersionBytes)>, Error>)
        requires
            forall|i: int|
                0 <= i < names@.len() ==> self.states_model().dom().contains(
                    (#[trigger] names@[i])@,
                ),
        ensures
            r matches Ok(items) ==> items@.len() == names@.len() && forall|i: int|
                0 <= i < items@.len() ==> (#[trigger] items@[i]).0@ == names@[i]@ && items@[i].1.wf()
                    && framed(items@[i].1@) == self.states_model()[names@[i]@],
            r matches Err(e) ==> e is StorageFailure || e is FramingInvalid
    ;

    fn store_state(&mut self, data: VersionBytes) -> (r: Result<String, Error>)
        requires
            data.wf(),
        ensures
            r matches Ok(name) ==> name@ == content_name_of(framed(data@))
                && final(self).states_model() == old(self).states_model().insert(
                name@,
                framed(data@),
            ),
            r is Err ==> final(self).states_model() == old(self).states_model(),
            final(self).local_meta_model() == old(self).local_meta_model(),
            final(self).metas_model() == old(self).metas_model(),
            final(self).ops_model() == old(self).ops_model(),
            r matches Err(e) ==> e is StorageFailure || e is FramingInvalid
    ;

    fn remove_states(&mut self, names: Vec<String>) -> (r: Result<Vec<String>, Error>)
        ensures
            r matches Ok(removed) ==> {
                &&& final(self).states_model() == old(self).states_model().remove_keys(
                    Set::new(
                        |n: Seq<char>|
                            exists|i: int|
                                0 <= i < removed@.len() && (#[trigger] removed@[i])@ == n,
                    ),
                )
                &&& forall|i: int|
                    0 <= i < removed@.len() ==> old(self).states_model().dom().contains(
                        (#[trigger] removed@[i])@,
                    ) && exists|j: int|
                        0 <= j < names@.len() && removed@[i]@ == (#[trigger] names@[j])@
                &&& forall|j: int|
                    0 <= j < names@.len() && old(self).states_model().dom().contains(
                        (#[trigger] names@[j])@,
                    ) ==> exists|i: int|
                        0 <= i < removed@.len() && (#[trigger] removed@[i])@ == names@[j]@
            },
            r is Err ==> final(self).states_model() == old(self).states_model(),
            final(self).local_meta_model() == old(self).local_meta_model(),
            final(self).metas_model() == old(self).metas_model(),
            final(self).ops_model() == old(self).ops_model(),
            r matches Err(e) ==> e is StorageFailure || e is FramingInvalid
    ;

    fn list_op_actors(&self) -> (r: Result<Vec<u128>, Error>)
        ensures
            r matches Ok(actors) ==> {
                &&& forall|a: u128, v: u64|
                    self.ops_model().dom().contains((a, v)) ==> actors@.contains(a)
                &&& forall|i: int, j: int|
                    0 <= i < j < actors@.len() ==> (#[trigger] actors@[i]) != (
                    #[trigger] actors@[j])
            },
            r matches Err(e) ==> e is StorageFailure || e is FramingInvalid
    ;

    /// Loads, for each `(actor, first_version)` query, the dense run of
    /// ops from `first_version` upward until the first gap, ordered by
    /// version within each actor.
    fn load_ops(&self, actor_first_versions: Vec<(u128, u64)>) -> (r: Result<
        Vec<(u128, u64, VersionBytes)>,
        Error,
    >)
        requires
            forall|i: int, j: int|
                0 <= i < j < actor_first_versions@.len() ==> (#[trigger] actor_first_versions@[i]).0
                    != (#[trigger] actor_first_versions@[j]).0,
        ensures
            r matches Ok(items) ==> {
                &&& forall|i: int|
                    0 <= i < items@.len() ==> {
                        let (a, v, vb) = #[trigger] items@[i];
                        &&& self.ops_model().dom().contains((a, v))
                        &&& framed(vb@) == self.ops_model()[(a, v)]
                        &&& vb.wf()
                        &&& exists|q: int|
                            0 <= q < actor_first_versions@.len() && (
                            #[trigger] actor_first_versions@[q]).0 == a
                                && actor_first_versions@[q].1 <= v && dense_upto(
                                self.ops_model(),
                                a,
                                actor_first_versions@[q].1,
                                v,
                            )
                    }
                &&& forall|q: int, v: u64|
                    0 <= q < actor_first_versions@.len() && #[trigger] dense_upto(
                        self.ops_model(),
                        actor_first_versions@[q].0,
                        actor_first_versions@[q].1,
                        v,
                    ) ==> exists|i: int|
                        0 <= i < items@.len() && (#[trigger] items@[i]).0
                            == actor_first_versions@[q].0 && items@[i].1 == v
                &&& forall|i: int, j: int|
                    0 <= i < j < items@.len() && (#[trigger] items@[i]).0 == (
                    #[trigger] items@[j]).0 ==> items@[i].1 < items@[j].1
                &&& forall|i: int, j: int|
                    0 <= i < items@.len() && 0 <= j < items@.len() && i != j ==> !((
                    #[trigger] items@[i]).0 == (#[trigger] items@[j]).0 && items@[i].1
                        == items@[j].1)
            },
            r matches Err(e) ==> e is StorageFailure || e is FramingInvalid
    ;

    fn store_ops(&mut self, actor: u128, version: u64, data: VersionBytes) -> (r: Result<
        (),
        Error,
    >)
        requires
            data.wf(),
        ensures
            r is Ok ==> !old(self).ops_model().dom().contains((actor, version))
                && final(self).ops_model() == old(self).ops_model().insert(
                (actor, version),
                framed(data@),
            ),
            old(self).ops_model().dom().contains((actor, version)) ==> r is Err,
            r is Err ==> final(self).ops_model() == old(self).ops_model(),
            final(self).local_meta_model() == old(self).local_meta_model(),
            final(self).metas_model() == old(self).metas_model(),
            final(self).states_model() == old(self).states_model(),
            r matches Err(e) ==> e is StorageFailure || e is FramingInvalid || e is Integrity
    ;

    fn remove_ops(&mut self, actor_last_versions: Vec<(u128, u64)>) -> (r: Result<(), Error>)
        ensures
            r is Ok ==> final(self).ops_model() == old(self).ops_model().remove_keys(
                Set::new(
                    |k: (u128, u64)|
                        exists|i: int|
                            0 <= i < actor_last_versions@.len() && (
                            #[trigger] actor_last_versions@[i]) == k,
                ),
            ),
            final(self).local_meta_model() == old(self).local_meta_model(),
            final(self).metas_model() == old(self).metas_model(),
            final(self).states_model() == old(self).states_model(),
            r matches Err(e) ==> e is StorageFailure || e is FramingInvalid
    ;
}

} // verus!
