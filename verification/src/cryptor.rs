//! The cipher capability interface the replica engine consumes.

use vstd::prelude::*;

use crate::error::Error;
use crate::utils::version_bytes::{VersionBytes, VersionBytesRef, VersionBytesView};

verus! {

/// A symmetric cipher: generates keys and seals and opens byte buffers.
///
/// `decrypt_of` is the implementation's own decryption pipeline, a
/// function of the key and the ciphertext.  Sealing promises that the
/// pipeline recovers the plaintext; opening promises that it follows the
/// pipeline exactly, succeeding if and only if the pipeline does.
pub trait Cryptor: Sized {
    /// What the implementation's `decrypt` recovers from `enc` under
    /// `key`, when anything.
    spec fn decrypt_of(&self, key: VersionBytesView, enc: Seq<u8>) -> Option<Seq<u8>>;

    /// The merged remote-meta register for this capability, pushed by the
    /// engine whenever it changes; `None` at bootstrap.  Reconfiguration
    /// never changes what existing envelopes decrypt to.
    fn set_remote_meta(&mut self, data: Option<&crate::crdt::mvreg::MVReg<VersionBytes>>) -> (r:
        Result<(), Error>)
        ensures
            forall|k: VersionBytesView, e: Seq<u8>|
                #[trigger] final(self).decrypt_of(k, e) == old(self).decrypt_of(k, e),
    ;

    /// A fresh symmetric key, tagged with the implementation's key
    /// version.
    fn gen_key(&self) -> (r: Result<VersionBytes, Error>)
        ensures
            r matches Ok(k) ==> k.wf(),
    ;

    /// Seals `clear_text` under `key`.
    fn encrypt(&self, key: VersionBytesRef<'_>, clear_text: &[u8]) -> (r: Result<Vec<u8>, Error>)
        ensures
            r matches Ok(out) ==> self.decrypt_of(key@, out@) == Some(clear_text@),
    ;

    /// Opens `enc_data` under `key`: exactly the pipeline.  A cipher's
    /// version diagnostics name its own key or envelope versions, never
    /// the engine's storage-format set, so callers can tell the layers'
    /// failures apart.
    fn decrypt(&self, key: VersionBytesRef<'_>, enc_data: &[u8]) -> (r: Result<Vec<u8>, Error>)
        ensures
            r matches Ok(pt) ==> self.decrypt_of(key@, enc_data@) == Some(pt@),
            r is Err ==> self.decrypt_of(key@, enc_data@) is None,
            r matches Err(e) ==> (e matches Error::VersionMismatch { expected, got } ==> expected@
                != crate::supported_versions_spec()),
    ;
}

} // verus!
