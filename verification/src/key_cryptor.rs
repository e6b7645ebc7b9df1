//! The key registry: a merge-convergent set of symmetric keys plus a
//! multi-value "latest key id" register, and the envelope capability that
//! distributes it.
//!
//! Key identity is the UUID alone: two keys with the same id are the same
//! key.  The registry only ever grows — the engine never removes keys — so
//! the set is modeled as a sorted, id-keyed set; on an id collision a
//! merge keeps the entry already present.

use vstd::prelude::*;

use crate::crdt::mvreg::{join_get, mvreg_wf, MVReg};
use crate::crdt::vclock::{entries_wf, seq_get};
use crate::crdt::{CvCrdt, DeepClone, ReadCtx};
use crate::error::Error;
use crate::msgpack;
use crate::msgpack::Codec;
use crate::utils::version_bytes::{VersionBytes, VersionBytesView};

verus! {

/// The ghost shape of a key: its id and its material.
pub struct KeyView {
    pub id: u128,
    pub key: VersionBytesView,
}

/// A symmetric key: an id and the framed key material.
#[derive(Debug, Clone)]
pub struct Key {
    id: u128,
    key: VersionBytes,
}

impl View for Key {
    type V = KeyView;

    closed spec fn view(&self) -> KeyView {
        KeyView { id: self.id, key: self.key@ }
    }
}

impl DeepClone for Key {
    fn deep_clone(&self) -> (r: Self)
        ensures
            r@ == self@,
    {
        Key { id: self.id, key: self.key.deep_clone() }
    }
}

impl Key {
    /// A new key with a freshly generated id.
    pub fn new(key: VersionBytes) -> (r: Key)
        ensures
            r@.key == key@,
    {
        Key { id: crate::utils::fresh_uuid(), key }
    }

    pub fn new_with_id(id: u128, key: VersionBytes) -> (r: Key)
        ensures
            r@ == (KeyView { id, key: key@ }),
    {
        Key { id, key }
    }

    pub fn id(&self) -> (r: u128)
        ensures
            r == self@.id,
    {
        self.id
    }

    /// The key material, borrowed.
    pub fn key(&self) -> (r: crate::utils::version_bytes::VersionBytesRef<'_>)
        ensures
            r@ == self@.key,
    {
        self.key.as_version_bytes_ref()
    }

    /// Whether serializing the key is possible.
    pub fn material_wf(&self) -> (r: bool)
        ensures
            r == <Key as Codec>::valid_of(self@),
    {
        self.key.is_valid()
    }
}

impl PartialEq for Key {
    /// Key equality is id equality: the material is determined by the id.
    fn eq(&self, other: &Key) -> (r: bool) {
        self.id == other.id
    }
}

impl vstd::std_specs::cmp::PartialEqSpecImpl for Key {
    open spec fn obeys_eq_spec() -> bool {
        true
    }

    open spec fn eq_spec(&self, other: &Key) -> bool {
        self@.id == other@.id
    }
}

impl Eq for Key {

}

impl PartialOrd for Key {
    /// Keys order by id; the ordering is total.
    fn partial_cmp(&self, other: &Key) -> (r: Option<core::cmp::Ordering>) {
        if self.id < other.id {
            Some(core::cmp::Ordering::Less)
        } else if self.id == other.id {
            Some(core::cmp::Ordering::Equal)
        } else {
            Some(core::cmp::Ordering::Greater)
        }
    }
}

impl vstd::std_specs::cmp::PartialOrdSpecImpl for Key {
    open spec fn obeys_partial_cmp_spec() -> bool {
        true
    }

    open spec fn partial_cmp_spec(&self, other: &Key) -> Option<core::cmp::Ordering> {
        if self@.id < other@.id {
            Some(core::cmp::Ordering::Less)
        } else if self@.id == other@.id {
            Some(core::cmp::Ordering::Equal)
        } else {
            Some(core::cmp::Ordering::Greater)
        }
    }
}

/// The key under `id` in a key sequence, when present.
pub open spec fn kget(s: Seq<KeyView>, id: u128) -> Option<KeyView>
    decreases s.len(),
{
    if s.len() == 0 {
        None
    } else if s.last().id == id {
        Some(s.last())
    } else {
        kget(s.drop_last(), id)
    }
}

/// Canonical form of a key sequence: sorted strictly by id.
pub open spec fn keys_wf(s: Seq<KeyView>) -> bool {
    forall|i: int, j: int| 0 <= i < j < s.len() ==> (#[trigger] s[i]).id < (#[trigger] s[j]).id
}

/// An id absent from the sequence reads `None`.
pub proof fn lemma_kget_absent(s: Seq<KeyView>, id: u128)
    requires
        forall|i: int| 0 <= i < s.len() ==> (#[trigger] s[i]).id != id,
    ensures
        kget(s, id) is None,
    decreases s.len(),
{
    if s.len() > 0 {
        lemma_kget_absent(s.drop_last(), id);
    }
}

/// An id held at a position with no later duplicate reads its entry.
pub proof fn lemma_kget_present(s: Seq<KeyView>, i: int)
    requires
        0 <= i < s.len(),
        forall|j: int| i < j < s.len() ==> (#[trigger] s[j]).id != s[i].id,
    ensures
        kget(s, s[i].id) == Some(s[i]),
    decreases s.len(),
{
    if i + 1 < s.len() {
        lemma_kget_present(s.drop_last(), i);
    }
}

/// A `Some` reading implies a matching entry.
pub proof fn lemma_kget_some(s: Seq<KeyView>, id: u128)
    requires
        kget(s, id) is Some,
    ensures
        exists|i: int| 0 <= i < s.len() && (#[trigger] s[i]).id == id,
        kget(s, id).unwrap().id == id,
    decreases s.len(),
{
    if s.len() > 0 {
        if s.last().id != id {
            lemma_kget_some(s.drop_last(), id);
            let i = choose|i: int|
                0 <= i < s.drop_last().len() && (#[trigger] s.drop_last()[i]).id == id;
            assert(s[i].id == id);
        }
    }
}

/// Inserting a fresh id leaves every other reading unchanged.
pub proof fn lemma_kget_insert(s: Seq<KeyView>, i: int, k: KeyView)
    requires
        0 <= i <= s.len(),
        forall|j: int| 0 <= j < s.len() ==> (#[trigger] s[j]).id != k.id,
    ensures
        kget(s.insert(i, k), k.id) == Some(k),
        forall|x: u128| x != k.id ==> kget(s.insert(i, k), x) == kget(s, x),
    decreases s.len(),
{
    let t = s.insert(i, k);
    if i == s.len() {
        assert(t.last() == k);
        assert(t.drop_last() =~= s);
        assert forall|x: u128| x != k.id implies kget(t, x) == kget(s, x) by {
            assert(kget(t, x) == kget(t.drop_last(), x));
        }
    } else {
        assert(t.last() == s.last());
        assert(t.drop_last() =~= s.drop_last().insert(i, k));
        lemma_kget_insert(s.drop_last(), i, k);
        assert(s.last().id != k.id);
        assert(kget(t, k.id) == kget(t.drop_last(), k.id));
        assert forall|x: u128| x != k.id implies kget(t, x) == kget(s, x) by {
            if s.last().id == x {
                assert(kget(t, x) == Some(t.last()));
                assert(kget(s, x) == Some(s.last()));
            } else {
                assert(kget(t, x) == kget(t.drop_last(), x));
                assert(kget(s, x) == kget(s.drop_last(), x));
            }
        }
    }
}

/// Two canonical key sequences with the same readings are equal.
pub proof fn lemma_keys_canonical(s: Seq<KeyView>, t: Seq<KeyView>)
    requires
        keys_wf(s),
        keys_wf(t),
        forall|x: u128| #![trigger kget(s, x)] kget(s, x) == kget(t, x),
    ensures
        s == t,
    decreases s.len() + t.len(),
{
    if s.len() == 0 {
        if t.len() > 0 {
            lemma_kget_present(t, t.len() - 1);
            lemma_kget_absent(s, t.last().id);
        }
        assert(s =~= t);
    } else if t.len() == 0 {
        lemma_kget_present(s, s.len() - 1);
        lemma_kget_absent(t, s.last().id);
        assert(s =~= t);
    } else {
        let a = s.last().id;
        let b = t.last().id;
        lemma_kget_present(s, s.len() - 1);
        lemma_kget_present(t, t.len() - 1);
        if a != b {
            if a < b {
                lemma_kget_some(s, b);
                let i = choose|i: int| 0 <= i < s.len() && (#[trigger] s[i]).id == b;
                assert(s[i].id <= a);
                assert(false);
            } else {
                lemma_kget_some(t, a);
                let i = choose|i: int| 0 <= i < t.len() && (#[trigger] t[i]).id == a;
                assert(t[i].id <= b);
                assert(false);
            }
        }
        assert(s.last() == t.last());
        let s1 = s.drop_last();
        let t1 = t.drop_last();
        assert forall|x: u128| #![trigger kget(s1, x)] kget(s1, x) == kget(t1, x) by {
            if x == a {
                lemma_kget_absent(s1, a);
                lemma_kget_absent(t1, a);
            } else {
                assert(kget(s, x) == kget(s1, x));
                assert(kget(t, x) == kget(t1, x));
            }
        }
        lemma_keys_canonical(s1, t1);
        assert(s.len() == t.len());
        assert forall|k: int| 0 <= k < s.len() implies s[k] == t[k] by {
            if k < s.len() - 1 {
                assert(s[k] == s1[k]);
                assert(t[k] == t1[k]);
            }
        }
        assert(s =~= t);
    }
}

/// The encoded field name `id`.
pub open spec fn key_field_id() -> Seq<u8> {
    seq![0xa2u8, 0x69u8, 0x64u8]
}

/// The encoded field name `key`.
pub open spec fn key_field_key() -> Seq<u8> {
    seq![0xa3u8, 0x6bu8, 0x65u8, 0x79u8]
}

/// Appends the encoded field name `id`.
fn push_key_field_id(out: &mut Vec<u8>)
    ensures
        final(out)@ == old(out)@ + key_field_id(),
{
    out.push(0xa2);
    out.push(0x69);
    out.push(0x64);
    proof {
        assert(out@ =~= old(out)@ + key_field_id());
    }
}

/// Appends the encoded field name `key`.
fn push_key_field_key(out: &mut Vec<u8>)
    ensures
        final(out)@ == old(out)@ + key_field_key(),
{
    out.push(0xa3);
    out.push(0x6b);
    out.push(0x65);
    out.push(0x79);
    proof {
        assert(out@ =~= old(out)@ + key_field_key());
    }
}

/// The encoded field name `id`, as a vector.
fn key_field_id_vec() -> (r: Vec<u8>)
    ensures
        r@ == key_field_id(),
{
    let mut r: Vec<u8> = Vec::new();
    push_key_field_id(&mut r);
    proof {
        assert(r@ =~= key_field_id());
    }
    r
}

/// The encoded field name `key`, as a vector.
fn key_field_key_vec() -> (r: Vec<u8>)
    ensures
        r@ == key_field_key(),
{
    let mut r: Vec<u8> = Vec::new();
    push_key_field_key(&mut r);
    proof {
        assert(r@ =~= key_field_key());
    }
    r
}

/// A key is a map with named fields `id` and `key`.
impl Codec for Key {
    open spec fn enc_of(m: KeyView) -> Seq<u8> {
        msgpack::enc_fixmap_header_spec(2) + key_field_id() + msgpack::enc_bin_spec(
            crate::utils::version_bytes::u128_be_bytes(m.id),
        ) + key_field_key() + <VersionBytes as Codec>::enc_of(m.key)
    }

    open spec fn dec_of(s: Seq<u8>, pos: int) -> Option<(KeyView, int)> {
        match msgpack::dec_expect_spec(s, pos, msgpack::enc_fixmap_header_spec(2) + key_field_id()) {
            Some(p0) => match msgpack::dec_bin_spec(s, p0) {
                Some((ib, p1)) => if ib.len() == 16 {
                    match msgpack::dec_expect_spec(s, p1, key_field_key()) {
                        Some(p2) => match <VersionBytes as Codec>::dec_of(s, p2) {
                            Some((kv, p3)) => Some(
                                (
                                    KeyView {
                                        id: crate::utils::version_bytes::u128_from_be(ib),
                                        key: kv,
                                    },
                                    p3,
                                ),
                            ),
                            None => None,
                        },
                        None => None,
                    }
                } else {
                    None
                },
                None => None,
            },
            None => None,
        }
    }

    open spec fn valid_of(m: KeyView) -> bool {
        <VersionBytes as Codec>::valid_of(m.key)
    }

    proof fn lemma_enc_len(m: KeyView) {
    }

    proof fn lemma_dec_progress(s: Seq<u8>, pos: int) {
        match msgpack::dec_expect_spec(
            s,
            pos,
            msgpack::enc_fixmap_header_spec(2) + key_field_id(),
        ) {
            Some(p0) => match msgpack::dec_bin_spec(s, p0) {
                Some((ib, p1)) => {
                    match msgpack::dec_expect_spec(s, p1, key_field_key()) {
                        Some(p2) => {
                            <VersionBytes as Codec>::lemma_dec_progress(s, p2);
                        },
                        None => {},
                    }
                },
                None => {},
            },
            None => {},
        }
    }

    proof fn lemma_enc_dec(m: KeyView, s: Seq<u8>, pos: int) {
        let h = msgpack::enc_fixmap_header_spec(2) + key_field_id();
        let ei = msgpack::enc_bin_spec(crate::utils::version_bytes::u128_be_bytes(m.id));
        let fk = key_field_key();
        let ek = <VersionBytes as Codec>::enc_of(m.key);
        assert(Self::enc_of(m) =~= h + (ei + (fk + ek)));
        msgpack::lemma_subrange_split(s, pos, h, ei + (fk + ek));
        msgpack::lemma_subrange_split(s, pos + h.len(), ei, fk + ek);
        msgpack::lemma_subrange_split(s, pos + h.len() + ei.len(), fk, ek);
        msgpack::lemma_enc_dec_expect(s, pos, h);
        msgpack::lemma_enc_dec_bin(
            s,
            pos + h.len(),
            crate::utils::version_bytes::u128_be_bytes(m.id),
        );
        msgpack::lemma_enc_dec_expect(s, pos + h.len() + ei.len(), fk);
        <VersionBytes as Codec>::lemma_enc_dec(m.key, s, pos + h.len() + ei.len() + fk.len());
        crate::utils::version_bytes::lemma_u128_be_round_trip(m.id);
    }

    fn encode(&self, out: &mut Vec<u8>) {
        msgpack::enc_fixmap_header(out, 2);
        push_key_field_id(out);
        let ib = crate::utils::version_bytes::u128_to_be_bytes(self.id);
        msgpack::enc_bin(out, ib.as_slice());
        push_key_field_key(out);
        self.key.encode(out);
        proof {
            assert(out@ =~= old(out)@ + Self::enc_of(self@));
        }
    }

    fn decode(s: &[u8], pos: usize) -> (r: Result<(Self, usize), Error>) {
        let mut header = Vec::new();
        msgpack::enc_fixmap_header(&mut header, 2);
        push_key_field_id(&mut header);
        proof {
            assert(header@ =~= msgpack::enc_fixmap_header_spec(2) + key_field_id());
        }
        let p0 = match msgpack::dec_expect(s, pos, header.as_slice()) {
            Ok(p) => p,
            Err(e) => {
                return Err(e);
            },
        };
        let (ib, p1) = match msgpack::dec_bin(s, p0) {
            Ok(x) => x,
            Err(e) => {
                return Err(e);
            },
        };
        if ib.len() != 16 {
            return Err(Error::Serialization);
        }
        let id = crate::utils::version_bytes::u128_from_be_slice(ib.as_slice());
        let fk = key_field_key_vec();
        let p2 = match msgpack::dec_expect(s, p1, fk.as_slice()) {
            Ok(p) => p,
            Err(e) => {
                return Err(e);
            },
        };
        let (key, p3) = match <VersionBytes as Codec>::decode(s, p2) {
            Ok(x) => x,
            Err(e) => {
                return Err(e);
            },
        };
        Ok((Key { id, key }, p3))
    }

    fn is_valid(&self) -> (r: bool) {
        self.key.is_valid()
    }
}

/// The reading a merged key set gives: the left side's entry when
/// present, else the right side's.
pub open spec fn kunion_get(a: Seq<KeyView>, b: Seq<KeyView>, id: u128) -> Option<KeyView> {
    match kget(a, id) {
        Some(k) => Some(k),
        None => kget(b, id),
    }
}

/// A sorted, id-keyed set of symmetric keys.  The engine never removes
/// keys, so the set only grows; a merge keeps, for a shared id, the entry
/// already present.
#[derive(Debug, Clone)]
pub struct KeySet {
    entries: Vec<Key>,
}

impl View for KeySet {
    type V = Seq<KeyView>;

    closed spec fn view(&self) -> Seq<KeyView> {
        msgpack::views_of(self.entries@)
    }
}

impl DeepClone for KeySet {
    fn deep_clone(&self) -> (r: Self)
        ensures
            r@ == self@,
    {
        let mut entries: Vec<Key> = Vec::new();
        let mut i: usize = 0;
        while i < self.entries.len()
            invariant
                i <= self.entries@.len(),
                entries@.len() == i,
                forall|k: int| 0 <= k < i ==> (#[trigger] entries@[k])@ == self.entries@[k]@,
            decreases self.entries@.len() - i,
        {
            entries.push(self.entries[i].deep_clone());
            i = i + 1;
        }
        let r = KeySet { entries };
        proof {
            assert(r@ =~= self@);
        }
        r
    }
}

impl KeySet {
    /// Canonical form: sorted strictly by id.
    pub open spec fn wf(self) -> bool {
        keys_wf(self@)
    }

    /// The empty set.
    pub fn new() -> (r: KeySet)
        ensures
            r.wf(),
            r@.len() == 0,
            forall|x: u128| kget(r@, x) is None,
    {
        let r = KeySet { entries: Vec::new() };
        proof {
            assert(r@ =~= Seq::<KeyView>::empty());
            assert forall|x: u128| kget(r@, x) is None by {}
        }
        r
    }

    /// The key under `id`, when present.
    pub fn get(&self, id: u128) -> (r: Option<Key>)
        requires
            self.wf(),
        ensures
            match r {
                Some(k) => kget(self@, id) == Some(k@),
                None => kget(self@, id) is None,
            },
    {
        let n = self.entries.len();
        let mut i: usize = 0;
        while i < n
            invariant
                i <= n,
                n == self.entries@.len(),
                self.wf(),
                self@ == msgpack::views_of(self.entries@),
                forall|j: int| 0 <= j < i ==> (#[trigger] self@[j]).id != id,
            decreases n - i,
        {
            proof {
                assert(self@[i as int] == self.entries@[i as int]@);
            }
            if self.entries[i].id() == id {
                proof {
                    lemma_kget_present(self@, i as int);
                }
                return Some(self.entries[i].deep_clone());
            }
            i = i + 1;
        }
        proof {
            lemma_kget_absent(self@, id);
        }
        None
    }

    /// Adds `k`; when the id is already present, the present entry stays.
    pub fn insert(&mut self, k: Key)
        requires
            old(self).wf(),
        ensures
            final(self).wf(),
            kget(old(self)@, k@.id) is Some ==> final(self)@ == old(self)@,
            kget(old(self)@, k@.id) is None ==> kget(final(self)@, k@.id) == Some(k@),
            forall|x: u128| x != k@.id ==> kget(final(self)@, x) == kget(old(self)@, x),
    {
        let ghost pre = *self;
        let id = k.id();
        let n = self.entries.len();
        let mut i: usize = 0;
        while i < n && self.entries[i].id() < id
            invariant
                i <= n,
                n == self.entries@.len(),
                *self == pre,
                self@ == msgpack::views_of(self.entries@),
                forall|j: int| 0 <= j < i ==> (#[trigger] self@[j]).id < id,
            decreases n - i,
        {
            proof {
                assert(self@[i as int] == self.entries@[i as int]@);
            }
            i = i + 1;
        }
        proof {
            assert(forall|j: int| 0 <= j < i ==> (#[trigger] self@[j]).id != id);
        }
        if i < self.entries.len() {
            proof {
                assert(self@[i as int] == self.entries@[i as int]@);
            }
            if self.entries[i].id() == id {
                proof {
                    lemma_kget_present(self@, i as int);
                }
                return ;
            }
        }
        proof {
            assert(i < self@.len() ==> self@[i as int].id > id);
            assert forall|j: int| (i as int) <= j < self@.len() implies (#[trigger] self@[j]).id
                > id by {
                if j > i {
                    assert(self@[i as int].id < self@[j].id);
                }
            }
            assert(forall|j: int| 0 <= j < self@.len() ==> (#[trigger] self@[j]).id != id);
            lemma_kget_absent(self@, id);
        }
        self.entries.insert(i, k);
        proof {
            assert(self@ =~= msgpack::views_of(pre.entries@).insert(i as int, k@));
            lemma_kget_insert(pre@, i as int, k@);
            assert forall|p: int, q: int|
                0 <= p < q < self@.len() implies (#[trigger] self@[p]).id < (
            #[trigger] self@[q]).id by {
                if q < i {
                } else if p < i && q == i {
                } else if p < i && q > i {
                    assert(self@[q] == pre@[q - 1]);
                } else if p == i {
                    assert(self@[q] == pre@[q - 1]);
                } else {
                    assert(self@[p] == pre@[p - 1]);
                    assert(self@[q] == pre@[q - 1]);
                }
            }
        }
    }

    /// Merges `other` in: for each id the present entry wins, so entries
    /// of `self` stay and fresh ids of `other` are added.
    pub fn merge(&mut self, other: KeySet)
        requires
            old(self).wf(),
            other.wf(),
        ensures
            final(self).wf(),
            forall|id: u128|
                #![trigger kget(final(self)@, id)]
                kget(final(self)@, id) == kunion_get(old(self)@, other@, id),
    {
        let ghost a = self@;
        let ghost b = other@;
        let n = other.entries.len();
        let mut i: usize = 0;
        while i < n
            invariant
                i <= n,
                n == other.entries@.len(),
                other.wf(),
                b == other@,
                other@ == msgpack::views_of(other.entries@),
                self.wf(),
                forall|id: u128|
                    #![trigger kget(self@, id)]
                    kget(self@, id) == kunion_get(a, b.take(i as int), id),
            decreases n - i,
        {
            proof {
                assert(other@[i as int] == other.entries@[i as int]@);
            }
            let k = other.entries[i].deep_clone();
            let ghost mid = self@;
            self.insert(k);
            proof {
                let t1 = b.take(i + 1);
                assert(t1.drop_last() =~= b.take(i as int));
                assert(t1.last() == b[i as int]);
                assert forall|id: u128|
                    #![trigger kget(self@, id)]
                    kget(self@, id) == kunion_get(a, t1, id) by {
                    if id == k@.id {
                        assert(forall|j: int|
                            0 <= j < i ==> (#[trigger] b.take(i as int)[j]).id != id) by {
                            assert(forall|j: int|
                                0 <= j < i ==> (#[trigger] b[j]).id < b[i as int].id);
                        }
                        lemma_kget_absent(b.take(i as int), id);
                        assert(kget(t1, id) == Some(b[i as int]));
                        if kget(mid, id) is Some {
                            assert(self@ == mid);
                        }
                    } else {
                        assert(kget(self@, id) == kget(mid, id));
                        assert(kget(t1, id) == kget(b.take(i as int), id));
                    }
                }
            }
            i = i + 1;
        }
        proof {
            assert(b.take(n as int) =~= b);
        }
    }
}

/// The ghost shape of the registry: the latest-id register and the keys.
pub struct KeysView {
    pub latest: Seq<(Seq<(u128, u64)>, u128)>,
    pub keys: Seq<KeyView>,
}

/// The smallest register id that resolves to a key, scanning `reg`.
pub open spec fn latest_id(reg: Seq<(Seq<(u128, u64)>, u128)>, ks: Seq<KeyView>) -> Option<u128>
    decreases reg.len(),
{
    if reg.len() == 0 {
        None
    } else {
        let rest = latest_id(reg.drop_last(), ks);
        let id = reg.last().1;
        if kget(ks, id) is Some {
            match rest {
                None => Some(id),
                Some(r) => if id < r {
                    Some(id)
                } else {
                    Some(r)
                },
            }
        } else {
            rest
        }
    }
}

/// The designated latest key: the register value with the smallest id
/// that resolves in the key set.  The smallest-id rule is the
/// deterministic tie-break across replicas.
pub open spec fn keys_latest_spec(k: KeysView) -> Option<KeyView> {
    match latest_id(k.latest, k.keys) {
        None => None,
        Some(id) => kget(k.keys, id),
    }
}

/// The empty registry's ghost shape.
pub open spec fn empty_keys_view() -> KeysView {
    KeysView { latest: Seq::empty(), keys: Seq::empty() }
}

/// The registry: the latest-key register and the key set, each a CRDT,
/// merged component-wise.
#[derive(Debug, Clone)]
pub struct Keys {
    latest_key_id: MVReg<u128>,
    keys: KeySet,
}

impl View for Keys {
    type V = KeysView;

    closed spec fn view(&self) -> KeysView {
        KeysView { latest: self.latest_key_id@, keys: self.keys@ }
    }
}

impl DeepClone for Keys {
    fn deep_clone(&self) -> (r: Self)
        ensures
            r@ == self@,
    {
        let r = Keys { latest_key_id: self.latest_key_id.deep_clone(), keys: self.keys.deep_clone() };
        proof {
            assert(r@ == self@);
        }
        r
    }
}

impl Default for Keys {
    /// The empty registry: no keys, no latest id.
    fn default() -> (r: Keys)
        ensures
            r.wf(),
            r@.latest.len() == 0,
            r@.keys.len() == 0,
    {
        Keys { latest_key_id: MVReg::new(), keys: KeySet::new() }
    }
}

impl Keys {
    /// Both components are in canonical form.
    pub open spec fn wf(self) -> bool {
        mvreg_wf(self@.latest) && keys_wf(self@.keys)
    }

    /// Merges the latest-id register and the key set component-wise.
    pub fn merge(&mut self, other: Keys)
        requires
            old(self).wf(),
            other.wf(),
        ensures
            final(self).wf(),
            final(self)@.latest == crate::crdt::mvreg::mvreg_merged(
                old(self)@.latest,
                other@.latest,
            ),
            forall|id: u128|
                #![trigger kget(final(self)@.keys, id)]
                kget(final(self)@.keys, id) == kunion_get(old(self)@.keys, other@.keys, id),
    {
        self.latest_key_id.merge_with(other.latest_key_id);
        self.keys.merge(other.keys);
    }

    /// The key under `key_id`, when the registry holds it.
    pub fn get_key(&self, key_id: u128) -> (r: Option<Key>)
        requires
            self.wf(),
        ensures
            match r {
                Some(k) => kget(self@.keys, key_id) == Some(k@),
                None => kget(self@.keys, key_id) is None,
            },
    {
        self.keys.get(key_id)
    }

    /// The designated latest key: among the register's current ids that
    /// resolve in the key set, the one with the smallest id.
    pub fn latest_key(&self) -> (r: Option<Key>)
        requires
            self.wf(),
        ensures
            match r {
                Some(k) => keys_latest_spec(self@) == Some(k@),
                None => keys_latest_spec(self@) is None,
            },
    {
        let ghost reg = self@.latest;
        let ids = self.latest_key_id.read();
        let n = ids.val.len();
        let mut best: Option<Key> = None;
        let mut i: usize = 0;
        while i < n
            invariant
                i <= n,
                n == ids.val@.len(),
                self.wf(),
                reg == self@.latest,
                n == reg.len(),
                forall|j: int| 0 <= j < n ==> (#[trigger] ids.val@[j])@ == reg[j].1,
                match best {
                    Some(k) => latest_id(reg.take(i as int), self@.keys) matches Some(id) && kget(
                        self@.keys,
                        id,
                    ) == Some(k@) && k@.id == id,
                    None => latest_id(reg.take(i as int), self@.keys) is None,
                },
            decreases n - i,
        {
            let id = ids.val[i];
            proof {
                assert(ids.val@[i as int]@ == reg[i as int].1);
                let t1 = reg.take(i + 1);
                assert(t1.drop_last() =~= reg.take(i as int));
                assert(t1.last() == reg[i as int]);
            }
            match self.keys.get(id) {
                Some(k) => {
                    proof {
                        lemma_kget_some(self@.keys, id);
                    }
                    best = match best {
                        None => Some(k),
                        Some(b) => {
                            if id < b.id() {
                                Some(k)
                            } else {
                                Some(b)
                            }
                        },
                    };
                },
                None => {
                },
            }
            i = i + 1;
        }
        proof {
            assert(reg.take(n as int) =~= reg);
        }
        best
    }

    /// The join of the latest-id register's clocks, read at `actor`.
    pub fn latest_join_get(&self, actor: u128) -> (r: u64)
        requires
            self.wf(),
        ensures
            r == join_get(self@.latest, actor),
    {
        let ctx = self.latest_key_id.read_ctx();
        ctx.add_clock.get(actor)
    }

    /// Inserts `new_key` and designates it latest: the key joins the set,
    /// and the register is overwritten under a context derived from its
    /// own read, so the new id dominates every concurrent value the
    /// replica has seen.
    pub fn insert_latest_key(&mut self, actor: u128, new_key: Key)
        requires
            old(self).wf(),
            join_get(old(self)@.latest, actor) < u64::MAX,
        ensures
            final(self).wf(),
            kget(old(self)@.keys, new_key@.id) is Some ==> final(self)@.keys == old(self)@.keys,
            kget(old(self)@.keys, new_key@.id) is None ==> kget(final(self)@.keys, new_key@.id)
                == Some(new_key@),
            forall|x: u128|
                x != new_key@.id ==> kget(final(self)@.keys, x) == kget(old(self)@.keys, x),
            final(self)@.latest.len() == 1,
            final(self)@.latest[0].1 == new_key@.id,
            entries_wf(final(self)@.latest[0].0),
    {
        let ghost reg = self@.latest;
        let key_id = new_key.id();
        self.keys.insert(new_key);
        let read_ctx = self.latest_key_id.read_ctx();
        let write_ctx = read_ctx.derive_add_ctx(actor);
        let ghost cw = write_ctx.clock;
        let op = self.latest_key_id.write(key_id, write_ctx);
        proof {
            // the derived clock strictly dominates every stored clock
            lemma_join_dominates_all(reg);
            assert(entries_wf(op@.0));
            assert forall|j: int|
                0 <= j < reg.len() implies crate::crdt::vclock::lt_seq(
                (#[trigger] reg[j]).0,
                op@.0,
            ) by {
                assert forall|x: u128|
                    #![trigger seq_get(reg[j].0, x)]
                    seq_get(reg[j].0, x) <= seq_get(op@.0, x) by {
                    assert(seq_get(reg[j].0, x) <= join_get(reg, x));
                    assert(read_ctx.add_clock.get_spec(x) == join_get(reg, x));
                    if x == actor {
                        assert(write_ctx.clock.get_spec(x) == read_ctx.add_clock.get_spec(x)
                            + 1);
                        assert(seq_get(op@.0, x) == join_get(reg, x) + 1);
                    } else {
                        assert(write_ctx.clock.get_spec(x) == read_ctx.add_clock.get_spec(x));
                        assert(seq_get(op@.0, x) == join_get(reg, x));
                    }
                }
                assert(crate::crdt::vclock::le_seq(reg[j].0, op@.0));
                assert(!crate::crdt::vclock::le_seq(op@.0, reg[j].0)) by {
                    assert(seq_get(reg[j].0, actor) <= join_get(reg, actor));
                    assert(read_ctx.add_clock.get_spec(actor) == join_get(reg, actor));
                    assert(write_ctx.clock.get_spec(actor) == join_get(reg, actor) + 1);
                    assert(seq_get(op@.0, actor) > seq_get(reg[j].0, actor));
                }
            }
            crate::crdt::mvreg::lemma_apply_overwrites(reg, op@);
        }
        crate::crdt::CmCrdt::apply(&mut self.latest_key_id, op);
        proof {
            assert(self@.latest == seq![(cw@, key_id)]);
            assert(self@.latest[0] == (cw@, key_id));
        }
    }
}

/// Every stored clock is below the join of all stored clocks.
pub proof fn lemma_join_dominates_all<VV>(m: Seq<(Seq<(u128, u64)>, VV)>)
    ensures
        forall|j: int, x: u128|
            0 <= j < m.len() ==> seq_get((#[trigger] m[j]).0, x) <= #[trigger] join_get(m, x),
    decreases m.len(),
{
    if m.len() > 0 {
        lemma_join_dominates_all(m.drop_last());
        assert forall|j: int, x: u128|
            0 <= j < m.len() implies seq_get((#[trigger] m[j]).0, x) <= #[trigger] join_get(
            m,
            x,
        ) by {
            if j < m.len() - 1 {
                assert(m.drop_last()[j] == m[j]);
                assert(seq_get(m.drop_last()[j].0, x) <= join_get(m.drop_last(), x));
            }
        }
    }
}


/// True when the register names `id` among its current values.
pub open spec fn reg_has(reg: Seq<(Seq<(u128, u64)>, u128)>, id: u128) -> bool {
    exists|i: int| 0 <= i < reg.len() && (#[trigger] reg[i]).1 == id
}

/// The latest key is the smallest register id that resolves in the key
/// set: it is a candidate, no candidate is smaller, and when no candidate
/// resolves there is no latest key.
pub proof fn lemma_latest_is_min(k: KeysView)
    ensures
        match keys_latest_spec(k) {
            Some(kv) => reg_has(k.latest, kv.id) && kget(k.keys, kv.id) == Some(kv) && forall|
                i: int,
            |
                0 <= i < k.latest.len() && kget(k.keys, (#[trigger] k.latest[i]).1) is Some
                    ==> kv.id <= k.latest[i].1,
            None => forall|i: int|
                0 <= i < k.latest.len() ==> kget(k.keys, (#[trigger] k.latest[i]).1) is None,
        },
{
    lemma_latest_id_min(k.latest, k.keys);
    match latest_id(k.latest, k.keys) {
        Some(id) => {
            lemma_kget_some(k.keys, id);
        },
        None => {},
    }
}

/// The characterization of `latest_id` as the minimum resolving id.
proof fn lemma_latest_id_min(reg: Seq<(Seq<(u128, u64)>, u128)>, ks: Seq<KeyView>)
    ensures
        match latest_id(reg, ks) {
            Some(id) => reg_has(reg, id) && kget(ks, id) is Some && forall|i: int|
                0 <= i < reg.len() && kget(ks, (#[trigger] reg[i]).1) is Some ==> id <= reg[i].1,
            None => forall|i: int|
                0 <= i < reg.len() ==> kget(ks, (#[trigger] reg[i]).1) is None,
        },
    decreases reg.len(),
{
    if reg.len() > 0 {
        lemma_latest_id_min(reg.drop_last(), ks);
        let r1 = reg.drop_last();
        assert forall|i: int| 0 <= i < r1.len() implies (#[trigger] reg[i]) == r1[i] by {}
        match latest_id(reg, ks) {
            Some(id) => {
                match latest_id(r1, ks) {
                    Some(p) => {
                        if reg_has(r1, p) {
                            let w = choose|i: int| 0 <= i < r1.len() && (#[trigger] r1[i]).1 == p;
                            assert(reg[w].1 == p);
                        }
                    },
                    None => {},
                }
            },
            None => {},
        }
    }
}

/// Two registries with the same key set and the same candidate ids
/// designate the same latest key: the order the register holds them in
/// does not matter.
pub proof fn lemma_latest_determined_by_candidates(k1: KeysView, k2: KeysView)
    requires
        k1.keys == k2.keys,
        forall|id: u128| #![trigger reg_has(k1.latest, id)] reg_has(k1.latest, id) <==> reg_has(k2.latest, id),
    ensures
        keys_latest_spec(k1) == keys_latest_spec(k2),
{
    lemma_latest_is_min(k1);
    lemma_latest_is_min(k2);
    match keys_latest_spec(k1) {
        Some(kv1) => {
            assert(reg_has(k2.latest, kv1.id));
            let i2 = choose|i: int| 0 <= i < k2.latest.len() && (#[trigger] k2.latest[i]).1 == kv1.id;
            match keys_latest_spec(k2) {
                Some(kv2) => {
                    assert(kv2.id <= kv1.id);
                    assert(reg_has(k1.latest, kv2.id));
                    let i1 = choose|i: int|
                        0 <= i < k1.latest.len() && (#[trigger] k1.latest[i]).1 == kv2.id;
                    assert(kv1.id <= kv2.id);
                },
                None => {
                    assert(kget(k2.keys, k2.latest[i2].1) is None);
                },
            }
        },
        None => {
            match keys_latest_spec(k2) {
                Some(kv2) => {
                    assert(reg_has(k1.latest, kv2.id));
                    let i1 = choose|i: int|
                        0 <= i < k1.latest.len() && (#[trigger] k1.latest[i]).1 == kv2.id;
                    assert(kget(k1.keys, k1.latest[i1].1) is None);
                },
                None => {},
            }
        },
    }
}

/// A registry whose register holds exactly one id, resolving to `kv`,
/// designates `kv` as latest.
pub proof fn lemma_latest_of_single(k: KeysView, kv: KeyView)
    requires
        k.latest.len() == 1,
        k.latest[0].1 == kv.id,
        kget(k.keys, kv.id) == Some(kv),
    ensures
        keys_latest_spec(k) == Some(kv),
{
    assert(k.latest.drop_last() =~= Seq::<(Seq<(u128, u64)>, u128)>::empty());
    assert(k.latest.last() == k.latest[0]);
    assert(latest_id(k.latest.drop_last(), k.keys) == None::<u128>);
    assert(latest_id(k.latest, k.keys) == Some(kv.id));
}

/// Two key sets are coherent when any id they share resolves to the same
/// key on both sides.  Replicas of one history always agree this way:
/// ids are freshly generated, and an id determines its key.
pub open spec fn keys_coherent(a: Seq<KeyView>, b: Seq<KeyView>) -> bool {
    forall|id: u128|
        #![trigger kget(a, id), kget(b, id)]
        kget(a, id) is Some && kget(b, id) is Some ==> kget(a, id) == kget(b, id)
}

/// Merging a registry with itself changes nothing.
pub proof fn lemma_keys_merge_idempotent(a: KeysView)
    requires
        mvreg_wf(a.latest),
        keys_wf(a.keys),
    ensures
        crate::crdt::mvreg::mvreg_merged(a.latest, a.latest) == a.latest,
        forall|id: u128| #[trigger] kunion_get(a.keys, a.keys, id) == kget(a.keys, id),
{
    crate::crdt::mvreg::lemma_mvreg_merge_idempotent(a.latest);
    assert forall|id: u128| #[trigger] kunion_get(a.keys, a.keys, id) == kget(
        a.keys,
        id,
    ) by {
        match kget(a.keys, id) {
            Some(_) => {},
            None => {},
        }
    }
}

/// Merging coherent registries is commutative: both orders yield the same
/// key set and the same set of register values, and so the same latest
/// key.
pub proof fn lemma_keys_merge_commutative(a: KeysView, b: KeysView)
    requires
        mvreg_wf(a.latest),
        keys_wf(a.keys),
        mvreg_wf(b.latest),
        keys_wf(b.keys),
        crate::crdt::mvreg::mvreg_coherent(a.latest, b.latest),
        keys_coherent(a.keys, b.keys),
    ensures
        crate::crdt::mvreg::mvreg_merged(a.latest, b.latest).to_set()
            == crate::crdt::mvreg::mvreg_merged(b.latest, a.latest).to_set(),
        forall|id: u128| #[trigger]
            kunion_get(a.keys, b.keys, id) == kunion_get(b.keys, a.keys, id),
{
    crate::crdt::mvreg::lemma_mvreg_merge_commutative(a.latest, b.latest);
}

/// The envelope capability: wraps the key registry for its recipients and
/// unwraps it from the shared remote-meta channel.
///
/// The engine pushes the merged envelope register with `set_remote_meta`
/// and receives back the registry the register carries; it pushes a
/// changed local registry with `set_keys` and receives back the updated
/// register to merge and store.
pub trait KeyCryptor: Sized {
    /// The replica's identity, published once at open.
    fn set_info(&mut self, info: &crate::Info) -> (r: Result<(), Error>);

    /// The merged envelope register, or `None` at bootstrap; yields the
    /// decoded key registry when the register carries one.
    fn set_remote_meta(&mut self, data: Option<&MVReg<VersionBytes>>) -> (r: Result<
        Option<ReadCtx<Keys>>,
        Error,
    >)
        requires
            data matches Some(reg) ==> mvreg_wf(reg@),
        ensures
            r matches Ok(Some(ctx)) ==> ctx.val.wf() && ctx.add_clock.wf(),
    ;

    /// The changed local registry; yields the capability's updated
    /// register — written under a context derived with `actor` — for the
    /// engine to merge and store.
    fn set_keys(&mut self, keys: Keys, actor: u128) -> (r: Result<MVReg<VersionBytes>, Error>)
        ensures
            r matches Ok(reg) ==> mvreg_wf(reg@),
    ;
}

/// A key set is a collection of keys, accepted only in canonical sorted
/// form.
impl Codec for KeySet {
    open spec fn enc_of(m: Seq<KeyView>) -> Seq<u8> {
        msgpack::enc_list_of::<Key>(m)
    }

    open spec fn dec_of(s: Seq<u8>, pos: int) -> Option<(Seq<KeyView>, int)> {
        match msgpack::dec_list_of::<Key>(s, pos) {
            Some((es, end)) => if keys_wf(es) {
                Some((es, end))
            } else {
                None
            },
            None => None,
        }
    }

    open spec fn valid_of(m: Seq<KeyView>) -> bool {
        &&& keys_wf(m)
        &&& m.len() <= u32::MAX
        &&& forall|i: int| 0 <= i < m.len() ==> <Key as Codec>::valid_of(#[trigger] m[i])
    }

    proof fn lemma_enc_len(m: Seq<KeyView>) {
        assert(Self::enc_of(m).len() >= 5);
    }

    proof fn lemma_dec_progress(s: Seq<u8>, pos: int) {
        msgpack::lemma_dec_list_progress::<Key>(s, pos);
    }

    proof fn lemma_enc_dec(m: Seq<KeyView>, s: Seq<u8>, pos: int) {
        msgpack::lemma_enc_dec_list::<Key>(m, s, pos);
    }

    fn encode(&self, out: &mut Vec<u8>) {
        proof {
            assert forall|k: int|
                0 <= k < self.entries@.len() implies <Key as Codec>::valid_of(
                (#[trigger] self.entries@[k])@,
            ) by {
                assert(self@[k] == self.entries@[k]@);
            }
        }
        msgpack::enc_list::<Key>(out, &self.entries);
    }

    fn decode(s: &[u8], pos: usize) -> (r: Result<(Self, usize), Error>) {
        let (entries, end) = match msgpack::dec_list::<Key>(s, pos) {
            Ok(x) => x,
            Err(e) => {
                return Err(e);
            },
        };
        let n = entries.len();
        let mut i: usize = 0;
        while i < n
            invariant
                i <= n,
                n == entries@.len(),
                msgpack::dec_list_of::<Key>(s@, pos as int) == Some(
                    (msgpack::views_of(entries@), end as int),
                ),
                forall|k: int|
                    0 < k < i ==> (#[trigger] entries@[k])@.id > entries@[k - 1]@.id,
            decreases n - i,
        {
            if i > 0 {
                if entries[i].id() <= entries[i - 1].id() {
                    proof {
                        let es = msgpack::views_of(entries@);
                        assert(!keys_wf(es)) by {
                            assert(es[i - 1] == entries@[i - 1]@);
                            assert(es[i as int] == entries@[i as int]@);
                            assert(es[i - 1].id >= es[i as int].id);
                        }
                    }
                    return Err(Error::Serialization);
                }
            }
            i = i + 1;
        }
        proof {
            let es = msgpack::views_of(entries@);
            assert forall|p: int, q: int|
                0 <= p < q < es.len() implies (#[trigger] es[p]).id < (#[trigger] es[q]).id by {
                lemma_adjacent_ids(entries@, p, q);
                assert(es[p] == entries@[p]@);
                assert(es[q] == entries@[q]@);
            }
        }
        Ok((KeySet { entries }, end))
    }

    fn is_valid(&self) -> (r: bool) {
        if self.entries.len() as u64 > u32::MAX as u64 {
            return false;
        }
        let n = self.entries.len();
        let mut i: usize = 0;
        while i < n
            invariant
                i <= n,
                n == self.entries@.len(),
                forall|k: int|
                    0 <= k < i ==> <Key as Codec>::valid_of((#[trigger] self@[k])),
                forall|k: int|
                    0 < k < i ==> (#[trigger] self.entries@[k])@.id > self.entries@[k - 1]@.id,
            decreases n - i,
        {
            if !self.entries[i].material_wf() {
                proof {
                    assert(self@[i as int] == self.entries@[i as int]@);
                }
                return false;
            }
            if i > 0 {
                if self.entries[i].id() <= self.entries[i - 1].id() {
                    proof {
                        assert(!keys_wf(self@)) by {
                            assert(self@[i - 1] == self.entries@[i - 1]@);
                            assert(self@[i as int] == self.entries@[i as int]@);
                            assert(self@[i - 1].id >= self@[i as int].id);
                        }
                    }
                    return false;
                }
            }
            proof {
                assert(self@[i as int] == self.entries@[i as int]@);
            }
            i = i + 1;
        }
        proof {
            assert forall|p: int, q: int|
                0 <= p < q < self@.len() implies (#[trigger] self@[p]).id < (
            #[trigger] self@[q]).id by {
                lemma_adjacent_ids(self.entries@, p, q);
                assert(self@[p] == self.entries@[p]@);
                assert(self@[q] == self.entries@[q]@);
            }
        }
        true
    }
}

/// Adjacent id order over the whole vector implies the global order.
proof fn lemma_adjacent_ids(s: Seq<Key>, i: int, j: int)
    requires
        forall|k: int| 0 < k < s.len() ==> (#[trigger] s[k])@.id > s[k - 1]@.id,
        0 <= i < j < s.len(),
    ensures
        s[i]@.id < s[j]@.id,
    decreases j - i,
{
    if i + 1 < j {
        lemma_adjacent_ids(s, i, j - 1);
    }
}

/// The encoded field name `latest_key_id`.
pub open spec fn field_latest_key_id() -> Seq<u8> {
    seq![
        0xadu8, 0x6cu8, 0x61u8, 0x74u8, 0x65u8, 0x73u8, 0x74u8, 0x5fu8, 0x6bu8, 0x65u8, 0x79u8,
        0x5fu8, 0x69u8, 0x64u8,
    ]
}

/// The encoded field name `keys`.
pub open spec fn field_keys() -> Seq<u8> {
    seq![0xa4u8, 0x6bu8, 0x65u8, 0x79u8, 0x73u8]
}

/// Appends the encoded field name `latest_key_id`.
fn push_field_latest_key_id(out: &mut Vec<u8>)
    ensures
        final(out)@ == old(out)@ + field_latest_key_id(),
{
    out.push(0xad);
    out.push(0x6c);
    out.push(0x61);
    out.push(0x74);
    out.push(0x65);
    out.push(0x73);
    out.push(0x74);
    out.push(0x5f);
    out.push(0x6b);
    out.push(0x65);
    out.push(0x79);
    out.push(0x5f);
    out.push(0x69);
    out.push(0x64);
    proof {
        assert(out@ =~= old(out)@ + field_latest_key_id());
    }
}

/// Appends the encoded field name `keys`.
fn push_field_keys(out: &mut Vec<u8>)
    ensures
        final(out)@ == old(out)@ + field_keys(),
{
    out.push(0xa4);
    out.push(0x6b);
    out.push(0x65);
    out.push(0x79);
    out.push(0x73);
    proof {
        assert(out@ =~= old(out)@ + field_keys());
    }
}

/// The registry is a map with named fields `latest_key_id` and `keys`.
impl Codec for Keys {
    open spec fn enc_of(m: KeysView) -> Seq<u8> {
        msgpack::enc_fixmap_header_spec(2) + field_latest_key_id() + <MVReg<
            u128,
        > as Codec>::enc_of(m.latest) + field_keys() + <KeySet as Codec>::enc_of(m.keys)
    }

    open spec fn dec_of(s: Seq<u8>, pos: int) -> Option<(KeysView, int)> {
        match msgpack::dec_expect_spec(
            s,
            pos,
            msgpack::enc_fixmap_header_spec(2) + field_latest_key_id(),
        ) {
            Some(p0) => match <MVReg<u128> as Codec>::dec_of(s, p0) {
                Some((latest, p1)) => match msgpack::dec_expect_spec(s, p1, field_keys()) {
                    Some(p2) => match <KeySet as Codec>::dec_of(s, p2) {
                        Some((ks, p3)) => Some((KeysView { latest, keys: ks }, p3)),
                        None => None,
                    },
                    None => None,
                },
                None => None,
            },
            None => None,
        }
    }

    open spec fn valid_of(m: KeysView) -> bool {
        <MVReg<u128> as Codec>::valid_of(m.latest) && <KeySet as Codec>::valid_of(m.keys)
    }

    proof fn lemma_enc_len(m: KeysView) {
    }

    proof fn lemma_dec_progress(s: Seq<u8>, pos: int) {
        match msgpack::dec_expect_spec(
            s,
            pos,
            msgpack::enc_fixmap_header_spec(2) + field_latest_key_id(),
        ) {
            Some(p0) => {
                <MVReg<u128> as Codec>::lemma_dec_progress(s, p0);
                match <MVReg<u128> as Codec>::dec_of(s, p0) {
                    Some((latest, p1)) => {
                        match msgpack::dec_expect_spec(s, p1, field_keys()) {
                            Some(p2) => {
                                <KeySet as Codec>::lemma_dec_progress(s, p2);
                            },
                            None => {},
                        }
                    },
                    None => {},
                }
            },
            None => {},
        }
    }

    proof fn lemma_enc_dec(m: KeysView, s: Seq<u8>, pos: int) {
        let h = msgpack::enc_fixmap_header_spec(2) + field_latest_key_id();
        let e1 = <MVReg<u128> as Codec>::enc_of(m.latest);
        let f2 = field_keys();
        let e2 = <KeySet as Codec>::enc_of(m.keys);
        assert(Self::enc_of(m) =~= h + (e1 + (f2 + e2)));
        msgpack::lemma_subrange_split(s, pos, h, e1 + (f2 + e2));
        msgpack::lemma_subrange_split(s, pos + h.len(), e1, f2 + e2);
        msgpack::lemma_subrange_split(s, pos + h.len() + e1.len(), f2, e2);
        msgpack::lemma_enc_dec_expect(s, pos, h);
        <MVReg<u128> as Codec>::lemma_enc_dec(m.latest, s, pos + h.len());
        msgpack::lemma_enc_dec_expect(s, pos + h.len() + e1.len(), f2);
        <KeySet as Codec>::lemma_enc_dec(m.keys, s, pos + h.len() + e1.len() + f2.len());
    }

    fn encode(&self, out: &mut Vec<u8>) {
        msgpack::enc_fixmap_header(out, 2);
        push_field_latest_key_id(out);
        self.latest_key_id.encode(out);
        push_field_keys(out);
        self.keys.encode(out);
        proof {
            assert(out@ =~= old(out)@ + Self::enc_of(self@));
        }
    }

    fn decode(s: &[u8], pos: usize) -> (r: Result<(Self, usize), Error>) {
        let mut h: Vec<u8> = Vec::new();
        msgpack::enc_fixmap_header(&mut h, 2);
        push_field_latest_key_id(&mut h);
        proof {
            assert(h@ =~= msgpack::enc_fixmap_header_spec(2) + field_latest_key_id());
        }
        let p0 = match msgpack::dec_expect(s, pos, h.as_slice()) {
            Ok(p) => p,
            Err(e) => {
                return Err(e);
            },
        };
        let (latest, p1) = match <MVReg<u128> as Codec>::decode(s, p0) {
            Ok(x) => x,
            Err(e) => {
                return Err(e);
            },
        };
        let mut f2: Vec<u8> = Vec::new();
        push_field_keys(&mut f2);
        proof {
            assert(f2@ =~= field_keys());
        }
        let p2 = match msgpack::dec_expect(s, p1, f2.as_slice()) {
            Ok(p) => p,
            Err(e) => {
                return Err(e);
            },
        };
        let (ks, p3) = match <KeySet as Codec>::decode(s, p2) {
            Ok(x) => x,
            Err(e) => {
                return Err(e);
            },
        };
        Ok((Keys { latest_key_id: latest, keys: ks }, p3))
    }

    fn is_valid(&self) -> (r: bool) {
        self.latest_key_id.is_valid() && self.keys.is_valid()
    }
}

/// The version tag of the envelope's serialized registry.
pub const ENVELOPE_VERSION: u128 = 0xe69cb68e_7fbb_41aa_8d22_87eace7a04c9;

/// The reference envelope capability: serializes the key registry into
/// its own framed register and decodes it back out.  The asymmetric
/// wrapping layer for recipients would stand between the two; this
/// handler passes the serialized registry through unchanged.
#[derive(Debug)]
pub struct KeyHandler {
    remote_meta: MVReg<VersionBytes>,
}

impl KeyHandler {
    pub fn new() -> (r: KeyHandler) {
        KeyHandler { remote_meta: MVReg::new() }
    }
}

/// The supported envelope versions, sorted ascending.
fn envelope_versions() -> (r: Vec<u128>)
    ensures
        r@ == seq![ENVELOPE_VERSION],
        crate::utils::version_bytes::sorted_ascending(r@),
{
    let mut r: Vec<u128> = Vec::new();
    r.push(ENVELOPE_VERSION);
    proof {
        assert(r@ =~= seq![ENVELOPE_VERSION]);
    }
    r
}

impl KeyCryptor for KeyHandler {
    fn set_info(&mut self, info: &crate::Info) -> (r: Result<(), Error>) {
        Ok(())
    }

    fn set_remote_meta(&mut self, data: Option<&MVReg<VersionBytes>>) -> (r: Result<
        Option<ReadCtx<Keys>>,
        Error,
    >) {
        if !self.remote_meta.is_valid() {
            return Err(Error::Integrity);
        }
        match data {
            Some(reg) => {
                self.remote_meta.merge_with(reg.deep_clone());
            },
            None => {},
        }
        let supported = envelope_versions();
        let ctx = match crate::utils::decode_version_bytes_mvreg(
            &self.remote_meta,
            supported.as_slice(),
        ) {
            Ok(c) => c,
            Err(e) => {
                return Err(e);
            },
        };
        Ok(Some(ctx))
    }

    fn set_keys(&mut self, keys: Keys, actor: u128) -> (r: Result<MVReg<VersionBytes>, Error>) {
        if !self.remote_meta.is_valid() {
            return Err(Error::Integrity);
        }
        let rctx = self.remote_meta.read_ctx();
        match crate::utils::encode_version_bytes_mvreg(
            &mut self.remote_meta,
            rctx.with_val(keys),
            actor,
            ENVELOPE_VERSION,
        ) {
            Ok(()) => {},
            Err(e) => {
                return Err(e);
            },
        }
        Ok(self.remote_meta.deep_clone())
    }
}

/// The reading three merged key sets give, whatever the grouping: the
/// leftmost side holding the id wins.
pub open spec fn kunion3_get(
    a: Seq<KeyView>,
    b: Seq<KeyView>,
    c: Seq<KeyView>,
    id: u128,
) -> Option<KeyView> {
    match kget(a, id) {
        Some(k) => Some(k),
        None => kunion_get(b, c, id),
    }
}

/// Merging coherent registries is associative: whichever pair merges
/// first, the final key set is the same sorted set and the final register
/// holds the same set of writes, so the same latest key is designated.
pub proof fn lemma_keys_merge_associative(
    a: KeysView,
    b: KeysView,
    c: KeysView,
    ab: KeysView,
    bc: KeysView,
    abc1: KeysView,
    abc2: KeysView,
)
    requires
        mvreg_wf(a.latest),
        mvreg_wf(b.latest),
        mvreg_wf(c.latest),
        keys_wf(a.keys),
        keys_wf(b.keys),
        keys_wf(c.keys),
        crate::crdt::mvreg::mvreg_coherent(a.latest, b.latest),
        crate::crdt::mvreg::mvreg_coherent(a.latest, c.latest),
        crate::crdt::mvreg::mvreg_coherent(b.latest, c.latest),
        // ab is a merge of a and b; bc of b and c
        ab.latest == crate::crdt::mvreg::mvreg_merged(a.latest, b.latest),
        keys_wf(ab.keys),
        forall|id: u128| #[trigger] kget(ab.keys, id) == kunion_get(a.keys, b.keys, id),
        bc.latest == crate::crdt::mvreg::mvreg_merged(b.latest, c.latest),
        keys_wf(bc.keys),
        forall|id: u128| #[trigger] kget(bc.keys, id) == kunion_get(b.keys, c.keys, id),
        // the two groupings
        abc1.latest == crate::crdt::mvreg::mvreg_merged(ab.latest, c.latest),
        keys_wf(abc1.keys),
        forall|id: u128| #[trigger] kget(abc1.keys, id) == kunion_get(ab.keys, c.keys, id),
        abc2.latest == crate::crdt::mvreg::mvreg_merged(a.latest, bc.latest),
        keys_wf(abc2.keys),
        forall|id: u128| #[trigger] kget(abc2.keys, id) == kunion_get(a.keys, bc.keys, id),
    ensures
        abc1.keys == abc2.keys,
        abc1.latest.to_set() == abc2.latest.to_set(),
{
    assert forall|id: u128| #![trigger kget(abc1.keys, id)]
        kget(abc1.keys, id) == kget(abc2.keys, id) by {
        assert(kget(abc1.keys, id) == kunion_get(ab.keys, c.keys, id));
        assert(kget(abc2.keys, id) == kunion_get(a.keys, bc.keys, id));
        assert(kunion_get(ab.keys, c.keys, id) == kunion3_get(a.keys, b.keys, c.keys, id));
        assert(kunion_get(a.keys, bc.keys, id) == kunion3_get(a.keys, b.keys, c.keys, id));
    }
    lemma_keys_canonical(abc1.keys, abc2.keys);
    crate::crdt::mvreg::lemma_mvreg_merge_associative(a.latest, b.latest, c.latest);
}

/// Registries with the same key set and the same set of register writes
/// designate the same latest key; with the merge laws, any merge order
/// converges to one designation.
pub proof fn lemma_latest_agrees(x: KeysView, y: KeysView)
    requires
        x.keys == y.keys,
        x.latest.to_set() == y.latest.to_set(),
    ensures
        keys_latest_spec(x) == keys_latest_spec(y),
{
    assert forall|id: u128| #![trigger reg_has(x.latest, id)]
        reg_has(x.latest, id) <==> reg_has(y.latest, id) by {
        if reg_has(x.latest, id) {
            let i = choose|i: int| 0 <= i < x.latest.len() && (#[trigger] x.latest[i]).1 == id;
            assert(x.latest.to_set().contains(x.latest[i]));
            assert(y.latest.contains(x.latest[i]));
            let j = choose|j: int| 0 <= j < y.latest.len() && y.latest[j] == x.latest[i];
            assert(y.latest[j].1 == id);
        }
        if reg_has(y.latest, id) {
            let i = choose|i: int| 0 <= i < y.latest.len() && (#[trigger] y.latest[i]).1 == id;
            assert(y.latest.to_set().contains(y.latest[i]));
            assert(x.latest.contains(y.latest[i]));
            let j = choose|j: int| 0 <= j < x.latest.len() && x.latest[j] == y.latest[i];
            assert(x.latest[j].1 == id);
        }
    }
    lemma_latest_determined_by_candidates(x, y);
}

} // verus!
