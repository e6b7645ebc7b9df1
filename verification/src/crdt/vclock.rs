//! A vector clock: a per-actor monotone counter map.
//!
//! The clock is kept in canonical form: entries sorted by actor, every
//! counter at least one.  Two well-formed clocks that agree on every actor
//! are therefore equal, which is what makes the merge laws equalities
//! rather than mere equivalences.

use vstd::prelude::*;

use crate::crdt::DeepClone;
use crate::error::Error;
use crate::msgpack;
use crate::msgpack::Codec;

verus! {

/// The counter for `actor` in an entry sequence; zero when absent.
pub open spec fn seq_get(s: Seq<(u128, u64)>, actor: u128) -> u64
    decreases s.len(),
{
    if s.len() == 0 {
        0
    } else if s.last().0 == actor {
        s.last().1
    } else {
        seq_get(s.drop_last(), actor)
    }
}

/// Canonical form of an entry sequence: sorted strictly by actor, all
/// counters positive.
pub open spec fn entries_wf(s: Seq<(u128, u64)>) -> bool {
    &&& forall|i: int, j: int| 0 <= i < j < s.len() ==> (#[trigger] s[i]).0 < (#[trigger] s[j]).0
    &&& forall|i: int| 0 <= i < s.len() ==> (#[trigger] s[i]).1 >= 1
}

/// An actor absent from the entries reads zero.
pub proof fn lemma_seq_get_absent(s: Seq<(u128, u64)>, actor: u128)
    requires
        forall|i: int| 0 <= i < s.len() ==> (#[trigger] s[i]).0 != actor,
    ensures
        seq_get(s, actor) == 0,
    decreases s.len(),
{
    if s.len() > 0 {
        lemma_seq_get_absent(s.drop_last(), actor);
    }
}

/// An actor whose entry has no later duplicate reads its entry value.
pub proof fn lemma_seq_get_present(s: Seq<(u128, u64)>, i: int)
    requires
        0 <= i < s.len(),
        forall|j: int| i < j < s.len() ==> (#[trigger] s[j]).0 != s[i].0,
    ensures
        seq_get(s, s[i].0) == s[i].1,
    decreases s.len(),
{
    if i + 1 == s.len() {
    } else {
        assert(s.last().0 != s[i].0);
        lemma_seq_get_present(s.drop_last(), i);
    }
}

/// A positive reading implies a matching entry.
pub proof fn lemma_seq_get_positive(s: Seq<(u128, u64)>, actor: u128)
    requires
        seq_get(s, actor) >= 1,
    ensures
        exists|i: int| 0 <= i < s.len() && (#[trigger] s[i]).0 == actor,
{
    if forall|i: int| 0 <= i < s.len() ==> (#[trigger] s[i]).0 != actor {
        lemma_seq_get_absent(s, actor);
    }
}

/// Updating the counter of a uniquely-held actor changes only that
/// actor's reading.
pub proof fn lemma_seq_get_update(s: Seq<(u128, u64)>, i: int, c: u64)
    requires
        0 <= i < s.len(),
        forall|j: int| i < j < s.len() ==> (#[trigger] s[j]).0 != s[i].0,
    ensures
        seq_get(s.update(i, (s[i].0, c)), s[i].0) == c,
        forall|x: u128| x != s[i].0 ==> seq_get(s.update(i, (s[i].0, c)), x) == seq_get(s, x),
    decreases s.len(),
{
    let t = s.update(i, (s[i].0, c));
    let actor = s[i].0;
    if i + 1 == s.len() {
        assert(t.last() == (actor, c));
        assert(t.drop_last() =~= s.drop_last());
        assert forall|x: u128| x != actor implies seq_get(t, x) == seq_get(s, x) by {
            assert(seq_get(t, x) == seq_get(t.drop_last(), x));
            assert(seq_get(s, x) == seq_get(s.drop_last(), x));
        }
    } else {
        assert(t.last() == s.last());
        assert(s.drop_last()[i] == s[i]);
        assert(t.drop_last() =~= s.drop_last().update(i, (actor, c)));
        lemma_seq_get_update(s.drop_last(), i, c);
        assert(s.last().0 != actor);
        assert(seq_get(t, actor) == seq_get(t.drop_last(), actor));
        assert(seq_get(t, actor) == c);
        assert forall|x: u128| x != actor implies seq_get(t, x) == seq_get(s, x) by {
            if s.last().0 == x {
                assert(seq_get(t, x) == t.last().1);
                assert(seq_get(s, x) == s.last().1);
            } else {
                assert(seq_get(t, x) == seq_get(t.drop_last(), x));
                assert(seq_get(s, x) == seq_get(s.drop_last(), x));
                assert(seq_get(t.drop_last(), x) == seq_get(s.drop_last(), x));
            }
        }
    }
}

/// Inserting a fresh actor leaves every other reading unchanged.
pub proof fn lemma_seq_get_insert(s: Seq<(u128, u64)>, i: int, actor: u128, c: u64)
    requires
        0 <= i <= s.len(),
        forall|j: int| 0 <= j < s.len() ==> (#[trigger] s[j]).0 != actor,
    ensures
        seq_get(s.insert(i, (actor, c)), actor) == c,
        forall|x: u128| x != actor ==> seq_get(s.insert(i, (actor, c)), x) == seq_get(s, x),
    decreases s.len(),
{
    let t = s.insert(i, (actor, c));
    if i == s.len() {
        assert(t.last() == (actor, c));
        assert(t.drop_last() =~= s);
        assert forall|x: u128| x != actor implies seq_get(t, x) == seq_get(s, x) by {
            assert(seq_get(t, x) == seq_get(t.drop_last(), x));
        }
    } else {
        assert(t.last() == s.last());
        assert(t.drop_last() =~= s.drop_last().insert(i, (actor, c)));
        lemma_seq_get_insert(s.drop_last(), i, actor, c);
        assert(s.last().0 != actor);
        assert(seq_get(t, actor) == seq_get(t.drop_last(), actor));
        assert(seq_get(t, actor) == c);
        assert forall|x: u128| x != actor implies seq_get(t, x) == seq_get(s, x) by {
            if s.last().0 == x {
                assert(seq_get(t, x) == t.last().1);
                assert(seq_get(s, x) == s.last().1);
            } else {
                assert(seq_get(t, x) == seq_get(t.drop_last(), x));
                assert(seq_get(s, x) == seq_get(s.drop_last(), x));
                assert(seq_get(t.drop_last(), x) == seq_get(s.drop_last(), x));
            }
        }
    }
}

/// Two canonical entry sequences with the same readings are equal.
pub proof fn lemma_canonical(s: Seq<(u128, u64)>, t: Seq<(u128, u64)>)
    requires
        entries_wf(s),
        entries_wf(t),
        forall|x: u128| #![trigger seq_get(s, x)] seq_get(s, x) == seq_get(t, x),
    ensures
        s == t,
    decreases s.len() + t.len(),
{
    if s.len() == 0 {
        if t.len() > 0 {
            let b = t.last().0;
            lemma_seq_get_present(t, t.len() - 1);
            lemma_seq_get_absent(s, b);
        }
        assert(s =~= t);
    } else if t.len() == 0 {
        let a = s.last().0;
        lemma_seq_get_present(s, s.len() - 1);
        lemma_seq_get_absent(t, a);
        assert(s =~= t);
    } else {
        let a = s.last().0;
        let b = t.last().0;
        lemma_seq_get_present(s, s.len() - 1);
        lemma_seq_get_present(t, t.len() - 1);
        if a != b {
            if a < b {
                // b reads positive in t, so also in s, yet s's largest actor is a < b
                lemma_seq_get_positive(s, b);
                let i = choose|i: int| 0 <= i < s.len() && (#[trigger] s[i]).0 == b;
                assert(s[i].0 <= a);
                assert(false);
            } else {
                lemma_seq_get_positive(t, a);
                let i = choose|i: int| 0 <= i < t.len() && (#[trigger] t[i]).0 == a;
                assert(t[i].0 <= b);
                assert(false);
            }
        }
        assert(s.last().1 == seq_get(s, a));
        assert(t.last().1 == seq_get(t, a));
        assert(s.last() == t.last());
        let s1 = s.drop_last();
        let t1 = t.drop_last();
        assert forall|x: u128| #![trigger seq_get(s1, x)] seq_get(s1, x) == seq_get(t1, x) by {
            if x == a {
                lemma_seq_get_absent(s1, a);
                lemma_seq_get_absent(t1, a);
            } else {
                assert(seq_get(s, x) == seq_get(s1, x));
                assert(seq_get(t, x) == seq_get(t1, x));
            }
        }
        lemma_canonical(s1, t1);
        assert(s.len() == t.len());
        assert forall|k: int| 0 <= k < s.len() implies s[k] == t[k] by {
            if k < s.len() - 1 {
                assert(s[k] == s1[k]);
                assert(t[k] == t1[k]);
            }
        }
        assert(s =~= t);
    }
}

/// `a` reads no later than `b` at every actor.
pub open spec fn le_seq(a: Seq<(u128, u64)>, b: Seq<(u128, u64)>) -> bool {
    forall|x: u128| #![trigger seq_get(a, x)] seq_get(a, x) <= seq_get(b, x)
}

/// `a` is strictly dominated by `b`.
pub open spec fn lt_seq(a: Seq<(u128, u64)>, b: Seq<(u128, u64)>) -> bool {
    le_seq(a, b) && !le_seq(b, a)
}

/// Inserting a fresh actor at its sorted position keeps canonical form.
pub proof fn lemma_insert_wf(s: Seq<(u128, u64)>, i: int, actor: u128, c: u64)
    requires
        entries_wf(s),
        c >= 1,
        0 <= i <= s.len(),
        forall|j: int| 0 <= j < i ==> (#[trigger] s[j]).0 < actor,
        forall|j: int| i <= j < s.len() ==> (#[trigger] s[j]).0 > actor,
    ensures
        entries_wf(s.insert(i, (actor, c))),
{
    let t = s.insert(i, (actor, c));
    assert forall|p: int, q: int| 0 <= p < q < t.len() implies (#[trigger] t[p]).0 < (
    #[trigger] t[q]).0 by {
        if p < i && q < i {
        } else if p < i && q == i {
        } else if p < i && q > i {
            assert(t[q] == s[q - 1]);
        } else if p == i {
            assert(t[q] == s[q - 1]);
        } else {
            assert(t[p] == s[p - 1]);
            assert(t[q] == s[q - 1]);
        }
    }
    assert(forall|p: int| 0 <= p < t.len() ==> (#[trigger] t[p]).1 >= 1);
}

/// A per-actor monotone counter map, kept sorted by actor.
#[derive(Debug, Clone)]
pub struct VClock {
    entries: Vec<(u128, u64)>,
}

impl View for VClock {
    type V = Seq<(u128, u64)>;

    closed spec fn view(&self) -> Seq<(u128, u64)> {
        self.entries@
    }
}

impl DeepClone for VClock {
    fn deep_clone(&self) -> (r: Self)
        ensures
            r@ == self@,
    {
        let mut entries: Vec<(u128, u64)> = Vec::new();
        let mut i: usize = 0;
        while i < self.entries.len()
            invariant
                i <= self.entries@.len(),
                entries@ == self.entries@.take(i as int),
            decreases self.entries@.len() - i,
        {
            entries.push(self.entries[i]);
            proof {
                assert(entries@ =~= self.entries@.take(i + 1));
            }
            i = i + 1;
        }
        proof {
            assert(entries@ =~= self.entries@);
        }
        VClock { entries }
    }
}

impl VClock {
    /// Canonical form: sorted strictly by actor, all counters positive.
    pub open spec fn wf(self) -> bool {
        entries_wf(self@)
    }

    /// The counter for `actor`; zero when the clock has not seen it.
    pub open spec fn get_spec(self, actor: u128) -> u64 {
        seq_get(self@, actor)
    }

    /// `self` is causally no later than `other` at every actor.
    pub open spec fn le_spec(self, other: VClock) -> bool {
        le_seq(self@, other@)
    }

    /// `self` is strictly dominated by `other`.
    pub open spec fn lt_spec(self, other: VClock) -> bool {
        lt_seq(self@, other@)
    }

    /// `self` and `other` agree at every actor.
    pub open spec fn same_spec(self, other: VClock) -> bool {
        forall|x: u128| #![trigger self.get_spec(x)] self.get_spec(x) == other.get_spec(x)
    }

    /// Two well-formed clocks with the same readings are equal.
    pub proof fn lemma_canonical_clock(self, other: VClock)
        requires
            self.wf(),
            other.wf(),
            self.same_spec(other),
        ensures
            self@ == other@,
    {
        assert forall|x: u128| #![trigger seq_get(self@, x)]
            seq_get(self@, x) == seq_get(other@, x) by {
            assert(self.get_spec(x) == other.get_spec(x));
        }
        lemma_canonical(self@, other@);
    }

    /// The empty clock.
    pub fn new() -> (r: VClock)
        ensures
            r.wf(),
            r@.len() == 0,
            forall|x: u128| r.get_spec(x) == 0,
    {
        VClock { entries: Vec::new() }
    }

    /// The entries, sorted by actor: one `(actor, counter)` dot each.
    pub fn entries(&self) -> (r: &Vec<(u128, u64)>)
        ensures
            r@ == self@,
    {
        &self.entries
    }

    /// The counter for `actor`; zero when the clock has not seen it.
    pub fn get(&self, actor: u128) -> (r: u64)
        requires
            self.wf(),
        ensures
            r == self.get_spec(actor),
    {
        let n = self.entries.len();
        let mut i: usize = 0;
        while i < n
            invariant
                i <= n,
                n == self@.len(),
                self.wf(),
                forall|j: int| 0 <= j < i ==> (#[trigger] self@[j]).0 != actor,
            decreases n - i,
        {
            let (a, c) = self.entries[i];
            if a == actor {
                proof {
                    lemma_seq_get_present(self@, i as int);
                }
                return c;
            }
            i = i + 1;
        }
        proof {
            lemma_seq_get_absent(self@, actor);
        }
        0
    }

    /// Records `counter` for `actor` when it is ahead of what the clock
    /// already holds; otherwise leaves the clock unchanged.
    pub fn apply_dot(&mut self, actor: u128, counter: u64)
        requires
            old(self).wf(),
            counter >= 1,
        ensures
            final(self).wf(),
            final(self).get_spec(actor) == if counter > old(self).get_spec(actor) {
                counter
            } else {
                old(self).get_spec(actor)
            },
            forall|x: u128| x != actor ==> final(self).get_spec(x) == old(self).get_spec(x),
    {
        let ghost pre = *self;
        let n = self.entries.len();
        let mut i: usize = 0;
        while i < n && self.entries[i].0 < actor
            invariant
                i <= n,
                n == self@.len(),
                *self == pre,
                forall|j: int| 0 <= j < i ==> (#[trigger] self@[j]).0 < actor,
            decreases n - i,
        {
            i = i + 1;
        }
        if i < self.entries.len() {
            let (a, c) = self.entries[i];
            if a == actor {
                proof {
                    lemma_seq_get_present(pre@, i as int);
                }
                if counter > c {
                    self.entries[i] = (actor, counter);
                    proof {
                        lemma_seq_get_update(pre@, i as int, counter);
                    }
                }
                return ;
            }
            proof {
                assert(a > actor);
                assert forall|j: int|
                    (i as int) <= j < pre@.len() implies (#[trigger] pre@[j]).0 > actor by {
                    if j > i {
                        assert(pre@[i as int].0 < pre@[j].0);
                    }
                }
                assert(forall|j: int|
                    0 <= j < pre@.len() ==> (#[trigger] pre@[j]).0 != actor);
                lemma_seq_get_absent(pre@, actor);
            }
            self.entries.insert(i, (actor, counter));
            proof {
                lemma_seq_get_insert(pre@, i as int, actor, counter);
                lemma_insert_wf(pre@, i as int, actor, counter);
            }
            return ;
        }
        proof {
            assert(forall|j: int| 0 <= j < pre@.len() ==> (#[trigger] pre@[j]).0 != actor);
            lemma_seq_get_absent(pre@, actor);
        }
        self.entries.insert(i, (actor, counter));
        proof {
            lemma_seq_get_insert(pre@, i as int, actor, counter);
            lemma_insert_wf(pre@, i as int, actor, counter);
        }
    }

    /// Advances the actor's counter by one.
    pub fn increment(&mut self, actor: u128)
        requires
            old(self).wf(),
            old(self).get_spec(actor) < u64::MAX,
        ensures
            final(self).wf(),
            final(self).get_spec(actor) == old(self).get_spec(actor) + 1,
            forall|x: u128| x != actor ==> final(self).get_spec(x) == old(self).get_spec(x),
    {
        let next = self.get(actor) + 1;
        self.apply_dot(actor, next);
    }

    /// Merges `other` in: the pointwise maximum of the two clocks.
    pub fn merge(&mut self, other: &VClock)
        requires
            old(self).wf(),
            other.wf(),
        ensures
            final(self).wf(),
            forall|x: u128|
                #![trigger final(self).get_spec(x)]
                final(self).get_spec(x) == if old(self).get_spec(x) >= other.get_spec(x) {
                    old(self).get_spec(x)
                } else {
                    other.get_spec(x)
                },
    {
        let ghost pre = *self;
        let n = other.entries.len();
        let mut i: usize = 0;
        while i < n
            invariant
                i <= n,
                n == other@.len(),
                other.wf(),
                self.wf(),
                forall|x: u128|
                    #![trigger self.get_spec(x)]
                    self.get_spec(x) == if pre.get_spec(x) >= seq_get(other@.take(i as int), x) {
                        pre.get_spec(x)
                    } else {
                        seq_get(other@.take(i as int), x)
                    },
            decreases n - i,
        {
            let (a, c) = other.entries[i];
            proof {
                assert(other@[i as int].1 >= 1);
                // a is not in the prefix, so its prefix reading is zero
                assert(forall|j: int|
                    0 <= j < i ==> (#[trigger] other@.take(i as int)[j]).0 != a);
                lemma_seq_get_absent(other@.take(i as int), a);
            }
            self.apply_dot(a, c);
            proof {
                let t1 = other@.take(i + 1);
                assert(t1.last() == other@[i as int]);
                assert(t1.drop_last() =~= other@.take(i as int));
                assert forall|x: u128| #![trigger seq_get(t1, x)]
                    seq_get(t1, x) == if x == a {
                        c
                    } else {
                        seq_get(other@.take(i as int), x)
                    } by {}
            }
            i = i + 1;
        }
        proof {
            assert(other@.take(n as int) =~= other@);
        }
    }

    /// True exactly when `self` is causally no later than `other`.
    pub fn le(&self, other: &VClock) -> (r: bool)
        requires
            self.wf(),
            other.wf(),
        ensures
            r <==> self.le_spec(*other),
    {
        let n = self.entries.len();
        let mut i: usize = 0;
        while i < n
            invariant
                i <= n,
                n == self@.len(),
                self.wf(),
                other.wf(),
                forall|j: int|
                    0 <= j < i ==> (#[trigger] self@[j]).1 <= other.get_spec(self@[j].0),
            decreases n - i,
        {
            let (a, c) = self.entries[i];
            if c > other.get(a) {
                proof {
                    lemma_seq_get_present(self@, i as int);
                    assert(seq_get(self@, a) > seq_get(other@, a));
                }
                return false;
            }
            i = i + 1;
        }
        proof {
            assert forall|x: u128| #![trigger seq_get(self@, x)]
                seq_get(self@, x) <= seq_get(other@, x) by {
                if seq_get(self@, x) >= 1 {
                    lemma_seq_get_positive(self@, x);
                    let j = choose|j: int| 0 <= j < self@.len() && (#[trigger] self@[j]).0 == x;
                    assert(forall|k: int| j < k < self@.len() ==> (#[trigger] self@[k]).0 != x);
                    lemma_seq_get_present(self@, j);
                }
            }
        }
        true
    }
}


/// Adjacent order over the whole sequence implies the global order.
pub proof fn lemma_adjacent_sorted(s: Seq<(u128, u64)>, i: int, j: int)
    requires
        forall|k: int| 0 < k < s.len() ==> (#[trigger] s[k]).0 > s[k - 1].0,
        0 <= i < j < s.len(),
    ensures
        s[i].0 < s[j].0,
    decreases j - i,
{
    if i + 1 < j {
        lemma_adjacent_sorted(s, i, j - 1);
    }
}

/// True exactly when the entry vector is in canonical form.
pub fn check_entries_wf(entries: &Vec<(u128, u64)>) -> (r: bool)
    ensures
        r <==> entries_wf(entries@),
{
    let n = entries.len();
    let mut i: usize = 0;
    while i < n
        invariant
            i <= n,
            n == entries@.len(),
            forall|k: int| 0 < k < i ==> (#[trigger] entries@[k]).0 > entries@[k - 1].0,
            forall|k: int| 0 <= k < i ==> (#[trigger] entries@[k]).1 >= 1,
        decreases n - i,
    {
        let (a, c) = entries[i];
        if c < 1 {
            proof {
                assert(!entries_wf(entries@)) by {
                    assert(entries@[i as int].1 < 1);
                }
            }
            return false;
        }
        if i > 0 {
            let (prev, _) = entries[i - 1];
            if a <= prev {
                proof {
                    assert(!entries_wf(entries@)) by {
                        assert(entries@[i - 1].0 >= entries@[i as int].0);
                    }
                }
                return false;
            }
        }
        i = i + 1;
    }
    proof {
        assert forall|p: int, q: int|
            0 <= p < q < entries@.len() implies (#[trigger] entries@[p]).0 < (
        #[trigger] entries@[q]).0 by {
            lemma_adjacent_sorted(entries@, p, q);
        }
    }
    true
}

/// A vector clock is a collection of `(actor, counter)` pairs, accepted
/// only in canonical form.
impl Codec for VClock {
    open spec fn enc_of(m: Seq<(u128, u64)>) -> Seq<u8> {
        msgpack::enc_list_of::<(u128, u64)>(m)
    }

    open spec fn dec_of(s: Seq<u8>, pos: int) -> Option<(Seq<(u128, u64)>, int)> {
        match msgpack::dec_list_of::<(u128, u64)>(s, pos) {
            Some((es, end)) => if entries_wf(es) {
                Some((es, end))
            } else {
                None
            },
            None => None,
        }
    }

    open spec fn valid_of(m: Seq<(u128, u64)>) -> bool {
        entries_wf(m) && m.len() <= u32::MAX
    }

    proof fn lemma_enc_len(m: Seq<(u128, u64)>) {
        assert(Self::enc_of(m).len() >= 5);
    }

    proof fn lemma_dec_progress(s: Seq<u8>, pos: int) {
        msgpack::lemma_dec_list_progress::<(u128, u64)>(s, pos);
    }

    proof fn lemma_enc_dec(m: Seq<(u128, u64)>, s: Seq<u8>, pos: int) {
        msgpack::lemma_enc_dec_list::<(u128, u64)>(m, s, pos);
    }

    fn encode(&self, out: &mut Vec<u8>) {
        msgpack::enc_list::<(u128, u64)>(out, &self.entries);
        proof {
            assert(msgpack::views_of(self.entries@) =~= self.entries@);
        }
    }

    fn decode(s: &[u8], pos: usize) -> (r: Result<(Self, usize), Error>) {
        let (entries, end) = match msgpack::dec_list::<(u128, u64)>(s, pos) {
            Ok(x) => x,
            Err(e) => {
                return Err(e);
            },
        };
        proof {
            assert(msgpack::views_of(entries@) =~= entries@);
        }
        if !check_entries_wf(&entries) {
            return Err(Error::Serialization);
        }
        Ok((VClock { entries }, end))
    }

    fn is_valid(&self) -> (r: bool) {
        if self.entries.len() as u64 > u32::MAX as u64 {
            return false;
        }
        check_entries_wf(&self.entries)
    }
}

} // verus!
