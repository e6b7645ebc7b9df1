//! A multi-value register keyed by actor.
//!
//! Every write carries the vector clock derived from the writer's read
//! context.  The register keeps all concurrent writes; a write whose clock
//! strictly dominates another replaces it.  Merging keeps every value of
//! either side that the other side has not dominated.

use vstd::prelude::*;

use crate::crdt::vclock::{
    check_entries_wf, entries_wf, le_seq, lt_seq, seq_get, VClock,
};
use crate::crdt::{AddCtx, CmCrdt, CvCrdt, DeepClone, ReadCtx};
use crate::error::Error;
use crate::msgpack;
use crate::msgpack::Codec;

verus! {

/// Every stored clock is canonical, and no stored clock is causally no
/// later than another: the stored writes are pairwise concurrent.
pub open spec fn mvreg_wf<VV>(m: Seq<(Seq<(u128, u64)>, VV)>) -> bool {
    &&& forall|i: int| 0 <= i < m.len() ==> entries_wf((#[trigger] m[i]).0)
    &&& forall|i: int, j: int|
        0 <= i < m.len() && 0 <= j < m.len() && i != j ==> !le_seq(
            (#[trigger] m[i]).0,
            (#[trigger] m[j]).0,
        )
}

/// Some stored clock is at least `c`: the write `c` is already covered.
pub open spec fn covered_le<VV>(c: Seq<(u128, u64)>, m: Seq<(Seq<(u128, u64)>, VV)>) -> bool {
    exists|j: int| 0 <= j < m.len() && le_seq(c, (#[trigger] m[j]).0)
}

/// Some stored clock strictly dominates `c`.
pub open spec fn dominated_lt<VV>(c: Seq<(u128, u64)>, m: Seq<(Seq<(u128, u64)>, VV)>) -> bool {
    exists|j: int| 0 <= j < m.len() && lt_seq(c, (#[trigger] m[j]).0)
}

/// Keeps the writes whose clock is not at most `c`.
pub open spec fn pred_not_le<VV>(c: Seq<(u128, u64)>) -> spec_fn((Seq<(u128, u64)>, VV)) -> bool {
    |e: (Seq<(u128, u64)>, VV)| !le_seq(e.0, c)
}

/// Keeps the writes that `b` does not strictly dominate.
pub open spec fn pred_not_dominated<VV>(b: Seq<(Seq<(u128, u64)>, VV)>) -> spec_fn(
    (Seq<(u128, u64)>, VV),
) -> bool {
    |e: (Seq<(u128, u64)>, VV)| !dominated_lt(e.0, b)
}

/// Keeps the writes that `a` does not already cover.
pub open spec fn pred_not_covered<VV>(a: Seq<(Seq<(u128, u64)>, VV)>) -> spec_fn(
    (Seq<(u128, u64)>, VV),
) -> bool {
    |e: (Seq<(u128, u64)>, VV)| !covered_le(e.0, a)
}

/// The merge of two registers: the writes of `a` not strictly dominated by
/// `b`, then the writes of `b` not covered by `a`.  Covering rather than
/// strict domination on the second side drops the writes both sides share.
pub closed spec fn mvreg_merged<VV>(
    a: Seq<(Seq<(u128, u64)>, VV)>,
    b: Seq<(Seq<(u128, u64)>, VV)>,
) -> Seq<(Seq<(u128, u64)>, VV)> {
    a.filter(pred_not_dominated(b)) + b.filter(pred_not_covered(a))
}

/// One write applied to a register: a covered write changes nothing;
/// otherwise it displaces every write it dominates.
pub closed spec fn mvreg_applied<VV>(
    m: Seq<(Seq<(u128, u64)>, VV)>,
    op: (Seq<(u128, u64)>, VV),
) -> Seq<(Seq<(u128, u64)>, VV)> {
    if covered_le(op.0, m) {
        m
    } else {
        m.filter(pred_not_le(op.0)).push(op)
    }
}

/// The join of all stored clocks, read at `x`.
pub open spec fn join_get<VV>(m: Seq<(Seq<(u128, u64)>, VV)>, x: u128) -> u64
    decreases m.len(),
{
    if m.len() == 0 {
        0
    } else {
        let rest = join_get(m.drop_last(), x);
        let last = seq_get(m.last().0, x);
        if last >= rest {
            last
        } else {
            rest
        }
    }
}

/// A register value: one concurrent write per entry.
#[derive(Debug, Clone)]
pub struct MVReg<V> {
    vals: Vec<(VClock, V)>,
}

/// The operation of the register: one write under its derived clock.
#[derive(Debug, Clone)]
pub enum MVRegOp<V> {
    Put { clock: VClock, val: V },
}

impl<V: View> View for MVReg<V> {
    type V = Seq<(Seq<(u128, u64)>, V::V)>;

    closed spec fn view(&self) -> Seq<(Seq<(u128, u64)>, V::V)> {
        msgpack::views_of(self.vals@)
    }
}

impl<V: View> View for MVRegOp<V> {
    type V = (Seq<(u128, u64)>, V::V);

    closed spec fn view(&self) -> (Seq<(u128, u64)>, V::V) {
        match self {
            MVRegOp::Put { clock, val } => (clock@, val@),
        }
    }
}

impl<V: DeepClone> DeepClone for MVReg<V> {
    fn deep_clone(&self) -> (r: Self)
        ensures
            r@ == self@,
    {
        let mut vals: Vec<(VClock, V)> = Vec::new();
        let mut i: usize = 0;
        while i < self.vals.len()
            invariant
                i <= self.vals@.len(),
                vals@.len() == i,
                forall|k: int| 0 <= k < i ==> (#[trigger] vals@[k])@ == self.vals@[k]@,
            decreases self.vals@.len() - i,
        {
            let (c, v) = (&self.vals[i].0, &self.vals[i].1);
            vals.push((c.deep_clone(), v.deep_clone()));
            i = i + 1;
        }
        let r = MVReg { vals };
        proof {
            assert(r@ =~= self@);
        }
        r
    }
}

impl<V: View> MVReg<V> {
    /// The empty register.
    pub fn new() -> (r: MVReg<V>)
        ensures
            r@ == Seq::<(Seq<(u128, u64)>, V::V)>::empty(),
    {
        let r = MVReg { vals: Vec::new() };
        proof {
            assert(r@ =~= Seq::<(Seq<(u128, u64)>, V::V)>::empty());
        }
        r
    }
    /// The stored writes: clock and value pairs.
    pub fn vals(&self) -> (r: &Vec<(VClock, V)>)
        ensures
            msgpack::views_of(r@) == self@,
    {
        &self.vals
    }

    /// True exactly when some stored clock is at least `c`.
    pub fn any_covers(&self, c: &VClock) -> (r: bool)
        requires
            mvreg_wf(self@),
            c.wf(),
        ensures
            r <==> covered_le(c@, self@),
    {
        let n = self.vals.len();
        let mut i: usize = 0;
        while i < n
            invariant
                i <= n,
                n == self.vals@.len(),
                mvreg_wf(self@),
                c.wf(),
                self@ == msgpack::views_of(self.vals@),
                forall|j: int| 0 <= j < i ==> !le_seq(c@, (#[trigger] self@[j]).0),
            decreases n - i,
        {
            proof {
                assert(self@[i as int].0 == self.vals@[i as int].0@);
                assert(entries_wf(self@[i as int].0));
            }
            if c.le(&self.vals[i].0) {
                proof {
                    assert(le_seq(c@, self@[i as int].0));
                }
                return true;
            }
            i = i + 1;
        }
        false
    }

    /// True exactly when some stored clock strictly dominates `c`.
    pub fn any_dominates(&self, c: &VClock) -> (r: bool)
        requires
            mvreg_wf(self@),
            c.wf(),
        ensures
            r <==> dominated_lt(c@, self@),
    {
        let n = self.vals.len();
        let mut i: usize = 0;
        while i < n
            invariant
                i <= n,
                n == self.vals@.len(),
                mvreg_wf(self@),
                c.wf(),
                self@ == msgpack::views_of(self.vals@),
                forall|j: int| 0 <= j < i ==> !lt_seq(c@, (#[trigger] self@[j]).0),
            decreases n - i,
        {
            proof {
                assert(self@[i as int].0 == self.vals@[i as int].0@);
                assert(entries_wf(self@[i as int].0));
            }
            if c.le(&self.vals[i].0) && !self.vals[i].0.le(c) {
                proof {
                    assert(lt_seq(c@, self@[i as int].0));
                }
                return true;
            }
            i = i + 1;
        }
        false
    }

    /// Reads the causal context alone: the join of all stored clocks.
    pub fn read_ctx(&self) -> (r: ReadCtx<()>)
        requires
            mvreg_wf(self@),
        ensures
            r.add_clock.wf(),
            r.rm_clock.wf(),
            forall|x: u128|
                #![trigger r.add_clock.get_spec(x)]
                r.add_clock.get_spec(x) == join_get(self@, x),
            forall|x: u128|
                #![trigger r.rm_clock.get_spec(x)]
                r.rm_clock.get_spec(x) == join_get(self@, x),
    {
        let mut clock = VClock::new();
        let n = self.vals.len();
        let mut i: usize = 0;
        while i < n
            invariant
                i <= n,
                n == self.vals@.len(),
                mvreg_wf(self@),
                self@ == msgpack::views_of(self.vals@),
                clock.wf(),
                forall|x: u128|
                    #![trigger clock.get_spec(x)]
                    clock.get_spec(x) == join_get(self@.take(i as int), x),
            decreases n - i,
        {
            proof {
                assert(self@[i as int].0 == self.vals@[i as int].0@);
                assert(entries_wf(self@[i as int].0));
            }
            clock.merge(&self.vals[i].0);
            proof {
                let t1 = self@.take(i + 1);
                assert(t1.drop_last() =~= self@.take(i as int));
                assert(t1.last() == self@[i as int]);
            }
            i = i + 1;
        }
        proof {
            assert(self@.take(n as int) =~= self@);
        }
        let rm_clock = clock.deep_clone();
        proof {
            assert forall|x: u128| #![trigger rm_clock.get_spec(x)]
                rm_clock.get_spec(x) == join_get(self@, x) by {
                assert(clock.get_spec(x) == join_get(self@, x));
            }
        }
        ReadCtx { add_clock: clock, rm_clock, val: () }
    }

    /// Builds the op that writes `val` under the derived context `ctx`.
    pub fn write(&self, val: V, ctx: AddCtx) -> (op: MVRegOp<V>)
        ensures
            op@ == (ctx.clock@, val@),
    {
        MVRegOp::Put { clock: ctx.clock, val }
    }
}

impl<V: DeepClone> MVReg<V> {
    /// Reads all current values together with the causal context.
    pub fn read(&self) -> (r: ReadCtx<Vec<V>>)
        requires
            mvreg_wf(self@),
        ensures
            r.add_clock.wf(),
            forall|x: u128|
                #![trigger r.add_clock.get_spec(x)]
                r.add_clock.get_spec(x) == join_get(self@, x),
            r.val@.len() == self@.len(),
            forall|i: int| 0 <= i < self@.len() ==> (#[trigger] r.val@[i])@ == self@[i].1,
    {
        let ctx = self.read_ctx();
        let mut val: Vec<V> = Vec::new();
        let n = self.vals.len();
        let mut i: usize = 0;
        while i < n
            invariant
                i <= n,
                n == self.vals@.len(),
                self@ == msgpack::views_of(self.vals@),
                val@.len() == i,
                forall|k: int| 0 <= k < i ==> (#[trigger] val@[k])@ == self@[k].1,
            decreases n - i,
        {
            val.push(self.vals[i].1.deep_clone());
            i = i + 1;
        }
        ctx.with_val(val)
    }
}

/// An element of a filtered sequence comes from the original and
/// satisfies the predicate.
pub proof fn lemma_filter_elem_in<A>(s: Seq<A>, pred: spec_fn(A) -> bool, i: int)
    requires
        0 <= i < s.filter(pred).len(),
    ensures
        s.contains(s.filter(pred)[i]),
        pred(s.filter(pred)[i]),
    decreases s.len(),
{
    reveal(Seq::filter);
    if s.len() > 0 {
        let s1 = s.drop_last();
        let f1 = s1.filter(pred);
        if pred(s.last()) {
            if i < f1.len() {
                lemma_filter_elem_in(s1, pred, i);
                let k = choose|k: int| 0 <= k < s1.len() && s1[k] == f1[i];
                assert(s[k] == f1[i]);
            } else {
                assert(s.filter(pred)[i] == s.last());
                assert(s[s.len() - 1] == s.last());
            }
        } else {
            lemma_filter_elem_in(s1, pred, i);
            let k = choose|k: int| 0 <= k < s1.len() && s1[k] == s.filter(pred)[i];
            assert(s[k] == s.filter(pred)[i]);
        }
    }
}

/// Filtering keeps a register well-formed.
pub proof fn lemma_filter_wf<VV>(
    m: Seq<(Seq<(u128, u64)>, VV)>,
    pred: spec_fn((Seq<(u128, u64)>, VV)) -> bool,
)
    requires
        mvreg_wf(m),
    ensures
        mvreg_wf(m.filter(pred)),
{
    let f = m.filter(pred);
    assert forall|i: int| 0 <= i < f.len() implies entries_wf((#[trigger] f[i]).0) by {
        lemma_filter_elem_in(m, pred, i);
        let k = choose|k: int| 0 <= k < m.len() && m[k] == f[i];
        assert(entries_wf(m[k].0));
    }
    assert forall|i: int, j: int|
        0 <= i < f.len() && 0 <= j < f.len() && i != j implies !le_seq(
        (#[trigger] f[i]).0,
        (#[trigger] f[j]).0,
    ) by {
        lemma_filter_elem_in(m, pred, i);
        lemma_filter_elem_in(m, pred, j);
        let ki = choose|k: int| 0 <= k < m.len() && m[k] == f[i];
        let kj = choose|k: int| 0 <= k < m.len() && m[k] == f[j];
        if ki == kj {
            if i < j {
                lemma_filter_distinct(m, pred, i, j);
            } else {
                lemma_filter_distinct(m, pred, j, i);
            }
        } else {
            assert(!le_seq(m[ki].0, m[kj].0));
        }
    }
}

/// In a well-formed register, two distinct filtered positions hold
/// distinct elements: a repeated element would cover itself, and a
/// well-formed register holds no element covered by another position.
proof fn lemma_filter_distinct<VV>(
    m: Seq<(Seq<(u128, u64)>, VV)>,
    pred: spec_fn((Seq<(u128, u64)>, VV)) -> bool,
    i: int,
    j: int,
)
    requires
        mvreg_wf(m),
        0 <= i < j < m.filter(pred).len(),
    ensures
        m.filter(pred)[i] != m.filter(pred)[j],
    decreases m.len(),
{
    reveal(Seq::filter);
    let f = m.filter(pred);
    if m.len() > 0 {
        let m1 = m.drop_last();
        let f1 = m1.filter(pred);
        assert(mvreg_wf(m1));
        if pred(m.last()) {
            if j < f1.len() {
                lemma_filter_distinct(m1, pred, i, j);
            } else {
                // f[j] is m.last(); f[i] comes from the front of m, and
                // every element there is concurrent with m.last()
                assert(f[j] == m.last());
                lemma_filter_elem_in(m1, pred, i);
                assert(f[i] == f1[i]);
                let k = choose|k: int| 0 <= k < m1.len() && m1[k] == f1[i];
                assert(m[k] == f[i]);
                assert(!le_seq(m[k].0, m[m.len() - 1].0));
                if f[i] == f[j] {
                    assert(le_seq(m[k].0, m[k].0));
                }
            }
        } else {
            lemma_filter_distinct(m1, pred, i, j);
        }
    }
}

/// Merging two well-formed registers yields a well-formed register.
pub proof fn lemma_merged_wf<VV>(a: Seq<(Seq<(u128, u64)>, VV)>, b: Seq<(Seq<(u128, u64)>, VV)>)
    requires
        mvreg_wf(a),
        mvreg_wf(b),
    ensures
        mvreg_wf(mvreg_merged(a, b)),
{
    let fa = a.filter(pred_not_dominated(b));
    let fb = b.filter(pred_not_covered(a));
    let f = fa + fb;
    lemma_filter_wf(a, pred_not_dominated(b));
    lemma_filter_wf(b, pred_not_covered(a));
    assert forall|i: int| 0 <= i < f.len() implies entries_wf((#[trigger] f[i]).0) by {
        if i < fa.len() {
            assert(f[i] == fa[i]);
        } else {
            assert(f[i] == fb[i - fa.len()]);
        }
    }
    assert forall|i: int, j: int|
        0 <= i < f.len() && 0 <= j < f.len() && i != j implies !le_seq(
        (#[trigger] f[i]).0,
        (#[trigger] f[j]).0,
    ) by {
        if i < fa.len() && j < fa.len() {
            assert(f[i] == fa[i]);
            assert(f[j] == fa[j]);
        } else if i >= fa.len() && j >= fa.len() {
            assert(f[i] == fb[i - fa.len()]);
            assert(f[j] == fb[j - fa.len()]);
        } else if i < fa.len() && j >= fa.len() {
            assert(f[i] == fa[i]);
            assert(f[j] == fb[j - fa.len()]);
            lemma_filter_elem_in(a, pred_not_dominated(b), i);
            lemma_filter_elem_in(b, pred_not_covered(a), j - fa.len());
            lemma_cross_concurrent(a, b, fa[i], fb[j - fa.len()]);
        } else {
            assert(f[j] == fa[j]);
            assert(f[i] == fb[i - fa.len()]);
            lemma_filter_elem_in(a, pred_not_dominated(b), j);
            lemma_filter_elem_in(b, pred_not_covered(a), i - fa.len());
            lemma_cross_concurrent(a, b, fa[j], fb[i - fa.len()]);
        }
    }
}

/// A write kept from `a` and a write kept from `b` are concurrent.
proof fn lemma_cross_concurrent<VV>(
    a: Seq<(Seq<(u128, u64)>, VV)>,
    b: Seq<(Seq<(u128, u64)>, VV)>,
    e: (Seq<(u128, u64)>, VV),
    g: (Seq<(u128, u64)>, VV),
)
    requires
        a.contains(e),
        b.contains(g),
        pred_not_dominated::<VV>(b)(e),
        pred_not_covered::<VV>(a)(g),
    ensures
        !le_seq(e.0, g.0),
        !le_seq(g.0, e.0),
{
    let ka = choose|k: int| 0 <= k < a.len() && a[k] == e;
    let kb = choose|k: int| 0 <= k < b.len() && b[k] == g;
    if le_seq(g.0, e.0) {
        assert(covered_le(g.0, a)) by {
            assert(le_seq(g.0, a[ka].0));
        }
    }
    if le_seq(e.0, g.0) {
        if le_seq(g.0, e.0) {
        } else {
            assert(dominated_lt(e.0, b)) by {
                assert(lt_seq(e.0, b[kb].0));
            }
        }
    }
}

/// Applying an uncovered, well-formed write keeps the register
/// well-formed.
pub proof fn lemma_applied_wf<VV>(m: Seq<(Seq<(u128, u64)>, VV)>, op: (Seq<(u128, u64)>, VV))
    requires
        mvreg_wf(m),
        entries_wf(op.0),
    ensures
        mvreg_wf(mvreg_applied(m, op)),
{
    if !covered_le(op.0, m) {
        let fm = m.filter(pred_not_le(op.0));
        let f = fm.push(op);
        lemma_filter_wf(m, pred_not_le(op.0));
        assert forall|i: int, j: int|
            0 <= i < f.len() && 0 <= j < f.len() && i != j implies !le_seq(
            (#[trigger] f[i]).0,
            (#[trigger] f[j]).0,
        ) by {
            if i < fm.len() && j < fm.len() {
                assert(f[i] == fm[i]);
                assert(f[j] == fm[j]);
            } else if j == fm.len() {
                assert(f[i] == fm[i]);
                lemma_filter_elem_in(m, pred_not_le(op.0), i);
                assert(!le_seq(fm[i].0, op.0));
            } else {
                assert(f[j] == fm[j]);
                lemma_filter_elem_in(m, pred_not_le(op.0), j);
                let k = choose|k: int| 0 <= k < m.len() && m[k] == fm[j];
                if le_seq(op.0, fm[j].0) {
                    assert(covered_le(op.0, m)) by {
                        assert(le_seq(op.0, m[k].0));
                    }
                }
            }
        }
        assert forall|i: int| 0 <= i < f.len() implies entries_wf((#[trigger] f[i]).0) by {
            if i < fm.len() {
                assert(f[i] == fm[i]);
            }
        }
    }
}

impl<V: Codec + DeepClone> CvCrdt for MVReg<V> {
    open spec fn empty_of() -> Seq<(Seq<(u128, u64)>, V::V)> {
        Seq::empty()
    }

    open spec fn merged_of(
        a: Seq<(Seq<(u128, u64)>, V::V)>,
        b: Seq<(Seq<(u128, u64)>, V::V)>,
    ) -> Seq<(Seq<(u128, u64)>, V::V)> {
        mvreg_merged(a, b)
    }

    open spec fn inv_of(s: Seq<(Seq<(u128, u64)>, V::V)>) -> bool {
        mvreg_wf(s)
    }

    proof fn lemma_valid_state_inv(m: Seq<(Seq<(u128, u64)>, V::V)>) {
    }

    fn new_empty() -> (r: Self) {
        MVReg::new()
    }

    fn merge(&mut self, other: MVReg<V>) {
        self.merge_with(other)
    }
}

impl<V: Codec + DeepClone> CmCrdt for MVReg<V> {
    type Op = MVRegOp<V>;

    open spec fn applied_of(
        s: Seq<(Seq<(u128, u64)>, V::V)>,
        op: (Seq<(u128, u64)>, V::V),
    ) -> Seq<(Seq<(u128, u64)>, V::V)> {
        mvreg_applied(s, op)
    }

    open spec fn op_inv_of(op: (Seq<(u128, u64)>, V::V)) -> bool {
        entries_wf(op.0)
    }

    proof fn lemma_valid_op_inv(m: (Seq<(u128, u64)>, V::V)) {
    }

    fn apply(&mut self, op: MVRegOp<V>) {
        let ghost m = self@;
        let ghost opv = op@;
        let MVRegOp::Put { clock, val } = op;
        if self.any_covers(&clock) {
            return ;
        }
        let mut kept: Vec<(VClock, V)> = Vec::new();
        let n = self.vals.len();
        let mut i: usize = 0;
        while i < n
            invariant
                i <= n,
                n == self.vals@.len(),
                *self == *old(self),
                self@ == msgpack::views_of(self.vals@),
                mvreg_wf(self@),
                clock.wf(),
                msgpack::views_of(kept@) == self@.take(i as int).filter(
                    pred_not_le(clock@),
                ),
            decreases n - i,
        {
            proof {
                reveal(Seq::filter);
                assert(self@[i as int] == self.vals@[i as int]@);
                assert(entries_wf(self@[i as int].0));
            }
            let keep = !self.vals[i].0.le(&clock);
            if keep {
                let c = self.vals[i].0.deep_clone();
                let v = self.vals[i].1.deep_clone();
                kept.push((c, v));
            }
            proof {
                reveal(Seq::filter);
                let t1 = self@.take(i + 1);
                assert(t1.drop_last() =~= self@.take(i as int));
                assert(t1.last() == self@[i as int]);
                assert(pred_not_le::<V::V>(clock@)(self@[i as int]) == keep);
                if keep {
                    assert(msgpack::views_of(kept@) =~= self@.take(i as int).filter(
                        pred_not_le(clock@),
                    ).push(self@[i as int]));
                }
            }
            i = i + 1;
        }
        proof {
            assert(self@.take(n as int) =~= self@);
        }
        kept.push((clock, val));
        proof {
            reveal(Seq::filter);
            assert(msgpack::views_of(kept@) =~= m.filter(pred_not_le::<V::V>(opv.0)).push(opv));
        }
        self.vals = kept;
        proof {
            lemma_applied_wf(m, opv);
        }
    }

}

impl<V: Codec + DeepClone> MVReg<V> {
    /// Merges `other` in: keeps every write of either side that the other
    /// side has not dominated.
    pub fn merge_with(&mut self, other: MVReg<V>)
        requires
            mvreg_wf(old(self)@),
            mvreg_wf(other@),
        ensures
            final(self)@ == mvreg_merged(old(self)@, other@),
            mvreg_wf(final(self)@),
    {
        let ghost a = self@;
        let ghost b = other@;
        let mut result: Vec<(VClock, V)> = Vec::new();
        let n = self.vals.len();
        let mut i: usize = 0;
        while i < n
            invariant
                i <= n,
                n == self.vals@.len(),
                *self == *old(self),
                self@ == msgpack::views_of(self.vals@),
                mvreg_wf(self@),
                mvreg_wf(other@),
                b == other@,
                msgpack::views_of(result@) == self@.take(i as int).filter(
                    pred_not_dominated(other@),
                ),
            decreases n - i,
        {
            proof {
                reveal(Seq::filter);
                assert(self@[i as int] == self.vals@[i as int]@);
                assert(entries_wf(self@[i as int].0));
            }
            let keep = !other.any_dominates(&self.vals[i].0);
            if keep {
                let c = self.vals[i].0.deep_clone();
                let v = self.vals[i].1.deep_clone();
                result.push((c, v));
            }
            proof {
                reveal(Seq::filter);
                let t1 = self@.take(i + 1);
                assert(t1.drop_last() =~= self@.take(i as int));
                assert(t1.last() == self@[i as int]);
                assert(pred_not_dominated::<V::V>(other@)(self@[i as int]) == keep);
                if keep {
                    assert(msgpack::views_of(result@) =~= self@.take(i as int).filter(
                        pred_not_dominated(other@),
                    ).push(self@[i as int]));
                }
            }
            i = i + 1;
        }
        proof {
            assert(self@.take(n as int) =~= self@);
        }
        let m = other.vals.len();
        let mut j: usize = 0;
        while j < m
            invariant
                j <= m,
                m == other.vals@.len(),
                *self == *old(self),
                self@ == msgpack::views_of(self.vals@),
                a == self@,
                mvreg_wf(self@),
                mvreg_wf(other@),
                b == other@,
                other@ == msgpack::views_of(other.vals@),
                msgpack::views_of(result@) == a.filter(pred_not_dominated(b)) + b.take(
                    j as int,
                ).filter(pred_not_covered(a)),
            decreases m - j,
        {
            proof {
                reveal(Seq::filter);
                assert(other@[j as int] == other.vals@[j as int]@);
                assert(entries_wf(other@[j as int].0));
            }
            let keep = !self.any_covers(&other.vals[j].0);
            let ghost pre = result@;
            if keep {
                let c = other.vals[j].0.deep_clone();
                let v = other.vals[j].1.deep_clone();
                result.push((c, v));
                proof {
                    let fa = a.filter(pred_not_dominated(b));
                    let btf = b.take(j as int).filter(pred_not_covered(a));
                    let rhs = fa + btf.push(b[j as int]);
                    assert((c, v)@ == b[j as int]);
                    assert forall|k: int|
                        0 <= k < result@.len() implies msgpack::views_of(result@)[k]
                        == rhs[k] by {
                        assert(msgpack::views_of(pre) == fa + btf);
                        assert(msgpack::views_of(pre).len() == pre.len());
                        assert(pre.len() == fa.len() + btf.len());
                        assert(result@.len() == pre.len() + 1);
                        if k < result@.len() - 1 {
                            assert(result@[k] == pre[k]);
                            assert(msgpack::views_of(result@)[k] == pre[k]@);
                            assert(msgpack::views_of(pre)[k] == pre[k]@);
                            if k < fa.len() {
                                assert((fa + btf)[k] == fa[k]);
                                assert(rhs[k] == fa[k]);
                            } else {
                                assert((fa + btf)[k] == btf[k - fa.len()]);
                                assert(rhs[k] == btf.push(b[j as int])[k - fa.len()]);
                                assert(btf.push(b[j as int])[k - fa.len()] == btf[k
                                    - fa.len()]);
                            }
                        } else {
                            assert(result@[k] == (c, v));
                            assert(msgpack::views_of(result@)[k] == (c, v)@);
                            assert(rhs[k] == btf.push(b[j as int])[btf.len() as int]);
                        }
                    }
                    assert(msgpack::views_of(result@) =~= rhs);
                }
            }
            proof {
                reveal(Seq::filter);
                let t1 = b.take(j + 1);
                assert(t1.drop_last() =~= b.take(j as int));
                assert(t1.last() == b[j as int]);
                assert(pred_not_covered::<V::V>(a)(b[j as int]) == keep);
            }
            j = j + 1;
        }
        proof {
            assert(b.take(m as int) =~= b);
        }
        self.vals = result;
        proof {
            lemma_merged_wf(a, b);
        }
    }
}

/// The pairwise-concurrency part of well-formedness, checked after
/// decoding.
pub fn check_antichain<V: View>(vals: &Vec<(VClock, V)>) -> (r: bool)
    requires
        forall|i: int|
            0 <= i < vals@.len() ==> entries_wf((#[trigger] vals@[i])@.0),
    ensures
        r <==> (forall|i: int, j: int|
            0 <= i < vals@.len() && 0 <= j < vals@.len() && i != j ==> !le_seq(
                (#[trigger] vals@[i])@.0,
                (#[trigger] vals@[j])@.0,
            )),
{
    let n = vals.len();
    let mut i: usize = 0;
    while i < n
        invariant
            i <= n,
            n == vals@.len(),
            forall|k: int|
                0 <= k < vals@.len() ==> entries_wf((#[trigger] vals@[k])@.0),
            forall|p: int, q: int|
                0 <= p < i && 0 <= q < vals@.len() && p != q ==> !le_seq(
                    (#[trigger] vals@[p])@.0,
                    (#[trigger] vals@[q])@.0,
                ),
        decreases n - i,
    {
        let mut j: usize = 0;
        while j < n
            invariant
                i < n,
                j <= n,
                n == vals@.len(),
                forall|k: int|
                    0 <= k < vals@.len() ==> entries_wf((#[trigger] vals@[k])@.0),
                forall|q: int|
                    0 <= q < j && q != i ==> !le_seq(
                        (#[trigger] vals@[i as int])@.0,
                        (#[trigger] vals@[q])@.0,
                    ),
            decreases n - j,
        {
            if j != i {
                if vals[i].0.le(&vals[j].0) {
                    return false;
                }
            }
            j = j + 1;
        }
        i = i + 1;
    }
    true
}

/// A register is a collection of `(clock, value)` pairs, accepted only
/// when the stored writes are pairwise concurrent.
impl<V: Codec> Codec for MVReg<V> {
    open spec fn enc_of(m: Seq<(Seq<(u128, u64)>, V::V)>) -> Seq<u8> {
        msgpack::enc_list_of::<(VClock, V)>(m)
    }

    open spec fn dec_of(s: Seq<u8>, pos: int) -> Option<(Seq<(Seq<(u128, u64)>, V::V)>, int)> {
        match msgpack::dec_list_of::<(VClock, V)>(s, pos) {
            Some((m, end)) => if forall|i: int, j: int|
                0 <= i < m.len() && 0 <= j < m.len() && i != j ==> !le_seq(
                    (#[trigger] m[i]).0,
                    (#[trigger] m[j]).0,
                ) {
                Some((m, end))
            } else {
                None
            },
            None => None,
        }
    }

    open spec fn valid_of(m: Seq<(Seq<(u128, u64)>, V::V)>) -> bool {
        &&& mvreg_wf(m)
        &&& m.len() <= u32::MAX
        &&& forall|i: int| 0 <= i < m.len() ==> <(VClock, V) as Codec>::valid_of(#[trigger] m[i])
    }

    proof fn lemma_enc_len(m: Seq<(Seq<(u128, u64)>, V::V)>) {
        assert(Self::enc_of(m).len() >= 5);
    }

    proof fn lemma_dec_progress(s: Seq<u8>, pos: int) {
        msgpack::lemma_dec_list_progress::<(VClock, V)>(s, pos);
    }

    proof fn lemma_enc_dec(m: Seq<(Seq<(u128, u64)>, V::V)>, s: Seq<u8>, pos: int) {
        msgpack::lemma_enc_dec_list::<(VClock, V)>(m, s, pos);
    }

    fn encode(&self, out: &mut Vec<u8>) {
        proof {
            assert forall|k: int|
                0 <= k < self.vals@.len() implies <(VClock, V) as Codec>::valid_of(
                (#[trigger] self.vals@[k])@,
            ) by {
                assert(self@[k] == self.vals@[k]@);
            }
        }
        msgpack::enc_list::<(VClock, V)>(out, &self.vals);
    }

    fn decode(s: &[u8], pos: usize) -> (r: Result<(Self, usize), Error>) {
        let (vals, end) = match msgpack::dec_list::<(VClock, V)>(s, pos) {
            Ok(x) => x,
            Err(e) => {
                return Err(e);
            },
        };
        proof {
            msgpack::lemma_dec_list_progress::<(VClock, V)>(s@, pos as int);
            assert forall|i: int|
                0 <= i < vals@.len() implies entries_wf((#[trigger] vals@[i])@.0) by {
                assert(msgpack::views_of(vals@)[i] == vals@[i]@);
            }
        }
        if !check_antichain(&vals) {
            proof {
                let m = msgpack::views_of(vals@);
                assert(!(forall|i: int, j: int|
                    0 <= i < m.len() && 0 <= j < m.len() && i != j ==> !le_seq(
                        (#[trigger] m[i]).0,
                        (#[trigger] m[j]).0,
                    ))) by {
                    let (i, j) = choose|i: int, j: int|
                        0 <= i < vals@.len() && 0 <= j < vals@.len() && i != j && le_seq(
                            (#[trigger] vals@[i])@.0,
                            (#[trigger] vals@[j])@.0,
                        );
                    assert(m[i] == vals@[i]@);
                    assert(m[j] == vals@[j]@);
                    assert(le_seq(m[i].0, m[j].0));
                }
            }
            return Err(Error::Serialization);
        }
        proof {
            let m = msgpack::views_of(vals@);
            assert forall|i: int, j: int|
                0 <= i < m.len() && 0 <= j < m.len() && i != j implies !le_seq(
                (#[trigger] m[i]).0,
                (#[trigger] m[j]).0,
            ) by {
                assert(m[i] == vals@[i]@);
                assert(m[j] == vals@[j]@);
            }
        }
        Ok((MVReg { vals }, end))
    }

    fn is_valid(&self) -> (r: bool) {
        if self.vals.len() as u64 > u32::MAX as u64 {
            return false;
        }
        let n = self.vals.len();
        let mut i: usize = 0;
        while i < n
            invariant
                i <= n,
                n == self.vals@.len(),
                self@ == msgpack::views_of(self.vals@),
                forall|k: int|
                    0 <= k < i ==> <(VClock, V) as Codec>::valid_of(#[trigger] self@[k]),
            decreases n - i,
        {
            if !self.vals[i].0.is_valid() || !self.vals[i].1.is_valid() {
                proof {
                    assert(self@[i as int] == self.vals@[i as int]@);
                    assert(!<(VClock, V) as Codec>::valid_of(self@[i as int]));
                }
                return false;
            }
            proof {
                assert(self@[i as int] == self.vals@[i as int]@);
            }
            i = i + 1;
        }
        proof {
            assert forall|k: int|
                0 <= k < self@.len() implies entries_wf((#[trigger] self@[k]).0) by {
                assert(<(VClock, V) as Codec>::valid_of(self@[k]));
            }
            assert forall|k: int|
                0 <= k < self.vals@.len() implies entries_wf(
                (#[trigger] self.vals@[k])@.0,
            ) by {
                assert(self@[k] == self.vals@[k]@);
            }
        }
        let anti = check_antichain(&self.vals);
        proof {
            if anti {
                assert forall|i2: int, j2: int|
                    0 <= i2 < self@.len() && 0 <= j2 < self@.len() && i2 != j2 implies !le_seq(
                    (#[trigger] self@[i2]).0,
                    (#[trigger] self@[j2]).0,
                ) by {
                    assert(self@[i2] == self.vals@[i2]@);
                    assert(self@[j2] == self.vals@[j2]@);
                }
            } else {
                let (i2, j2) = choose|i2: int, j2: int|
                    0 <= i2 < self.vals@.len() && 0 <= j2 < self.vals@.len() && i2 != j2
                        && le_seq(
                        (#[trigger] self.vals@[i2])@.0,
                        (#[trigger] self.vals@[j2])@.0,
                    );
                assert(self@[i2] == self.vals@[i2]@);
                assert(self@[j2] == self.vals@[j2]@);
                assert(!mvreg_wf(self@)) by {
                    assert(le_seq(self@[i2].0, self@[j2].0));
                }
            }
        }
        anti
    }
}

/// A register op is one `(clock, value)` pair.
impl<V: Codec> Codec for MVRegOp<V> {
    open spec fn enc_of(m: (Seq<(u128, u64)>, V::V)) -> Seq<u8> {
        <(VClock, V) as Codec>::enc_of(m)
    }

    open spec fn dec_of(s: Seq<u8>, pos: int) -> Option<((Seq<(u128, u64)>, V::V), int)> {
        <(VClock, V) as Codec>::dec_of(s, pos)
    }

    open spec fn valid_of(m: (Seq<(u128, u64)>, V::V)) -> bool {
        <(VClock, V) as Codec>::valid_of(m)
    }

    proof fn lemma_enc_len(m: (Seq<(u128, u64)>, V::V)) {
        <(VClock, V) as Codec>::lemma_enc_len(m);
    }

    proof fn lemma_dec_progress(s: Seq<u8>, pos: int) {
        <(VClock, V) as Codec>::lemma_dec_progress(s, pos);
    }

    proof fn lemma_enc_dec(m: (Seq<(u128, u64)>, V::V), s: Seq<u8>, pos: int) {
        <(VClock, V) as Codec>::lemma_enc_dec(m, s, pos);
    }

    fn encode(&self, out: &mut Vec<u8>) {
        match self {
            MVRegOp::Put { clock, val } => {
                msgpack::enc_fixarray_header(out, 2);
                clock.encode(out);
                val.encode(out);
                proof {
                    assert(out@ =~= old(out)@ + Self::enc_of(self@));
                }
            },
        }
    }

    fn decode(s: &[u8], pos: usize) -> (r: Result<(Self, usize), Error>) {
        let ((clock, val), end) = match <(VClock, V) as Codec>::decode(s, pos) {
            Ok(x) => x,
            Err(e) => {
                return Err(e);
            },
        };
        Ok((MVRegOp::Put { clock, val }, end))
    }

    fn is_valid(&self) -> (r: bool) {
        match self {
            MVRegOp::Put { clock, val } => clock.is_valid() && val.is_valid(),
        }
    }
}

/// A filter whose predicate holds everywhere is the identity.
pub proof fn lemma_filter_all<A>(s: Seq<A>, pred: spec_fn(A) -> bool)
    requires
        forall|i: int| 0 <= i < s.len() ==> pred(#[trigger] s[i]),
    ensures
        s.filter(pred) == s,
    decreases s.len(),
{
    reveal(Seq::filter);
    if s.len() > 0 {
        lemma_filter_all(s.drop_last(), pred);
        assert(s =~= s.drop_last().push(s.last()));
    }
}

/// A filter whose predicate holds nowhere is empty.
pub proof fn lemma_filter_vacuous<A>(s: Seq<A>, pred: spec_fn(A) -> bool)
    requires
        forall|i: int| 0 <= i < s.len() ==> !pred(#[trigger] s[i]),
    ensures
        s.filter(pred) == Seq::<A>::empty(),
    decreases s.len(),
{
    reveal(Seq::filter);
    if s.len() > 0 {
        lemma_filter_vacuous(s.drop_last(), pred);
    }
}

/// Merging a well-formed register with itself changes nothing.
pub proof fn lemma_mvreg_merge_idempotent<VV>(m: Seq<(Seq<(u128, u64)>, VV)>)
    requires
        mvreg_wf(m),
    ensures
        mvreg_merged(m, m) == m,
{
    assert forall|i: int| 0 <= i < m.len() implies pred_not_dominated::<VV>(m)(
        #[trigger] m[i],
    ) by {
        if dominated_lt(m[i].0, m) {
            let j = choose|j: int| 0 <= j < m.len() && lt_seq(m[i].0, (#[trigger] m[j]).0);
            if i == j {
                assert(le_seq(m[i].0, m[i].0));
            } else {
                assert(!le_seq(m[i].0, m[j].0));
            }
        }
    }
    lemma_filter_all(m, pred_not_dominated(m));
    assert forall|i: int| 0 <= i < m.len() implies !pred_not_covered::<VV>(m)(
        #[trigger] m[i],
    ) by {
        assert(le_seq(m[i].0, m[i].0));
    }
    lemma_filter_vacuous(m, pred_not_covered(m));
    assert(mvreg_merged(m, m) =~= m);
}

/// Two sides whose equal-clock writes agree on the value.  Well-formed
/// replicas of one history always agree this way: a clock identifies one
/// write.
pub open spec fn mvreg_coherent<VV>(
    a: Seq<(Seq<(u128, u64)>, VV)>,
    b: Seq<(Seq<(u128, u64)>, VV)>,
) -> bool {
    forall|i: int, j: int|
        0 <= i < a.len() && 0 <= j < b.len() && (#[trigger] a[i]).0 == (#[trigger] b[j]).0
            ==> a[i].1 == b[j].1
}

/// Everything merged one way is also merged the other way.
proof fn lemma_mvreg_merge_subset<VV>(
    a: Seq<(Seq<(u128, u64)>, VV)>,
    b: Seq<(Seq<(u128, u64)>, VV)>,
    e: (Seq<(u128, u64)>, VV),
)
    requires
        mvreg_wf(a),
        mvreg_wf(b),
        mvreg_coherent(a, b),
        mvreg_merged(a, b).contains(e),
    ensures
        mvreg_merged(b, a).contains(e),
{
    broadcast use vstd::seq_lib::group_filter_ensures;

    let fa = a.filter(pred_not_dominated(b));
    let fb = b.filter(pred_not_covered(a));
    let gb = b.filter(pred_not_dominated(a));
    let ga = a.filter(pred_not_covered(b));
    let k = choose|k: int| 0 <= k < (fa + fb).len() && (fa + fb)[k] == e;
    if k < fa.len() {
        assert(fa[k] == e);
        lemma_filter_elem_in(a, pred_not_dominated(b), k);
        let ia = choose|i: int| 0 <= i < a.len() && a[i] == e;
        if covered_le(e.0, b) {
            let j = choose|j: int| 0 <= j < b.len() && le_seq(e.0, (#[trigger] b[j]).0);
            assert(!lt_seq(e.0, b[j].0)) by {
                if lt_seq(e.0, b[j].0) {
                    assert(dominated_lt(e.0, b));
                }
            }
            assert(le_seq(b[j].0, e.0));
            crate::crdt::vclock::lemma_canonical(e.0, b[j].0);
            assert(b[j].1 == e.1);
            assert(b[j] == e);
            // e is also in b; it survives the b side of the other merge
            assert(pred_not_dominated::<VV>(a)(e)) by {
                if dominated_lt(e.0, a) {
                    let g = choose|g: int| 0 <= g < a.len() && lt_seq(e.0, (#[trigger] a[g]).0);
                    if g == ia {
                        assert(le_seq(e.0, e.0));
                    } else {
                        assert(!le_seq(a[ia].0, a[g].0));
                    }
                }
            }
            assert(gb.contains(b[j]));
            let x = choose|x: int| 0 <= x < gb.len() && gb[x] == e;
            assert((gb + ga)[x] == e);
        } else {
            assert(pred_not_covered::<VV>(b)(e));
            assert(ga.contains(a[ia]));
            let x = choose|x: int| 0 <= x < ga.len() && ga[x] == e;
            assert((gb + ga)[gb.len() + x] == e);
        }
    } else {
        assert(fb[k - fa.len()] == e);
        lemma_filter_elem_in(b, pred_not_covered(a), k - fa.len());
        let ib = choose|i: int| 0 <= i < b.len() && b[i] == e;
        assert(pred_not_dominated::<VV>(a)(e)) by {
            if dominated_lt(e.0, a) {
                let g = choose|g: int| 0 <= g < a.len() && lt_seq(e.0, (#[trigger] a[g]).0);
                assert(le_seq(e.0, a[g].0));
                assert(covered_le(e.0, a));
            }
        }
        assert(gb.contains(b[ib]));
        let x = choose|x: int| 0 <= x < gb.len() && gb[x] == e;
        assert((gb + ga)[x] == e);
    }
}

/// Merging well-formed, coherent registers is commutative: both orders
/// hold exactly the same set of writes.
pub proof fn lemma_mvreg_merge_commutative<VV>(
    a: Seq<(Seq<(u128, u64)>, VV)>,
    b: Seq<(Seq<(u128, u64)>, VV)>,
)
    requires
        mvreg_wf(a),
        mvreg_wf(b),
        mvreg_coherent(a, b),
    ensures
        mvreg_merged(a, b).to_set() == mvreg_merged(b, a).to_set(),
{
    assert(mvreg_coherent(b, a));
    assert forall|e: (Seq<(u128, u64)>, VV)| #[trigger]
        mvreg_merged(a, b).to_set().contains(e) implies mvreg_merged(b, a).to_set().contains(
        e,
    ) by {
        assert(mvreg_merged(a, b).contains(e));
        lemma_mvreg_merge_subset(a, b, e);
    }
    assert forall|e: (Seq<(u128, u64)>, VV)| #[trigger]
        mvreg_merged(b, a).to_set().contains(e) implies mvreg_merged(a, b).to_set().contains(
        e,
    ) by {
        assert(mvreg_merged(b, a).contains(e));
        lemma_mvreg_merge_subset(b, a, e);
    }
    assert(mvreg_merged(a, b).to_set() =~= mvreg_merged(b, a).to_set());
}

/// A write whose clock strictly dominates every stored write replaces
/// them all.
pub proof fn lemma_apply_overwrites<VV>(m: Seq<(Seq<(u128, u64)>, VV)>, op: (Seq<(u128, u64)>, VV))
    requires
        forall|j: int| 0 <= j < m.len() ==> lt_seq((#[trigger] m[j]).0, op.0),
    ensures
        mvreg_applied(m, op) == seq![op],
{
    assert(!covered_le(op.0, m)) by {
        if covered_le(op.0, m) {
            let j = choose|j: int| 0 <= j < m.len() && le_seq(op.0, (#[trigger] m[j]).0);
            assert(lt_seq(m[j].0, op.0));
        }
    }
    assert forall|j: int| 0 <= j < m.len() implies !pred_not_le::<VV>(op.0)(
        #[trigger] m[j],
    ) by {
        assert(lt_seq(m[j].0, op.0));
    }
    lemma_filter_vacuous(m, pred_not_le(op.0));
    assert(mvreg_applied(m, op) =~= seq![op]);
}

/// Strict domination is transitive.
pub proof fn lemma_lt_trans(x: Seq<(u128, u64)>, y: Seq<(u128, u64)>, z: Seq<(u128, u64)>)
    requires
        lt_seq(x, y),
        lt_seq(y, z),
    ensures
        lt_seq(x, z),
{
    assert forall|w: u128| #![trigger seq_get(x, w)] seq_get(x, w) <= seq_get(z, w) by {
        assert(seq_get(x, w) <= seq_get(y, w));
        assert(seq_get(y, w) <= seq_get(z, w));
    }
    if le_seq(z, x) {
        assert forall|w: u128| #![trigger seq_get(y, w)] seq_get(y, w) <= seq_get(x, w) by {
            assert(seq_get(y, w) <= seq_get(z, w));
            assert(seq_get(z, w) <= seq_get(x, w));
        }
    }
}

/// The indices of the writes strictly above `c`.
pub open spec fn above_set<VV>(u: Seq<(Seq<(u128, u64)>, VV)>, c: Seq<(u128, u64)>) -> Set<int> {
    Set::new(|i: int| 0 <= i < u.len() && lt_seq(c, (#[trigger] u[i]).0))
}

/// The above-set is finite.
proof fn lemma_above_finite<VV>(u: Seq<(Seq<(u128, u64)>, VV)>, c: Seq<(u128, u64)>)
    ensures
        above_set(u, c).finite(),
        above_set(u, c).len() <= u.len(),
{
    vstd::set_lib::lemma_int_range(0, u.len() as int);
    assert(above_set(u, c).subset_of(vstd::set_lib::set_int_range(0, u.len() as int)));
    vstd::set_lib::lemma_len_subset(
        above_set(u, c),
        vstd::set_lib::set_int_range(0, u.len() as int),
    );
}

/// Above every write stands one that nothing else dominates.
pub proof fn lemma_exists_maximal<VV>(u: Seq<(Seq<(u128, u64)>, VV)>, i0: int)
    requires
        0 <= i0 < u.len(),
    ensures
        exists|j: int|
            #![trigger u[j]]
            0 <= j < u.len() && le_seq(u[i0].0, u[j].0) && (forall|h: int|
                0 <= h < u.len() ==> !lt_seq(u[j].0, (#[trigger] u[h]).0)),
    decreases above_set(u, u[i0].0).len(),
{
    lemma_above_finite(u, u[i0].0);
    if above_set(u, u[i0].0).is_empty() {
        assert(le_seq(u[i0].0, u[i0].0));
        assert forall|h: int| 0 <= h < u.len() implies !lt_seq(u[i0].0, (#[trigger] u[h]).0) by {
            if lt_seq(u[i0].0, u[h].0) {
                assert(above_set(u, u[i0].0).contains(h));
            }
        }
    } else {
        let i1 = above_set(u, u[i0].0).choose();
        assert(above_set(u, u[i0].0).contains(i1));
        assert(lt_seq(u[i0].0, u[i1].0));
        // the climb gets strictly shorter
        assert(above_set(u, u[i1].0).subset_of(above_set(u, u[i0].0).remove(i1))) by {
            assert forall|k: int|
                above_set(u, u[i1].0).contains(k) implies above_set(u, u[i0].0).remove(
                i1,
            ).contains(k) by {
                lemma_lt_trans(u[i0].0, u[i1].0, u[k].0);
                if k == i1 {
                    assert(le_seq(u[i1].0, u[i1].0));
                }
            }
        }
        lemma_above_finite(u, u[i1].0);
        vstd::set_lib::lemma_len_subset(
            above_set(u, u[i1].0),
            above_set(u, u[i0].0).remove(i1),
        );
        lemma_exists_maximal(u, i1);
        let j = choose|j: int|
            #![trigger u[j]]
            0 <= j < u.len() && le_seq(u[i1].0, u[j].0) && (forall|h: int|
                0 <= h < u.len() ==> !lt_seq(u[j].0, (#[trigger] u[h]).0));
        assert forall|w: u128| #![trigger seq_get(u[i0].0, w)]
            seq_get(u[i0].0, w) <= seq_get(u[j].0, w) by {
            assert(seq_get(u[i0].0, w) <= seq_get(u[i1].0, w));
            assert(seq_get(u[i1].0, w) <= seq_get(u[j].0, w));
        }
        assert(le_seq(u[i0].0, u[j].0));
    }
}

/// Membership in a merge: exactly the writes of either side that nothing
/// on either side strictly dominates.
pub proof fn lemma_merged_char<VV>(
    a: Seq<(Seq<(u128, u64)>, VV)>,
    b: Seq<(Seq<(u128, u64)>, VV)>,
    e: (Seq<(u128, u64)>, VV),
)
    requires
        mvreg_wf(a),
        mvreg_wf(b),
        mvreg_coherent(a, b),
    ensures
        mvreg_merged(a, b).contains(e) <==> ((a.contains(e) || b.contains(e)) && (forall|i: int|
            0 <= i < a.len() ==> !lt_seq(e.0, (#[trigger] a[i]).0)) && (forall|i: int|
            0 <= i < b.len() ==> !lt_seq(e.0, (#[trigger] b[i]).0))),
{
    broadcast use vstd::seq_lib::group_filter_ensures;

    let fa = a.filter(pred_not_dominated(b));
    let fb = b.filter(pred_not_covered(a));
    let m = fa + fb;
    if m.contains(e) {
        let k = choose|k: int| 0 <= k < m.len() && m[k] == e;
        if k < fa.len() {
            assert(fa[k] == e);
            lemma_filter_elem_in(a, pred_not_dominated(b), k);
            let ia = choose|i: int| 0 <= i < a.len() && a[i] == e;
            assert forall|i: int|
                0 <= i < a.len() implies !lt_seq(e.0, (#[trigger] a[i]).0) by {
                if i == ia {
                    assert(le_seq(e.0, e.0));
                } else {
                    assert(!le_seq(a[ia].0, a[i].0));
                }
            }
            assert forall|i: int|
                0 <= i < b.len() implies !lt_seq(e.0, (#[trigger] b[i]).0) by {
                if lt_seq(e.0, b[i].0) {
                    assert(dominated_lt(e.0, b));
                }
            }
        } else {
            assert(fb[k - fa.len()] == e);
            lemma_filter_elem_in(b, pred_not_covered(a), k - fa.len());
            let ib = choose|i: int| 0 <= i < b.len() && b[i] == e;
            assert forall|i: int|
                0 <= i < a.len() implies !lt_seq(e.0, (#[trigger] a[i]).0) by {
                if lt_seq(e.0, a[i].0) {
                    assert(covered_le(e.0, a)) by {
                        assert(le_seq(e.0, a[i].0));
                    }
                }
            }
            assert forall|i: int|
                0 <= i < b.len() implies !lt_seq(e.0, (#[trigger] b[i]).0) by {
                if i == ib {
                    assert(le_seq(e.0, e.0));
                } else {
                    assert(!le_seq(b[ib].0, b[i].0));
                }
            }
        }
    }
    if (a.contains(e) || b.contains(e)) && (forall|i: int|
        0 <= i < a.len() ==> !lt_seq(e.0, (#[trigger] a[i]).0)) && (forall|i: int|
        0 <= i < b.len() ==> !lt_seq(e.0, (#[trigger] b[i]).0)) {
        let in_a = if a.contains(e) {
            true
        } else {
            // e comes from b; when a covers it, the covering write is e
            // itself, canonical clocks and coherence making them one
            !covered_le(e.0, a) || {
                let ib = choose|i: int| 0 <= i < b.len() && b[i] == e;
                let j = choose|j: int| 0 <= j < a.len() && le_seq(e.0, (#[trigger] a[j]).0);
                false
            }
        };
        if a.contains(e) {
            let ia = choose|i: int| 0 <= i < a.len() && a[i] == e;
            assert(pred_not_dominated::<VV>(b)(e)) by {
                if dominated_lt(e.0, b) {
                    let j = choose|j: int|
                        0 <= j < b.len() && lt_seq(e.0, (#[trigger] b[j]).0);
                }
            }
            assert(fa.contains(a[ia]));
            let x = choose|x: int| 0 <= x < fa.len() && fa[x] == e;
            assert(m[x] == e);
        } else {
            let ib = choose|i: int| 0 <= i < b.len() && b[i] == e;
            if covered_le(e.0, a) {
                let j = choose|j: int| 0 <= j < a.len() && le_seq(e.0, (#[trigger] a[j]).0);
                assert(!lt_seq(e.0, a[j].0));
                assert(le_seq(a[j].0, e.0));
                crate::crdt::vclock::lemma_canonical(e.0, a[j].0);
                assert(a[j].1 == e.1);
                assert(a[j] == e);
                assert(a.contains(e)) by {
                    assert(a[j] == e);
                }
                assert(false);
            }
            assert(pred_not_covered::<VV>(a)(e));
            assert(fb.contains(b[ib]));
            let x = choose|x: int| 0 <= x < fb.len() && fb[x] == e;
            assert(m[fa.len() + x] == e);
        }
    }
}

/// Merging well-formed, pairwise coherent registers is associative: both
/// groupings hold exactly the same set of writes — those of the three
/// sides that nothing on any side strictly dominates.
pub proof fn lemma_mvreg_merge_associative<VV>(
    a: Seq<(Seq<(u128, u64)>, VV)>,
    b: Seq<(Seq<(u128, u64)>, VV)>,
    c: Seq<(Seq<(u128, u64)>, VV)>,
)
    requires
        mvreg_wf(a),
        mvreg_wf(b),
        mvreg_wf(c),
        mvreg_coherent(a, b),
        mvreg_coherent(a, c),
        mvreg_coherent(b, c),
    ensures
        mvreg_merged(mvreg_merged(a, b), c).to_set() == mvreg_merged(
            a,
            mvreg_merged(b, c),
        ).to_set(),
{
    let ab = mvreg_merged(a, b);
    let bc = mvreg_merged(b, c);
    lemma_merged_wf(a, b);
    lemma_merged_wf(b, c);
    lemma_merged_members(a, b);
    lemma_merged_members(b, c);
    assert(mvreg_coherent(ab, c)) by {
        assert forall|i: int, j: int|
            0 <= i < ab.len() && 0 <= j < c.len() && (#[trigger] ab[i]).0 == (
        #[trigger] c[j]).0 implies ab[i].1 == c[j].1 by {
            assert(a.contains(ab[i]) || b.contains(ab[i]));
            if a.contains(ab[i]) {
                let k = choose|k: int| 0 <= k < a.len() && a[k] == ab[i];
            } else {
                let k = choose|k: int| 0 <= k < b.len() && b[k] == ab[i];
            }
        }
    }
    assert(mvreg_coherent(a, bc)) by {
        assert forall|i: int, j: int|
            0 <= i < a.len() && 0 <= j < bc.len() && (#[trigger] a[i]).0 == (
        #[trigger] bc[j]).0 implies a[i].1 == bc[j].1 by {
            assert(b.contains(bc[j]) || c.contains(bc[j]));
            if b.contains(bc[j]) {
                let k = choose|k: int| 0 <= k < b.len() && b[k] == bc[j];
            } else {
                let k = choose|k: int| 0 <= k < c.len() && c[k] == bc[j];
            }
        }
    }
    assert forall|e: (Seq<(u128, u64)>, VV)| #[trigger]
        mvreg_merged(ab, c).to_set().contains(e) implies mvreg_merged(a, bc).to_set().contains(
        e,
    ) by {
        assert(mvreg_merged(ab, c).contains(e));
        lemma_grouped_to_tri(a, b, c, e);
        lemma_tri_to_grouped(b, c, a, e);
    }
    assert forall|e: (Seq<(u128, u64)>, VV)| #[trigger]
        mvreg_merged(a, bc).to_set().contains(e) implies mvreg_merged(ab, c).to_set().contains(
        e,
    ) by {
        assert(mvreg_merged(a, bc).contains(e));
        lemma_grouped_to_tri_right(a, b, c, e);
        lemma_tri_to_grouped_left(a, b, c, e);
    }
    assert(mvreg_merged(ab, c).to_set() =~= mvreg_merged(a, bc).to_set());
}

/// Every write of a merge comes from one of its sides.
proof fn lemma_merged_members<VV>(a: Seq<(Seq<(u128, u64)>, VV)>, b: Seq<(Seq<(u128, u64)>, VV)>)
    ensures
        forall|i: int|
            0 <= i < mvreg_merged(a, b).len() ==> a.contains(#[trigger] mvreg_merged(a, b)[i])
                || b.contains(mvreg_merged(a, b)[i]),
{
    let fa = a.filter(pred_not_dominated(b));
    let fb = b.filter(pred_not_covered(a));
    assert forall|i: int|
        0 <= i < mvreg_merged(a, b).len() implies a.contains(
        #[trigger] mvreg_merged(a, b)[i],
    ) || b.contains(mvreg_merged(a, b)[i]) by {
        if i < fa.len() {
            lemma_filter_elem_in(a, pred_not_dominated(b), i);
        } else {
            lemma_filter_elem_in(b, pred_not_covered(a), i - fa.len());
        }
    }
}

/// True when nothing among the three sides strictly dominates `e`.
pub open spec fn tri_maximal<VV>(
    a: Seq<(Seq<(u128, u64)>, VV)>,
    b: Seq<(Seq<(u128, u64)>, VV)>,
    c: Seq<(Seq<(u128, u64)>, VV)>,
    e: (Seq<(u128, u64)>, VV),
) -> bool {
    &&& forall|i: int| 0 <= i < a.len() ==> !lt_seq(e.0, (#[trigger] a[i]).0)
    &&& forall|i: int| 0 <= i < b.len() ==> !lt_seq(e.0, (#[trigger] b[i]).0)
    &&& forall|i: int| 0 <= i < c.len() ==> !lt_seq(e.0, (#[trigger] c[i]).0)
}

/// A member of `merged(merged(a, b), c)` is a three-way maximal member.
proof fn lemma_grouped_to_tri<VV>(
    a: Seq<(Seq<(u128, u64)>, VV)>,
    b: Seq<(Seq<(u128, u64)>, VV)>,
    c: Seq<(Seq<(u128, u64)>, VV)>,
    e: (Seq<(u128, u64)>, VV),
)
    requires
        mvreg_wf(a),
        mvreg_wf(b),
        mvreg_wf(c),
        mvreg_coherent(a, b),
        mvreg_coherent(mvreg_merged(a, b), c),
        mvreg_wf(mvreg_merged(a, b)),
        mvreg_merged(mvreg_merged(a, b), c).contains(e),
    ensures
        a.contains(e) || b.contains(e) || c.contains(e),
        tri_maximal(a, b, c, e),
{
    let ab = mvreg_merged(a, b);
    lemma_merged_char(ab, c, e);
    lemma_merged_members(a, b);
    if ab.contains(e) {
        lemma_merged_char(a, b, e);
    }
    // nothing in a or b dominates e: a dominator would stand below some
    // write nothing dominates, which survives into the merge
    assert forall|i: int| 0 <= i < a.len() implies !lt_seq(e.0, (#[trigger] a[i]).0) by {
        if lt_seq(e.0, a[i].0) {
            lemma_dominator_in_merge(a, b, i, e);
        }
    }
    assert forall|i: int| 0 <= i < b.len() implies !lt_seq(e.0, (#[trigger] b[i]).0) by {
        if lt_seq(e.0, b[i].0) {
            lemma_dominator_in_merge_right(a, b, i, e);
        }
    }
}

/// When a write of `a` dominates `e`, some write of `merged(a, b)`
/// dominates `e` too.
proof fn lemma_dominator_in_merge<VV>(
    a: Seq<(Seq<(u128, u64)>, VV)>,
    b: Seq<(Seq<(u128, u64)>, VV)>,
    i: int,
    e: (Seq<(u128, u64)>, VV),
)
    requires
        mvreg_wf(a),
        mvreg_wf(b),
        mvreg_coherent(a, b),
        0 <= i < a.len(),
        lt_seq(e.0, a[i].0),
    ensures
        exists|g: (Seq<(u128, u64)>, VV)|
            #![trigger lt_seq(e.0, g.0)]
            mvreg_merged(a, b).contains(g) && lt_seq(e.0, g.0),
{
    let u = a + b;
    assert(u[i] == a[i]);
    lemma_exists_maximal(u, i);
    let j = choose|j: int|
        #![trigger u[j]]
        0 <= j < u.len() && le_seq(u[i].0, u[j].0) && (forall|h: int|
            0 <= h < u.len() ==> !lt_seq(u[j].0, (#[trigger] u[h]).0));
    let g = u[j];
    assert(a.contains(g) || b.contains(g)) by {
        if j < a.len() {
            assert(a[j] == g);
        } else {
            assert(b[j - a.len()] == g);
        }
    }
    assert forall|h: int| 0 <= h < a.len() implies !lt_seq(g.0, (#[trigger] a[h]).0) by {
        assert(u[h] == a[h]);
        assert(!lt_seq(u[j].0, u[h].0));
    }
    assert forall|h: int| 0 <= h < b.len() implies !lt_seq(g.0, (#[trigger] b[h]).0) by {
        assert(u[a.len() + h] == b[h]);
        assert(!lt_seq(u[j].0, u[a.len() + h].0));
    }
    lemma_merged_char(a, b, g);
    assert(mvreg_merged(a, b).contains(g));
    assert(lt_seq(e.0, g.0)) by {
        assert forall|w: u128| #![trigger seq_get(e.0, w)]
            seq_get(e.0, w) <= seq_get(g.0, w) by {
            assert(seq_get(e.0, w) <= seq_get(a[i].0, w));
            assert(seq_get(u[i].0, w) <= seq_get(u[j].0, w));
        }
        if le_seq(g.0, e.0) {
            assert forall|w: u128| #![trigger seq_get(a[i].0, w)]
                seq_get(a[i].0, w) <= seq_get(e.0, w) by {
                assert(seq_get(u[i].0, w) <= seq_get(u[j].0, w));
                assert(seq_get(g.0, w) <= seq_get(e.0, w));
            }
        }
    }
}

/// When a write of `b` dominates `e`, some write of `merged(a, b)`
/// dominates `e` too.
proof fn lemma_dominator_in_merge_right<VV>(
    a: Seq<(Seq<(u128, u64)>, VV)>,
    b: Seq<(Seq<(u128, u64)>, VV)>,
    i: int,
    e: (Seq<(u128, u64)>, VV),
)
    requires
        mvreg_wf(a),
        mvreg_wf(b),
        mvreg_coherent(a, b),
        0 <= i < b.len(),
        lt_seq(e.0, b[i].0),
    ensures
        exists|g: (Seq<(u128, u64)>, VV)|
            #![trigger lt_seq(e.0, g.0)]
            mvreg_merged(a, b).contains(g) && lt_seq(e.0, g.0),
{
    let u = a + b;
    assert(u[a.len() + i] == b[i]);
    lemma_exists_maximal(u, a.len() + i);
    let j = choose|j: int|
        #![trigger u[j]]
        0 <= j < u.len() && le_seq(u[a.len() + i].0, u[j].0) && (forall|h: int|
            0 <= h < u.len() ==> !lt_seq(u[j].0, (#[trigger] u[h]).0));
    let g = u[j];
    assert(a.contains(g) || b.contains(g)) by {
        if j < a.len() {
            assert(a[j] == g);
        } else {
            assert(b[j - a.len()] == g);
        }
    }
    assert forall|h: int| 0 <= h < a.len() implies !lt_seq(g.0, (#[trigger] a[h]).0) by {
        assert(u[h] == a[h]);
        assert(!lt_seq(u[j].0, u[h].0));
    }
    assert forall|h: int| 0 <= h < b.len() implies !lt_seq(g.0, (#[trigger] b[h]).0) by {
        assert(u[a.len() + h] == b[h]);
        assert(!lt_seq(u[j].0, u[a.len() + h].0));
    }
    lemma_merged_char(a, b, g);
    assert(mvreg_merged(a, b).contains(g));
    assert(lt_seq(e.0, g.0)) by {
        assert forall|w: u128| #![trigger seq_get(e.0, w)]
            seq_get(e.0, w) <= seq_get(g.0, w) by {
            assert(seq_get(e.0, w) <= seq_get(b[i].0, w));
            assert(seq_get(u[a.len() + i].0, w) <= seq_get(u[j].0, w));
        }
        if le_seq(g.0, e.0) {
            assert forall|w: u128| #![trigger seq_get(b[i].0, w)]
                seq_get(b[i].0, w) <= seq_get(e.0, w) by {
                assert(seq_get(u[a.len() + i].0, w) <= seq_get(u[j].0, w));
                assert(seq_get(g.0, w) <= seq_get(e.0, w));
            }
        }
    }
}

/// A three-way maximal member of any side belongs to
/// `merged(x, merged(y, z))` for sides in that order.
proof fn lemma_tri_to_grouped<VV>(
    y: Seq<(Seq<(u128, u64)>, VV)>,
    z: Seq<(Seq<(u128, u64)>, VV)>,
    x: Seq<(Seq<(u128, u64)>, VV)>,
    e: (Seq<(u128, u64)>, VV),
)
    requires
        mvreg_wf(x),
        mvreg_wf(y),
        mvreg_wf(z),
        mvreg_coherent(y, z),
        mvreg_coherent(x, mvreg_merged(y, z)),
        mvreg_wf(mvreg_merged(y, z)),
        x.contains(e) || y.contains(e) || z.contains(e),
        forall|i: int| 0 <= i < x.len() ==> !lt_seq(e.0, (#[trigger] x[i]).0),
        forall|i: int| 0 <= i < y.len() ==> !lt_seq(e.0, (#[trigger] y[i]).0),
        forall|i: int| 0 <= i < z.len() ==> !lt_seq(e.0, (#[trigger] z[i]).0),
    ensures
        mvreg_merged(x, mvreg_merged(y, z)).to_set().contains(e),
{
    let yz = mvreg_merged(y, z);
    lemma_merged_members(y, z);
    // e is maximal over yz, whose members all come from y or z
    assert forall|i: int| 0 <= i < yz.len() implies !lt_seq(e.0, (#[trigger] yz[i]).0) by {
        if y.contains(yz[i]) {
            let k = choose|k: int| 0 <= k < y.len() && y[k] == yz[i];
        } else {
            let k = choose|k: int| 0 <= k < z.len() && z[k] == yz[i];
        }
    }
    if !x.contains(e) {
        // e is a maximal member of y or z, so it survives into their merge
        lemma_merged_char(y, z, e);
        assert(yz.contains(e));
    }
    lemma_merged_char(x, yz, e);
    assert(mvreg_merged(x, yz).contains(e));
    let k = choose|k: int| 0 <= k < mvreg_merged(x, yz).len() && mvreg_merged(x, yz)[k] == e;
    assert(mvreg_merged(x, yz).to_set().contains(e));
}

/// A member of `merged(a, merged(b, c))` is a three-way maximal member.
proof fn lemma_grouped_to_tri_right<VV>(
    a: Seq<(Seq<(u128, u64)>, VV)>,
    b: Seq<(Seq<(u128, u64)>, VV)>,
    c: Seq<(Seq<(u128, u64)>, VV)>,
    e: (Seq<(u128, u64)>, VV),
)
    requires
        mvreg_wf(a),
        mvreg_wf(b),
        mvreg_wf(c),
        mvreg_coherent(b, c),
        mvreg_coherent(a, mvreg_merged(b, c)),
        mvreg_wf(mvreg_merged(b, c)),
        mvreg_merged(a, mvreg_merged(b, c)).contains(e),
    ensures
        a.contains(e) || b.contains(e) || c.contains(e),
        tri_maximal(a, b, c, e),
{
    let bc = mvreg_merged(b, c);
    lemma_merged_char(a, bc, e);
    lemma_merged_members(b, c);
    if bc.contains(e) {
        lemma_merged_char(b, c, e);
    }
    assert forall|i: int| 0 <= i < b.len() implies !lt_seq(e.0, (#[trigger] b[i]).0) by {
        if lt_seq(e.0, b[i].0) {
            lemma_dominator_in_merge(b, c, i, e);
            let g = choose|g: (Seq<(u128, u64)>, VV)|
                bc.contains(g) && #[trigger] lt_seq(e.0, g.0);
            let k = choose|k: int| 0 <= k < bc.len() && bc[k] == g;
        }
    }
    assert forall|i: int| 0 <= i < c.len() implies !lt_seq(e.0, (#[trigger] c[i]).0) by {
        if lt_seq(e.0, c[i].0) {
            lemma_dominator_in_merge_right(b, c, i, e);
            let g = choose|g: (Seq<(u128, u64)>, VV)|
                bc.contains(g) && #[trigger] lt_seq(e.0, g.0);
            let k = choose|k: int| 0 <= k < bc.len() && bc[k] == g;
        }
    }
}

/// A three-way maximal member belongs to `merged(merged(a, b), c)`.
proof fn lemma_tri_to_grouped_left<VV>(
    a: Seq<(Seq<(u128, u64)>, VV)>,
    b: Seq<(Seq<(u128, u64)>, VV)>,
    c: Seq<(Seq<(u128, u64)>, VV)>,
    e: (Seq<(u128, u64)>, VV),
)
    requires
        mvreg_wf(a),
        mvreg_wf(b),
        mvreg_wf(c),
        mvreg_coherent(a, b),
        mvreg_coherent(mvreg_merged(a, b), c),
        mvreg_wf(mvreg_merged(a, b)),
        a.contains(e) || b.contains(e) || c.contains(e),
        forall|i: int| 0 <= i < a.len() ==> !lt_seq(e.0, (#[trigger] a[i]).0),
        forall|i: int| 0 <= i < b.len() ==> !lt_seq(e.0, (#[trigger] b[i]).0),
        forall|i: int| 0 <= i < c.len() ==> !lt_seq(e.0, (#[trigger] c[i]).0),
    ensures
        mvreg_merged(mvreg_merged(a, b), c).to_set().contains(e),
{
    let ab = mvreg_merged(a, b);
    lemma_merged_members(a, b);
    assert forall|i: int| 0 <= i < ab.len() implies !lt_seq(e.0, (#[trigger] ab[i]).0) by {
        if a.contains(ab[i]) {
            let k = choose|k: int| 0 <= k < a.len() && a[k] == ab[i];
        } else {
            let k = choose|k: int| 0 <= k < b.len() && b[k] == ab[i];
        }
    }
    if !c.contains(e) {
        lemma_merged_char(a, b, e);
        assert(ab.contains(e));
    }
    lemma_merged_char(ab, c, e);
    assert(mvreg_merged(ab, c).contains(e));
    let k = choose|k: int| 0 <= k < mvreg_merged(ab, c).len() && mvreg_merged(ab, c)[k] == e;
    assert(mvreg_merged(ab, c).to_set().contains(e));
}

} // verus!
