use vstd::prelude::*;

use crate::rat::{Q, Rat, qadd, qeq, qle, qlt, qmul, qneg, qsub, qwf, qzero, qone, representable};
use crate::rat::{lemma_qeq_trans, lemma_qle_congruence, lemma_qlt_congruence, lemma_qle_trans,
    lemma_qle_qlt_trans, lemma_qlt_qle_trans, lemma_qmul_congruence_right, lemma_qmul_one_right,
    lemma_qmul_zero, lemma_qmul_sign, lemma_qsub_cancel, lemma_qsub_zero_right, lemma_qsub_mono,
    lemma_qops_wf, lemma_representable_congruence, lemma_qsub_representable_congruence};

verus! {

/// Mathematical model of an extended penalty number `inf * M + num`, for an
/// implicit, arbitrarily large positive constant M.
pub struct Qe {
    pub inf: Q,
    pub num: Q,
}

/// Both components are well formed.
pub open spec fn qe_wf(a: Qe) -> bool {
    qwf(a.inf) && qwf(a.num)
}

/// The extended zero.
pub open spec fn qe_zero() -> Qe {
    Qe { inf: qzero(), num: qzero() }
}

/// The plain one: no penalty component.
pub open spec fn qe_one() -> Qe {
    Qe { inf: qzero(), num: qone() }
}

/// One unit of the penalty constant M.
pub open spec fn qe_one_inf() -> Qe {
    Qe { inf: qone(), num: qzero() }
}

/// Value equality, component-wise.
pub open spec fn qe_eq(a: Qe, b: Qe) -> bool {
    qeq(a.inf, b.inf) && qeq(a.num, b.num)
}

/// Lexicographic order: the penalty component dominates any finite value.
pub open spec fn qe_le(a: Qe, b: Qe) -> bool {
    qlt(a.inf, b.inf) || (qeq(a.inf, b.inf) && qle(a.num, b.num))
}

/// Strict lexicographic order.
pub open spec fn qe_lt(a: Qe, b: Qe) -> bool {
    qlt(a.inf, b.inf) || (qeq(a.inf, b.inf) && qlt(a.num, b.num))
}

/// Component-wise sum.
pub open spec fn qe_add(a: Qe, b: Qe) -> Qe {
    Qe { inf: qadd(a.inf, b.inf), num: qadd(a.num, b.num) }
}

/// Component-wise negation.
pub open spec fn qe_neg(a: Qe) -> Qe {
    Qe { inf: qneg(a.inf), num: qneg(a.num) }
}

/// Component-wise difference.
pub open spec fn qe_sub(a: Qe, b: Qe) -> Qe {
    qe_add(a, qe_neg(b))
}

/// Scaling by a plain rational, applied to both components.
pub open spec fn qe_scale(a: Qe, c: Q) -> Qe {
    Qe { inf: qmul(a.inf, c), num: qmul(a.num, c) }
}

/// Subtracting `c` times `s` from `x` stays within the representation,
/// component by component.
pub open spec fn qe_sub_scaled_representable(x: Qe, s: Qe, c: Q) -> bool {
    &&& representable(qmul(s.inf, c))
    &&& representable(qmul(s.num, c))
    &&& representable(qsub(x.inf, qmul(s.inf, c)))
    &&& representable(qsub(x.num, qmul(s.num, c)))
}


/// Whether subtracting a scaled value stays representable is unchanged when
/// the scaling factor is replaced by an equal value.
pub proof fn lemma_qe_ssr_congruence(x: Qe, s: Qe, c: Q, c2: Q)
    requires
        qe_wf(x),
        qe_wf(s),
        qwf(c),
        qwf(c2),
        qeq(c, c2),
    ensures
        qe_sub_scaled_representable(x, s, c) <==> qe_sub_scaled_representable(x, s, c2),
{
    lemma_qops_wf(s.inf, c);
    lemma_qops_wf(s.inf, c2);
    lemma_qops_wf(s.num, c);
    lemma_qops_wf(s.num, c2);
    lemma_qmul_congruence_right(s.inf, c, c2);
    lemma_qmul_congruence_right(s.num, c, c2);
    lemma_representable_congruence(qmul(s.inf, c), qmul(s.inf, c2));
    lemma_representable_congruence(qmul(s.num, c), qmul(s.num, c2));
    lemma_qsub_representable_congruence(x.inf, qmul(s.inf, c), qmul(s.inf, c2));
    lemma_qsub_representable_congruence(x.num, qmul(s.num, c), qmul(s.num, c2));
}

/// Transitivity of value equality, component by component.
pub proof fn lemma_qe_eq_trans(a: Qe, b: Qe, c: Qe)
    requires
        qe_wf(a),
        qe_wf(b),
        qe_wf(c),
        qe_eq(a, b),
        qe_eq(b, c),
    ensures
        qe_eq(a, c),
{
    lemma_qeq_trans(a.inf, b.inf, c.inf);
    lemma_qeq_trans(a.num, b.num, c.num);
}

/// Replacing the scaling factor by an equal value gives an equal result.
pub proof fn lemma_qe_scale_congruence(s: Qe, z: Q, z2: Q)
    requires
        qe_wf(s),
        qwf(z),
        qwf(z2),
        qeq(z, z2),
    ensures
        qe_eq(qe_scale(s, z), qe_scale(s, z2)),
{
    lemma_qmul_congruence_right(s.inf, z, z2);
    lemma_qmul_congruence_right(s.num, z, z2);
}

/// Scaling by a value equal to one gives an equal value.
pub proof fn lemma_qe_scale_one(s: Qe, w: Q)
    requires
        qe_wf(s),
        qwf(w),
        qeq(w, qone()),
    ensures
        qe_eq(qe_scale(s, w), s),
{
    lemma_qmul_one_right(s.inf, w);
    lemma_qmul_one_right(s.num, w);
}

/// Scaling by a value equal to zero gives a value equal to zero.
pub proof fn lemma_qe_scale_zero(s: Qe, z: Q)
    requires
        qe_wf(s),
        qwf(z),
        qeq(z, qzero()),
    ensures
        qe_eq(qe_scale(s, z), qe_zero()),
{
    lemma_qmul_zero(s.inf, z);
    lemma_qmul_zero(s.num, z);
}

/// Subtracting an equal value gives a value equal to zero.
pub proof fn lemma_qe_sub_cancel(x: Qe, y: Qe)
    requires
        qe_wf(x),
        qe_wf(y),
        qe_eq(y, x),
    ensures
        qe_eq(qe_sub(x, y), qe_zero()),
{
    lemma_qsub_cancel(x.inf, y.inf);
    lemma_qsub_cancel(x.num, y.num);
}

/// Subtracting a value equal to zero gives an equal value.
pub proof fn lemma_qe_sub_zero_right(x: Qe, z: Qe)
    requires
        qe_wf(x),
        qe_wf(z),
        qe_eq(z, qe_zero()),
    ensures
        qe_eq(qe_sub(x, z), x),
{
    lemma_qsub_zero_right(x.inf, z.inf);
    lemma_qsub_zero_right(x.num, z.num);
}

/// Component-wise sums and differences of well-formed extended numbers are
/// well formed.
pub proof fn lemma_qe_ops_wf(a: Qe, b: Qe)
    requires
        qe_wf(a),
        qe_wf(b),
    ensures
        qe_wf(qe_add(a, b)),
        qe_wf(qe_sub(a, b)),
    {
    lemma_qops_wf(a.inf, b.inf);
    lemma_qops_wf(a.num, b.num);
}

/// The lexicographic order is total on well-formed values.
pub proof fn lemma_qe_order_total(a: Qe, b: Qe)
    requires
        qe_wf(a),
        qe_wf(b),
    ensures
        !qe_le(a, b) ==> qe_lt(b, a),
        !qe_lt(a, b) ==> qe_le(b, a),
{
}

/// Equal values stay in (possibly strict) order when either side is
/// replaced by an equal one.
pub proof fn lemma_qe_le_congruence(a: Qe, a2: Qe, b: Qe, b2: Qe)
    requires
        qe_wf(a),
        qe_wf(a2),
        qe_wf(b),
        qe_wf(b2),
        qe_eq(a, a2),
        qe_eq(b, b2),
    ensures
        qe_le(a, b) ==> qe_le(a2, b2),
        qe_lt(a, b) ==> qe_lt(a2, b2),
{
    if qlt(a.inf, b.inf) {
        lemma_qlt_congruence(a.inf, a2.inf, b.inf, b2.inf);
    }
    if qeq(a.inf, b.inf) {
        lemma_qeq_trans(a2.inf, a.inf, b.inf);
        lemma_qeq_trans(a2.inf, b.inf, b2.inf);
        if qle(a.num, b.num) {
            lemma_qle_congruence(a.num, a2.num, b.num, b2.num);
        }
        if qlt(a.num, b.num) {
            lemma_qlt_congruence(a.num, a2.num, b.num, b2.num);
        }
    }
}

/// Transitivity of the lexicographic order, with a strict step on the right.
pub proof fn lemma_qe_le_qlt_trans(a: Qe, b: Qe, c: Qe)
    requires
        qe_wf(a),
        qe_wf(b),
        qe_wf(c),
        qe_le(a, b),
        qe_lt(b, c),
    ensures
        qe_lt(a, c),
{
    if qlt(a.inf, b.inf) && qlt(b.inf, c.inf) {
        lemma_qlt_qle_trans(a.inf, b.inf, c.inf);
    }
    if qlt(a.inf, b.inf) && qeq(b.inf, c.inf) {
        lemma_qlt_qle_trans(a.inf, b.inf, c.inf);
    }
    if qeq(a.inf, b.inf) && qlt(b.inf, c.inf) {
        lemma_qle_qlt_trans(a.inf, b.inf, c.inf);
    }
    if qeq(a.inf, b.inf) && qeq(b.inf, c.inf) {
        lemma_qeq_trans(a.inf, b.inf, c.inf);
        if qle(a.num, b.num) && qlt(b.num, c.num) {
            lemma_qle_qlt_trans(a.num, b.num, c.num);
        }
    }
}

/// Transitivity of the lexicographic order, with a strict step on the left.
pub proof fn lemma_qe_lt_qle_trans(a: Qe, b: Qe, c: Qe)
    requires
        qe_wf(a),
        qe_wf(b),
        qe_wf(c),
        qe_lt(a, b),
        qe_le(b, c),
    ensures
        qe_lt(a, c),
{
    if qlt(a.inf, b.inf) && qlt(b.inf, c.inf) {
        lemma_qlt_qle_trans(a.inf, b.inf, c.inf);
    }
    if qlt(a.inf, b.inf) && qeq(b.inf, c.inf) {
        lemma_qlt_qle_trans(a.inf, b.inf, c.inf);
    }
    if qeq(a.inf, b.inf) && qlt(b.inf, c.inf) {
        lemma_qle_qlt_trans(a.inf, b.inf, c.inf);
    }
    if qeq(a.inf, b.inf) && qeq(b.inf, c.inf) {
        lemma_qeq_trans(a.inf, b.inf, c.inf);
        if qlt(a.num, b.num) && qle(b.num, c.num) {
            lemma_qlt_qle_trans(a.num, b.num, c.num);
        }
    }
}

/// Scaling by a non-negative plain rational keeps the sign of an extended
/// number.
pub proof fn lemma_qe_scale_sign(s: Qe, c: Q)
    requires
        qe_wf(s),
        qwf(c),
        qle(qzero(), c),
    ensures
        qe_le(s, qe_zero()) ==> qe_le(qe_scale(s, c), qe_zero()),
        qe_le(qe_zero(), s) ==> qe_le(qe_zero(), qe_scale(s, c)),
{
    lemma_qops_wf(s.inf, c);
    lemma_qops_wf(s.num, c);
    lemma_qmul_sign(s.inf, c);
    lemma_qmul_sign(s.num, c);
    if c.n == 0 {
        assert(qeq(c, qzero()));
        lemma_qmul_zero(s.inf, c);
        lemma_qmul_zero(s.num, c);
    } else {
        assert(qlt(qzero(), c));
        if qlt(s.inf, qzero()) {
            lemma_qmul_sign(s.inf, c);
            assert(qlt(qmul(s.inf, c), qzero()));
        }
        if qlt(qzero(), s.inf) {
            assert(qlt(qzero(), qmul(s.inf, c)));
        }
        if qeq(s.inf, qzero()) {
            lemma_qmul_zero(s.inf, c);
        }
    }
}

/// Subtracting a non-positive extended value does not decrease an extended
/// value; subtracting a non-negative one does not increase it.
pub proof fn lemma_qe_sub_mono(x: Qe, t: Qe)
    requires
        qe_wf(x),
        qe_wf(t),
    ensures
        qe_le(t, qe_zero()) ==> qe_le(x, qe_sub(x, t)),
        qe_le(qe_zero(), t) ==> qe_le(qe_sub(x, t), x),
{
    lemma_qops_wf(x.inf, t.inf);
    lemma_qops_wf(x.num, t.num);
    lemma_qsub_mono(x.inf, t.inf);
    lemma_qsub_mono(x.num, t.num);
    if qeq(t.inf, qzero()) {
        lemma_qsub_zero_right(x.inf, t.inf);
    }
}

/// Scaling a well-formed extended number by a well-formed rational gives a
/// well-formed extended number.
pub proof fn lemma_qe_scale_wf(a: Qe, c: Q)
    requires
        qe_wf(a),
        qwf(c),
    ensures
        qe_wf(qe_scale(a, c)),
{
    crate::rat::lemma_qops_wf(a.inf, c);
    crate::rat::lemma_qops_wf(a.num, c);
}

/// Replacing the subtrahend of an exact difference by an equal value gives
/// an equal difference, component by component.
pub proof fn lemma_qe_sub_congruence_right(a: Qe, b: Qe, b2: Qe, x: Qe)
    requires
        qe_wf(a),
        qe_wf(b),
        qe_wf(b2),
        qe_wf(x),
        qe_eq(b, b2),
        qe_eq(x, qe_sub(a, b)),
    ensures
        qe_eq(x, qe_sub(a, b2)),
{
    crate::rat::lemma_qsub_congruence_right(a.inf, b.inf, b2.inf, x.inf);
    crate::rat::lemma_qsub_congruence_right(a.num, b.num, b2.num, x.num);
}

/// An extended penalty number `inf * M + num`: a symbolic multiple of an
/// arbitrarily large positive constant M plus a finite value.  Only the
/// objective row of a tableau carries such coefficients.
#[derive(Clone, Copy)]
pub struct InfNum {
    pub inf: Rat,
    pub num: Rat,
}

impl View for InfNum {
    type V = Qe;

    open spec fn view(&self) -> Qe {
        Qe { inf: self.inf@, num: self.num@ }
    }
}

impl InfNum {
    /// Both components are valid rationals.
    pub open spec fn wf(self) -> bool {
        self.inf.wf() && self.num.wf()
    }

    pub fn new(inf: Rat, num: Rat) -> (r: InfNum)
        ensures
            r.inf == inf,
            r.num == num,
    {
        InfNum { inf, num }
    }

    pub fn inf(&self) -> (r: &Rat)
        ensures
            r == self.inf,
    {
        &self.inf
    }

    pub fn num(&self) -> (r: &Rat)
        ensures
            r == self.num,
    {
        &self.num
    }

    /// The extended zero.
    pub fn zero() -> (r: InfNum)
        ensures
            r.wf(),
            r@ == qe_zero(),
    {
        InfNum { inf: Rat::zero(), num: Rat::zero() }
    }

    /// The plain one: no penalty component.
    pub fn one() -> (r: InfNum)
        ensures
            r.wf(),
            r@ == qe_one(),
    {
        InfNum { inf: Rat::zero(), num: Rat::one() }
    }

    /// One unit of the penalty constant M.
    pub fn one_inf() -> (r: InfNum)
        ensures
            r.wf(),
            r@ == qe_one_inf(),
    {
        InfNum { inf: Rat::one(), num: Rat::zero() }
    }

    /// Exact component-wise sum.
    pub fn try_add(&self, other: &InfNum) -> (r: Option<InfNum>)
        requires
            self.wf(),
            other.wf(),
        ensures
            r matches Some(x) ==> x.wf() && qe_eq(x@, qe_add(self@, other@)),
            r is Some <==> representable(qadd(self@.inf, other@.inf)) && representable(
                qadd(self@.num, other@.num),
            ),
    {
        let inf = self.inf.try_add(&other.inf)?;
        let num = self.num.try_add(&other.num)?;
        Some(InfNum { inf, num })
    }

    /// Exact component-wise difference.
    pub fn try_sub(&self, other: &InfNum) -> (r: Option<InfNum>)
        requires
            self.wf(),
            other.wf(),
        ensures
            r matches Some(x) ==> x.wf() && qe_eq(x@, qe_sub(self@, other@)),
            r is Some <==> representable(qsub(self@.inf, other@.inf)) && representable(
                qsub(self@.num, other@.num),
            ),
    {
        let inf = self.inf.try_sub(&other.inf)?;
        let num = self.num.try_sub(&other.num)?;
        Some(InfNum { inf, num })
    }

    /// Exact component-wise negation.
    pub fn try_neg(&self) -> (r: Option<InfNum>)
        requires
            self.wf(),
        ensures
            r matches Some(x) ==> x.wf() && x@ == qe_neg(self@),
            r is Some <==> self.inf.n != i64::MIN && self.num.n != i64::MIN,
    {
        let inf = self.inf.try_neg()?;
        let num = self.num.try_neg()?;
        Some(InfNum { inf, num })
    }

    /// Exact scaling by a plain rational, applied to both components.
    pub fn try_scale(&self, c: &Rat) -> (r: Option<InfNum>)
        requires
            self.wf(),
            c.wf(),
        ensures
            r matches Some(x) ==> x.wf() && qe_eq(x@, qe_scale(self@, c@)),
            r is Some <==> representable(qmul(self@.inf, c@)) && representable(
                qmul(self@.num, c@),
            ),
    {
        let inf = self.inf.try_mul(c)?;
        let num = self.num.try_mul(c)?;
        Some(InfNum { inf, num })
    }

    /// Exact order test: the penalty component decides, the finite one breaks ties.
    pub fn le(&self, other: &InfNum) -> (r: bool)
        requires
            self.wf(),
            other.wf(),
        ensures
            r == qe_le(self@, other@),
    {
        if self.inf.lt(&other.inf) {
            true
        } else if self.inf.eq_val(&other.inf) {
            self.num.le(&other.num)
        } else {
            false
        }
    }

    /// Exact strict order test.
    pub fn lt(&self, other: &InfNum) -> (r: bool)
        requires
            self.wf(),
            other.wf(),
        ensures
            r == qe_lt(self@, other@),
    {
        if self.inf.lt(&other.inf) {
            true
        } else if self.inf.eq_val(&other.inf) {
            self.num.lt(&other.num)
        } else {
            false
        }
    }
}

} // verus!
