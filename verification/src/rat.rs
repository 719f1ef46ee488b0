use vstd::prelude::*;

verus! {

/// Mathematical model of a rational number: an integer numerator over a
/// positive integer denominator.  Two models denote the same rational when
/// they agree under cross multiplication (`qeq`).
pub struct Q {
    pub n: int,
    pub d: int,
}

/// A model is well formed when its denominator is positive.
pub open spec fn qwf(a: Q) -> bool {
    a.d >= 1
}

/// The rational zero.
pub open spec fn qzero() -> Q {
    Q { n: 0, d: 1 }
}

/// The rational one.
pub open spec fn qone() -> Q {
    Q { n: 1, d: 1 }
}

/// Value equality of two models: a/b == c/d iff a*d == c*b.
pub open spec fn qeq(a: Q, b: Q) -> bool {
    a.n * b.d == b.n * a.d
}

/// Order on models: a/b <= c/d iff a*d <= c*b (valid for positive denominators).
pub open spec fn qle(a: Q, b: Q) -> bool {
    a.n * b.d <= b.n * a.d
}

/// Strict order on models.
pub open spec fn qlt(a: Q, b: Q) -> bool {
    a.n * b.d < b.n * a.d
}

/// Exact sum of two models.
pub open spec fn qadd(a: Q, b: Q) -> Q {
    Q { n: a.n * b.d + b.n * a.d, d: a.d * b.d }
}

/// Exact negation of a model.
pub open spec fn qneg(a: Q) -> Q {
    Q { n: -a.n, d: a.d }
}

/// Exact difference of two models.
pub open spec fn qsub(a: Q, b: Q) -> Q {
    qadd(a, qneg(b))
}

/// Exact product of two models.
pub open spec fn qmul(a: Q, b: Q) -> Q {
    Q { n: a.n * b.n, d: a.d * b.d }
}

/// Exact reciprocal of a model, with the sign kept in the numerator so that
/// the denominator stays positive.
pub open spec fn qinv(a: Q) -> Q {
    if a.n >= 0 {
        Q { n: a.d, d: a.n }
    } else {
        Q { n: -a.d, d: -a.n }
    }
}

/// Exact quotient of two models.
pub open spec fn qdiv(a: Q, b: Q) -> Q {
    qmul(a, qinv(b))
}

/// The product of a 64-bit numerator and a positive 64-bit denominator
/// stays far inside the 128-bit range.
proof fn lemma_cross_mul_in_range(a: int, b: int)
    by (nonlinear_arith)
    requires
        -0x8000_0000_0000_0000 <= a <= 0x7fff_ffff_ffff_ffff,
        1 <= b <= 0x7fff_ffff_ffff_ffff,
    ensures
        -0x8000_0000_0000_0000_0000_0000_0000_0000 <= a * b,
        a * b <= 0x7fff_ffff_ffff_ffff_ffff_ffff_ffff_ffff,
{
}

/// The exact sum, difference and product of well-formed models are well
/// formed: products of positive denominators are positive.
pub proof fn lemma_qops_wf(a: Q, b: Q)
    by (nonlinear_arith)
    requires
        qwf(a),
        qwf(b),
    ensures
        qwf(qadd(a, b)),
        qwf(qsub(a, b)),
        qwf(qmul(a, b)),
{
}

/// Replacing the subtrahend of an exact difference by an equal value gives
/// an equal difference.
#[verifier::rlimit(50)]
pub proof fn lemma_qsub_congruence_right(a: Q, b: Q, b2: Q, x: Q)
    requires
        qwf(a),
        qwf(b),
        qwf(b2),
        qwf(x),
        qeq(b, b2),
        qeq(x, qsub(a, b)),
    ensures
        qeq(x, qsub(a, b2)),
{
    assert(b2.d * (x.n * (a.d * b.d)) == b2.d * ((a.n * b.d + (-b.n) * a.d) * x.d));
    assert(b2.d * (x.n * (a.d * b.d)) == b.d * (x.n * (a.d * b2.d))) by (nonlinear_arith);
    assert(b2.d * ((a.n * b.d + (-b.n) * a.d) * x.d) == b2.d * ((a.n * b.d) * x.d) + b2.d * ((
        (-b.n) * a.d) * x.d)) by (nonlinear_arith);
    assert(b2.d * ((a.n * b.d) * x.d) == (a.n * (b.d * b2.d)) * x.d) by (nonlinear_arith);
    assert(b2.d * (((-b.n) * a.d) * x.d) == -(((b.n * b2.d) * a.d) * x.d)) by (nonlinear_arith);
    assert(((b.n * b2.d) * a.d) * x.d == ((b2.n * b.d) * a.d) * x.d);
    assert(b.d * ((a.n * b2.d + (-b2.n) * a.d) * x.d) == b.d * ((a.n * b2.d) * x.d) + b.d * ((
        (-b2.n) * a.d) * x.d)) by (nonlinear_arith);
    assert(b.d * ((a.n * b2.d) * x.d) == (a.n * (b.d * b2.d)) * x.d) by (nonlinear_arith);
    assert(b.d * (((-b2.n) * a.d) * x.d) == -(((b2.n * b.d) * a.d) * x.d)) by (nonlinear_arith);
    assert(b.d * (x.n * (a.d * b2.d)) == b.d * ((a.n * b2.d + (-b2.n) * a.d) * x.d));
    assert(x.n * (a.d * b2.d) == (a.n * b2.d + (-b2.n) * a.d) * x.d) by (nonlinear_arith)
        requires
            b.d >= 1,
            b.d * (x.n * (a.d * b2.d)) == b.d * ((a.n * b2.d + (-b2.n) * a.d) * x.d),
    ;
}


/// Transitivity of the order on well-formed models.
pub proof fn lemma_qle_trans(a: Q, b: Q, c: Q)
    requires
        qwf(a),
        qwf(b),
        qwf(c),
        qle(a, b),
        qle(b, c),
    ensures
        qle(a, c),
{
    assert(c.d * (a.n * b.d) <= c.d * (b.n * a.d)) by (nonlinear_arith)
        requires
            a.n * b.d <= b.n * a.d,
            c.d >= 1,
    ;
    assert(a.d * (b.n * c.d) <= a.d * (c.n * b.d)) by (nonlinear_arith)
        requires
            b.n * c.d <= c.n * b.d,
            a.d >= 1,
    ;
    assert(c.d * (b.n * a.d) == a.d * (b.n * c.d)) by (nonlinear_arith);
    assert(c.d * (a.n * b.d) == b.d * (a.n * c.d)) by (nonlinear_arith);
    assert(a.d * (c.n * b.d) == b.d * (c.n * a.d)) by (nonlinear_arith);
    assert(b.d * (a.n * c.d) <= b.d * (c.n * a.d));
    assert(a.n * c.d <= c.n * a.d) by (nonlinear_arith)
        requires
            b.d >= 1,
            b.d * (a.n * c.d) <= b.d * (c.n * a.d),
    ;
}

/// Transitivity with a strict step on the left.
pub proof fn lemma_qlt_qle_trans(a: Q, b: Q, c: Q)
    requires
        qwf(a),
        qwf(b),
        qwf(c),
        qlt(a, b),
        qle(b, c),
    ensures
        qlt(a, c),
{
    assert(c.d * (a.n * b.d) < c.d * (b.n * a.d)) by (nonlinear_arith)
        requires
            a.n * b.d < b.n * a.d,
            c.d >= 1,
    ;
    assert(a.d * (b.n * c.d) <= a.d * (c.n * b.d)) by (nonlinear_arith)
        requires
            b.n * c.d <= c.n * b.d,
            a.d >= 1,
    ;
    assert(c.d * (b.n * a.d) == a.d * (b.n * c.d)) by (nonlinear_arith);
    assert(c.d * (a.n * b.d) == b.d * (a.n * c.d)) by (nonlinear_arith);
    assert(a.d * (c.n * b.d) == b.d * (c.n * a.d)) by (nonlinear_arith);
    assert(b.d * (a.n * c.d) < b.d * (c.n * a.d));
    assert(a.n * c.d < c.n * a.d) by (nonlinear_arith)
        requires
            b.d >= 1,
            b.d * (a.n * c.d) < b.d * (c.n * a.d),
    ;
}

/// Transitivity with a strict step on the right.
pub proof fn lemma_qle_qlt_trans(a: Q, b: Q, c: Q)
    requires
        qwf(a),
        qwf(b),
        qwf(c),
        qle(a, b),
        qlt(b, c),
    ensures
        qlt(a, c),
{
    assert(c.d * (a.n * b.d) <= c.d * (b.n * a.d)) by (nonlinear_arith)
        requires
            a.n * b.d <= b.n * a.d,
            c.d >= 1,
    ;
    assert(a.d * (b.n * c.d) < a.d * (c.n * b.d)) by (nonlinear_arith)
        requires
            b.n * c.d < c.n * b.d,
            a.d >= 1,
    ;
    assert(c.d * (b.n * a.d) == a.d * (b.n * c.d)) by (nonlinear_arith);
    assert(c.d * (a.n * b.d) == b.d * (a.n * c.d)) by (nonlinear_arith);
    assert(a.d * (c.n * b.d) == b.d * (c.n * a.d)) by (nonlinear_arith);
    assert(b.d * (a.n * c.d) < b.d * (c.n * a.d));
    assert(a.n * c.d < c.n * a.d) by (nonlinear_arith)
        requires
            b.d >= 1,
            b.d * (a.n * c.d) < b.d * (c.n * a.d),
    ;
}

/// Transitivity of value equality.
pub proof fn lemma_qeq_trans(a: Q, b: Q, c: Q)
    requires
        qwf(a),
        qwf(b),
        qwf(c),
        qeq(a, b),
        qeq(b, c),
    ensures
        qeq(a, c),
{
    lemma_qle_trans(a, b, c);
    lemma_qle_trans(c, b, a);
}

/// Equal values stay in order when either side is replaced by an equal one.
pub proof fn lemma_qle_congruence(a: Q, a2: Q, b: Q, b2: Q)
    requires
        qwf(a),
        qwf(a2),
        qwf(b),
        qwf(b2),
        qeq(a, a2),
        qeq(b, b2),
        qle(a, b),
    ensures
        qle(a2, b2),
{
    lemma_qle_trans(a2, a, b);
    lemma_qle_trans(a2, b, b2);
}

/// Equal values stay in strict order when either side is replaced by an
/// equal one.
pub proof fn lemma_qlt_congruence(a: Q, a2: Q, b: Q, b2: Q)
    requires
        qwf(a),
        qwf(a2),
        qwf(b),
        qwf(b2),
        qeq(a, a2),
        qeq(b, b2),
        qlt(a, b),
    ensures
        qlt(a2, b2),
{
    lemma_qle_qlt_trans(a2, a, b);
    lemma_qlt_qle_trans(a2, b, b2);
}

/// Replacing the left factor of an exact product by an equal value gives an
/// equal product.
pub proof fn lemma_qmul_congruence_left(a: Q, a2: Q, b: Q)
    requires
        qwf(a),
        qwf(a2),
        qwf(b),
        qeq(a, a2),
    ensures
        qeq(qmul(a, b), qmul(a2, b)),
{
    assert((a.n * b.n) * (a2.d * b.d) == (a.n * a2.d) * (b.n * b.d)) by (nonlinear_arith);
    assert((a.n * a2.d) * (b.n * b.d) == (a2.n * a.d) * (b.n * b.d));
    assert((a2.n * a.d) * (b.n * b.d) == (a2.n * b.n) * (a.d * b.d)) by (nonlinear_arith);
}

/// Replacing the right factor of an exact product by an equal value gives an
/// equal product.
pub proof fn lemma_qmul_congruence_right(a: Q, b: Q, b2: Q)
    requires
        qwf(a),
        qwf(b),
        qwf(b2),
        qeq(b, b2),
    ensures
        qeq(qmul(a, b), qmul(a, b2)),
{
    assert((a.n * b.n) * (a.d * b2.d) == (b.n * b2.d) * (a.n * a.d)) by (nonlinear_arith);
    assert((b.n * b2.d) * (a.n * a.d) == (b2.n * b.d) * (a.n * a.d));
    assert((b2.n * b.d) * (a.n * a.d) == (a.n * b2.n) * (a.d * b.d)) by (nonlinear_arith);
}

/// Multiplying by a value equal to one gives an equal value.
pub proof fn lemma_qmul_one_right(a: Q, w: Q)
    requires
        qwf(a),
        qwf(w),
        qeq(w, qone()),
    ensures
        qeq(qmul(a, w), a),
{
    assert(w.n == w.d) by (nonlinear_arith)
        requires
            w.n * 1 == 1 * w.d,
    ;
    assert((a.n * w.n) * a.d == a.n * (a.d * w.n)) by (nonlinear_arith);
    assert(a.n * (a.d * w.n) == a.n * (a.d * w.d));
}

/// Multiplying on the left by a value equal to one gives an equal value.
pub proof fn lemma_qmul_one_left(w: Q, a: Q)
    requires
        qwf(a),
        qwf(w),
        qeq(w, qone()),
    ensures
        qeq(qmul(w, a), a),
{
    assert(w.n == w.d) by (nonlinear_arith)
        requires
            w.n * 1 == 1 * w.d,
    ;
    assert((w.n * a.n) * a.d == a.n * (w.n * a.d)) by (nonlinear_arith);
    assert(a.n * (w.n * a.d) == a.n * (w.d * a.d));
}

/// Multiplying a value equal to zero, on either side, gives a value equal to
/// zero.
pub proof fn lemma_qmul_zero(a: Q, b: Q)
    requires
        qwf(a),
        qwf(b),
    ensures
        qeq(a, qzero()) ==> qeq(qmul(a, b), qzero()),
        qeq(b, qzero()) ==> qeq(qmul(a, b), qzero()),
{
    if qeq(a, qzero()) {
        assert(a.n == 0);
        assert(a.n * b.n == 0) by (nonlinear_arith)
            requires
                a.n == 0,
        ;
    }
    if qeq(b, qzero()) {
        assert(b.n == 0);
        assert(a.n * b.n == 0) by (nonlinear_arith)
            requires
                b.n == 0,
        ;
    }
}

/// A nonzero value times its reciprocal is one, and the reciprocal is well
/// formed.
pub proof fn lemma_qmul_inv(p: Q)
    requires
        qwf(p),
        p.n != 0,
    ensures
        qwf(qinv(p)),
        qeq(qmul(p, qinv(p)), qone()),
{
    if p.n >= 0 {
        assert((p.n * p.d) * 1 == 1 * (p.d * p.n)) by (nonlinear_arith);
    } else {
        assert((p.n * -p.d) * 1 == 1 * (p.d * -p.n)) by (nonlinear_arith);
    }
}

/// Subtracting an equal value gives a value equal to zero.
pub proof fn lemma_qsub_cancel(x: Q, y: Q)
    requires
        qwf(x),
        qwf(y),
        qeq(y, x),
    ensures
        qeq(qsub(x, y), qzero()),
{
    assert((x.n * y.d + (-y.n) * x.d) * 1 == 0 * (x.d * y.d)) by (nonlinear_arith)
        requires
            y.n * x.d == x.n * y.d,
    ;
}

/// Subtracting a value equal to zero gives an equal value.
pub proof fn lemma_qsub_zero_right(x: Q, z: Q)
    requires
        qwf(x),
        qwf(z),
        qeq(z, qzero()),
    ensures
        qeq(qsub(x, z), x),
{
    assert(z.n == 0);
    assert((-z.n) * x.d == 0) by (nonlinear_arith)
        requires
            z.n == 0,
    ;
    assert((x.n * z.d) * x.d == x.n * (x.d * z.d)) by (nonlinear_arith);
}

/// Signs of exact products.
pub proof fn lemma_qmul_sign(a: Q, b: Q)
    requires
        qwf(a),
        qwf(b),
    ensures
        qle(a, qzero()) && qle(qzero(), b) ==> qle(qmul(a, b), qzero()),
        qle(qzero(), a) && qle(b, qzero()) ==> qle(qmul(a, b), qzero()),
        qle(qzero(), a) && qle(qzero(), b) ==> qle(qzero(), qmul(a, b)),
        qlt(a, qzero()) && qlt(qzero(), b) ==> qlt(qmul(a, b), qzero()),
        qlt(qzero(), a) && qlt(qzero(), b) ==> qlt(qzero(), qmul(a, b)),
{
    if qlt(a, qzero()) && qlt(qzero(), b) {
        assert(a.n * b.n < 0) by (nonlinear_arith)
            requires
                a.n < 0,
                b.n >= 1,
        ;
    }
    if qlt(qzero(), a) && qlt(qzero(), b) {
        assert(a.n * b.n > 0) by (nonlinear_arith)
            requires
                a.n >= 1,
                b.n >= 1,
        ;
    }
    if qle(a, qzero()) && qle(qzero(), b) {
        assert(a.n * b.n <= 0) by (nonlinear_arith)
            requires
                a.n <= 0,
                b.n >= 0,
        ;
    }
    if qle(qzero(), a) && qle(b, qzero()) {
        assert(a.n * b.n <= 0) by (nonlinear_arith)
            requires
                a.n >= 0,
                b.n <= 0,
        ;
    }
    if qle(qzero(), a) && qle(qzero(), b) {
        assert(a.n * b.n >= 0) by (nonlinear_arith)
            requires
                a.n >= 0,
                b.n >= 0,
        ;
    }
}

/// Subtracting a non-positive value does not decrease a value; subtracting a
/// non-negative value does not increase it; strictly so for strict signs.
pub proof fn lemma_qsub_mono(x: Q, t: Q)
    requires
        qwf(x),
        qwf(t),
    ensures
        qle(t, qzero()) ==> qle(x, qsub(x, t)),
        qle(qzero(), t) ==> qle(qsub(x, t), x),
        qlt(t, qzero()) ==> qlt(x, qsub(x, t)),
        qlt(qzero(), t) ==> qlt(qsub(x, t), x),
{
    if qlt(t, qzero()) {
        assert(x.n * (x.d * t.d) < (x.n * t.d + (-t.n) * x.d) * x.d) by (nonlinear_arith)
            requires
                t.n < 0,
                x.d >= 1,
                t.d >= 1,
        ;
    }
    if qlt(qzero(), t) {
        assert((x.n * t.d + (-t.n) * x.d) * x.d < x.n * (x.d * t.d)) by (nonlinear_arith)
            requires
                t.n >= 1,
                x.d >= 1,
                t.d >= 1,
        ;
    }
    if qle(t, qzero()) {
        assert(x.n * (x.d * t.d) <= (x.n * t.d + (-t.n) * x.d) * x.d) by (nonlinear_arith)
            requires
                t.n <= 0,
                x.d >= 1,
                t.d >= 1,
        ;
    }
    if qle(qzero(), t) {
        assert((x.n * t.d + (-t.n) * x.d) * x.d <= x.n * (x.d * t.d)) by (nonlinear_arith)
            requires
                t.n >= 0,
                x.d >= 1,
                t.d >= 1,
        ;
    }
}

/// Division by a strictly positive value is well formed.
pub proof fn lemma_qdiv_wf(a: Q, b: Q)
    requires
        qwf(a),
        qwf(b),
        qlt(qzero(), b),
    ensures
        qwf(qdiv(a, b)),
{
    assert(b.n >= 1);
    assert(a.d * b.n >= 1) by (nonlinear_arith)
        requires
            a.d >= 1,
            b.n >= 1,
    ;
}

/// A non-negative value divided by a positive value is non-negative and well
/// formed.
pub proof fn lemma_qdiv_nonneg(a: Q, b: Q)
    requires
        qwf(a),
        qwf(b),
        qle(qzero(), a),
        qlt(qzero(), b),
    ensures
        qwf(qdiv(a, b)),
        qle(qzero(), qdiv(a, b)),
{
    assert(b.n >= 1);
    assert(a.d * b.n >= 1) by (nonlinear_arith)
        requires
            a.d >= 1,
            b.n >= 1,
    ;
    assert(a.n * b.d >= 0) by (nonlinear_arith)
        requires
            a.n >= 0,
            b.d >= 1,
    ;
}

/// The minimum-ratio guarantee: when `th` is at most `r / c` for a positive
/// `c` and everything is well formed, `r - th * c` is non-negative.
pub proof fn lemma_ratio_bound(r: Q, c: Q, th: Q)
    requires
        qwf(r),
        qwf(c),
        qwf(th),
        qlt(qzero(), c),
        qle(th, qdiv(r, c)),
    ensures
        qle(qzero(), qsub(r, qmul(th, c))),
{
    assert(c.n >= 1);
    assert(th.n * (r.d * c.n) <= (r.n * c.d) * th.d);
    assert(r.n * (th.d * c.d) - (th.n * c.n) * r.d >= 0) by (nonlinear_arith)
        requires
            th.n * (r.d * c.n) <= (r.n * c.d) * th.d,
    ;
    assert(0 * (r.d * (th.d * c.d)) <= (r.n * (th.d * c.d) + (-(th.n * c.n)) * r.d) * 1)
        by (nonlinear_arith)
        requires
            r.n * (th.d * c.d) - (th.n * c.n) * r.d >= 0,
    ;
}

/// The value has an equal fraction whose numerator and positive denominator
/// both fit 64 signed bits.
pub open spec fn representable(q: Q) -> bool {
    exists|n: int, d: int|
        i64::MIN <= n <= i64::MAX && 1 <= d <= i64::MAX && #[trigger] qeq(Q { n, d }, q)
}

/// Equal values are representable together.
pub proof fn lemma_representable_congruence(a: Q, b: Q)
    requires
        qwf(a),
        qwf(b),
        qeq(a, b),
    ensures
        representable(a) <==> representable(b),
{
    if representable(a) {
        let (n, d) = choose|n: int, d: int|
            i64::MIN <= n <= i64::MAX && 1 <= d <= i64::MAX && #[trigger] qeq(Q { n, d }, a);
        lemma_qeq_trans(Q { n, d }, a, b);
        assert(qeq(Q { n, d }, b));
    }
    if representable(b) {
        let (n, d) = choose|n: int, d: int|
            i64::MIN <= n <= i64::MAX && 1 <= d <= i64::MAX && #[trigger] qeq(Q { n, d }, b);
        lemma_qeq_trans(Q { n, d }, b, a);
        assert(qeq(Q { n, d }, a));
    }
}

/// Subtracting `c` times `o` from `x` stays within the representation: both
/// the product and the difference have equal 64-bit fractions.
pub open spec fn sub_scaled_representable(x: Q, o: Q, c: Q) -> bool {
    representable(qmul(o, c)) && representable(qsub(x, qmul(o, c)))
}

/// The two values of `sub_scaled_representable` move together when the
/// scaled operand is replaced by an equal value.
pub proof fn lemma_sub_scaled_fit_congruence(x: Q, o: Q, o2: Q, c: Q)
    requires
        qwf(x),
        qwf(o),
        qwf(o2),
        qwf(c),
        qeq(o, o2),
    ensures
        sub_scaled_representable(x, o, c) <==> sub_scaled_representable(x, o2, c),
{
    lemma_qops_wf(o, c);
    lemma_qops_wf(o2, c);
    lemma_qops_wf(x, qmul(o, c));
    lemma_qops_wf(x, qmul(o2, c));
    lemma_qmul_congruence_left(o, o2, c);
    lemma_representable_congruence(qmul(o, c), qmul(o2, c));
    lemma_qsub_congruence_right(x, qmul(o, c), qmul(o2, c), qsub(x, qmul(o, c)));
    lemma_qsub_congruence_right(x, qmul(o2, c), qmul(o, c), qsub(x, qmul(o2, c)));
    lemma_representable_congruence(qsub(x, qmul(o, c)), qsub(x, qmul(o2, c)));
}

/// Representability of a difference is unchanged when the subtrahend is
/// replaced by an equal value.
pub proof fn lemma_qsub_representable_congruence(x: Q, b: Q, b2: Q)
    requires
        qwf(x),
        qwf(b),
        qwf(b2),
        qeq(b, b2),
    ensures
        representable(qsub(x, b)) <==> representable(qsub(x, b2)),
{
    lemma_qops_wf(x, b);
    lemma_qops_wf(x, b2);
    lemma_qsub_congruence_right(x, b, b2, qsub(x, b));
    lemma_qsub_congruence_right(x, b2, b, qsub(x, b2));
    lemma_representable_congruence(qsub(x, b), qsub(x, b2));
}

/// A rational number, held as a signed 64-bit numerator over a positive
/// 64-bit denominator.  Exact arithmetic whose result does not fit this
/// representation is reported as `None` by the operations below.
#[derive(Clone, Copy)]
pub struct Rat {
    pub n: i64,
    pub d: i64,
}

impl View for Rat {
    type V = Q;

    open spec fn view(&self) -> Q {
        Q { n: self.n as int, d: self.d as int }
    }
}

impl Rat {
    /// The representation is valid when the denominator is positive.
    pub open spec fn wf(self) -> bool {
        self.d >= 1
    }

    /// The rational with value `n`.
    pub fn from_int(n: i64) -> (r: Rat)
        ensures
            r.wf(),
            r@ == (Q { n: n as int, d: 1 }),
    {
        Rat { n, d: 1 }
    }

    /// The rational zero.
    pub fn zero() -> (r: Rat)
        ensures
            r.wf(),
            r@ == qzero(),
    {
        Rat { n: 0, d: 1 }
    }

    /// The rational one.
    pub fn one() -> (r: Rat)
        ensures
            r.wf(),
            r@ == qone(),
    {
        Rat { n: 1, d: 1 }
    }

    /// Relies on `num-rational`'s `Ratio<BigInt>` (re-exported by `fraction`):
    /// `Ratio::new` builds the exact rational reduced to lowest terms with a
    /// positive denominator, `+` is exact rational addition, and
    /// `i64::try_from(BigInt)` succeeds exactly when the value fits an `i64`.
    /// The reduced form has the smallest numerator magnitude and denominator
    /// among equal fractions, so the conversion succeeds exactly when some
    /// equal fraction fits the representation.
    #[verifier::external_body]
    pub(crate) fn try_add(&self, other: &Rat) -> (r: Option<Rat>)
        requires
            self.wf(),
            other.wf(),
        ensures
            r matches Some(x) ==> x.wf() && qeq(x@, qadd(self@, other@)),
            r is Some <==> representable(qadd(self@, other@)),
    {
        let a = fraction::Ratio::new(fraction::BigInt::from(self.n), fraction::BigInt::from(self.d));
        let b = fraction::Ratio::new(fraction::BigInt::from(other.n), fraction::BigInt::from(other.d));
        let (num, den) = (a + b).into_raw();
        let n = i64::try_from(num).ok()?;
        let d = i64::try_from(den).ok()?;
        Some(Rat { n, d })
    }

    /// Relies on `num-rational`'s `Ratio<BigInt>` (re-exported by `fraction`):
    /// `Ratio::new` builds the exact rational reduced to lowest terms with a
    /// positive denominator, `*` is exact rational multiplication, and
    /// `i64::try_from(BigInt)` succeeds exactly when the value fits an `i64`.
    /// The reduced form has the smallest numerator magnitude and denominator
    /// among equal fractions, so the conversion succeeds exactly when some
    /// equal fraction fits the representation.
    #[verifier::external_body]
    pub(crate) fn try_mul(&self, other: &Rat) -> (r: Option<Rat>)
        requires
            self.wf(),
            other.wf(),
        ensures
            r matches Some(x) ==> x.wf() && qeq(x@, qmul(self@, other@)),
            r is Some <==> representable(qmul(self@, other@)),
    {
        let a = fraction::Ratio::new(fraction::BigInt::from(self.n), fraction::BigInt::from(self.d));
        let b = fraction::Ratio::new(fraction::BigInt::from(other.n), fraction::BigInt::from(other.d));
        let (num, den) = (a * b).into_raw();
        let n = i64::try_from(num).ok()?;
        let d = i64::try_from(den).ok()?;
        Some(Rat { n, d })
    }

    /// Exact negation; `None` only at the edge of the representation.
    pub fn try_neg(&self) -> (r: Option<Rat>)
        requires
            self.wf(),
        ensures
            r matches Some(x) ==> x.wf() && x@ == qneg(self@),
            r is None <==> self.n == i64::MIN,
    {
        if self.n == i64::MIN {
            None
        } else {
            Some(Rat { n: -self.n, d: self.d })
        }
    }

    /// Relies on `num-rational`'s `Ratio<BigInt>` (re-exported by `fraction`):
    /// `Ratio::new` builds the exact rational reduced to lowest terms with a
    /// positive denominator, `-` is exact rational subtraction, and
    /// `i64::try_from(BigInt)` succeeds exactly when the value fits an `i64`.
    /// The reduced form has the smallest numerator magnitude and denominator
    /// among equal fractions, so the conversion succeeds exactly when some
    /// equal fraction fits the representation.
    #[verifier::external_body]
    pub(crate) fn try_sub(&self, other: &Rat) -> (r: Option<Rat>)
        requires
            self.wf(),
            other.wf(),
        ensures
            r matches Some(x) ==> x.wf() && qeq(x@, qsub(self@, other@)),
            r is Some <==> representable(qsub(self@, other@)),
    {
        let a = fraction::Ratio::new(fraction::BigInt::from(self.n), fraction::BigInt::from(self.d));
        let b = fraction::Ratio::new(fraction::BigInt::from(other.n), fraction::BigInt::from(other.d));
        let (num, den) = (a - b).into_raw();
        let n = i64::try_from(num).ok()?;
        let d = i64::try_from(den).ok()?;
        Some(Rat { n, d })
    }

    /// Exact reciprocal; `None` only at the edge of the representation.
    pub fn try_inv(&self) -> (r: Option<Rat>)
        requires
            self.wf(),
            self@.n != 0,
        ensures
            r matches Some(x) ==> x.wf() && x@ == qinv(self@),
            r is None <==> self.n == i64::MIN,
    {
        if self.n == i64::MIN {
            None
        } else if self.n >= 1 {
            Some(Rat { n: self.d, d: self.n })
        } else {
            Some(Rat { n: -self.d, d: -self.n })
        }
    }

    /// Relies on `num-rational`'s `Ratio<BigInt>` (re-exported by `fraction`):
    /// `Ratio::new` builds the exact rational reduced to lowest terms with a
    /// positive denominator, `/` by a nonzero value is exact rational
    /// division, and `i64::try_from(BigInt)` succeeds exactly when the value
    /// fits an `i64`.  The reduced form has the smallest numerator magnitude
    /// and denominator among equal fractions, so the conversion succeeds
    /// exactly when some equal fraction fits the representation.
    #[verifier::external_body]
    pub(crate) fn try_div(&self, other: &Rat) -> (r: Option<Rat>)
        requires
            self.wf(),
            other.wf(),
            other@.n != 0,
        ensures
            r matches Some(x) ==> x.wf() && qeq(x@, qdiv(self@, other@)),
            r is Some <==> representable(qdiv(self@, other@)),
    {
        let a = fraction::Ratio::new(fraction::BigInt::from(self.n), fraction::BigInt::from(self.d));
        let b = fraction::Ratio::new(fraction::BigInt::from(other.n), fraction::BigInt::from(other.d));
        let (num, den) = (a / b).into_raw();
        let n = i64::try_from(num).ok()?;
        let d = i64::try_from(den).ok()?;
        Some(Rat { n, d })
    }

    /// Exact order test, by cross multiplication in 128-bit arithmetic.
    pub fn le(&self, other: &Rat) -> (r: bool)
        requires
            self.wf(),
            other.wf(),
        ensures
            r == qle(self@, other@),
    {
        proof {
            lemma_cross_mul_in_range(self.n as int, other.d as int);
            lemma_cross_mul_in_range(other.n as int, self.d as int);
        }
        let x: i128 = (self.n as i128) * (other.d as i128);
        let y: i128 = (other.n as i128) * (self.d as i128);
        x <= y
    }

    /// Exact strict order test, by cross multiplication in 128-bit arithmetic.
    pub fn lt(&self, other: &Rat) -> (r: bool)
        requires
            self.wf(),
            other.wf(),
        ensures
            r == qlt(self@, other@),
    {
        proof {
            lemma_cross_mul_in_range(self.n as int, other.d as int);
            lemma_cross_mul_in_range(other.n as int, self.d as int);
        }
        let x: i128 = (self.n as i128) * (other.d as i128);
        let y: i128 = (other.n as i128) * (self.d as i128);
        x < y
    }

    /// Exact value equality test, by cross multiplication in 128-bit arithmetic.
    pub fn eq_val(&self, other: &Rat) -> (r: bool)
        requires
            self.wf(),
            other.wf(),
        ensures
            r == qeq(self@, other@),
    {
        proof {
            lemma_cross_mul_in_range(self.n as int, other.d as int);
            lemma_cross_mul_in_range(other.n as int, self.d as int);
        }
        let x: i128 = (self.n as i128) * (other.d as i128);
        let y: i128 = (other.n as i128) * (self.d as i128);
        x == y
    }
}

} // verus!
