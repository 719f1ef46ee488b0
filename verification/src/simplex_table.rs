use vstd::prelude::*;

pub mod from_problem;

use crate::equation::Equation;
use crate::inf_num::{InfNum, Qe, qe_eq, qe_le, qe_lt, qe_scale, qe_sub, qe_sub_scaled_representable,
    qe_zero, qe_wf};
use crate::inf_num::{lemma_qe_ssr_congruence};
use crate::inf_num::{lemma_qe_eq_trans, lemma_qe_le_congruence, lemma_qe_le_qlt_trans,
    lemma_qe_lt_qle_trans, lemma_qe_ops_wf, lemma_qe_order_total, lemma_qe_scale_congruence,
    lemma_qe_scale_one, lemma_qe_scale_sign, lemma_qe_scale_wf, lemma_qe_scale_zero,
    lemma_qe_sub_cancel, lemma_qe_sub_congruence_right, lemma_qe_sub_mono, lemma_qe_sub_zero_right};
use crate::problem::Objective;
use crate::rat::{Q, Rat, qdiv, qeq, qinv, qle, qlt, qmul, qone, qsub, qzero, representable,
    sub_scaled_representable};
use crate::rat::{lemma_sub_scaled_fit_congruence};
use crate::rat::{lemma_qdiv_nonneg, lemma_qdiv_wf, lemma_qeq_trans, lemma_qle_congruence,
    lemma_qle_trans, lemma_qlt_congruence, lemma_qlt_qle_trans, lemma_qmul_congruence_left,
    lemma_qmul_inv, lemma_qmul_one_left, lemma_qmul_sign, lemma_qmul_zero, lemma_qops_wf,
    lemma_qsub_cancel, lemma_qsub_congruence_right, lemma_qsub_mono, lemma_qsub_zero_right,
    lemma_ratio_bound};

verus! {


/// One constraint row of the tableau: the 1-based column index of the
/// variable that is currently basic in the row, and the row's equation.
pub struct Row {
    pub basic: usize,
    pub eq: Equation<Rat>,
}

/// Why a pivot step could not run to completion.
#[derive(Clone, Copy, Debug, PartialEq, Eq, Structural)]
pub enum SimplexError {
    /// No row limits the entering variable: the problem is unbounded in the
    /// direction of optimization.
    Unbounded,
    /// An exact intermediate value did not fit the 64-bit rational
    /// representation.
    Overflow,
}

/// The full state of the simplex method at one iteration: the direction of
/// optimization, one row per constraint, and the objective row.
pub struct SimplexTable {
    pub objective: Objective,
    pub constraints: Vec<Row>,
    pub function: Equation<InfNum>,
}

impl SimplexTable {
    /// The number of constraint rows.
    pub open spec fn nrows(self) -> int {
        self.constraints@.len() as int
    }

    /// The number of columns, as the objective row has them.
    pub open spec fn width(self) -> int {
        self.function.lhs@.len() as int
    }

    /// The model of the coefficient of row `i` at column `k`.
    pub open spec fn entry(self, i: int, k: int) -> Q {
        self.constraints@[i].eq.lhs@[k]@
    }

    /// The model of the right-hand side of row `i`.
    pub open spec fn row_rhs(self, i: int) -> Q {
        self.constraints@[i].eq.rhs@
    }

    /// The 1-based basic-variable column of row `i`.
    pub open spec fn basic(self, i: int) -> int {
        self.constraints@[i].basic as int
    }

    /// The model of the objective-row coefficient at column `k`.
    pub open spec fn obj(self, k: int) -> Qe {
        self.function.lhs@[k]@
    }

    /// The model of the objective-row right-hand side.
    pub open spec fn obj_rhs(self) -> Qe {
        self.function.rhs@
    }

    /// Row `i` has one well-formed coefficient per column and a basic column
    /// within range.
    pub open spec fn row_shape_ok(self, i: int) -> bool {
        &&& self.constraints@[i].eq.wf()
        &&& self.constraints@[i].eq.lhs@.len() == self.width()
        &&& 1 <= self.basic(i) <= self.width()
    }

    /// Every row and the objective row are well formed and aligned to the
    /// same columns.
    pub open spec fn shape_wf(self) -> bool {
        &&& self.function.wf()
        &&& forall|i: int| 0 <= i < self.nrows() ==> #[trigger] self.row_shape_ok(i)
    }

    /// Every row's right-hand side is non-negative.
    pub open spec fn rhs_nonneg(self) -> bool {
        forall|i: int| 0 <= i < self.nrows() ==> qle(qzero(), #[trigger] self.row_rhs(i))
    }

    /// The column of row `i`'s basic variable holds one in row `i`, zero in
    /// every other row, and zero in the objective row.
    pub open spec fn basic_identity(self, i: int) -> bool {
        let b = self.basic(i) - 1;
        &&& qeq(self.entry(i, b), qone())
        &&& forall|i1: int|
            0 <= i1 < self.nrows() && i1 != i ==> qeq(#[trigger] self.entry(i1, b), qzero())
        &&& qe_eq(self.obj(b), qe_zero())
    }

    /// The tableau invariant: well-formed aligned rows, non-negative
    /// right-hand sides, and an identity column for every basic variable.
    pub open spec fn wf(self) -> bool {
        &&& self.shape_wf()
        &&& self.rhs_nonneg()
        &&& forall|i: int| 0 <= i < self.nrows() ==> #[trigger] self.basic_identity(i)
    }

    /// The objective-row coefficient at column `k` already satisfies the
    /// optimality sign condition for the run's direction.
    pub open spec fn obj_coef_ok(self, k: int) -> bool {
        match self.objective {
            Objective::Maximize => qe_le(qe_zero(), self.obj(k)),
            Objective::Minimize => qe_le(self.obj(k), qe_zero()),
        }
    }

    /// Every objective-row coefficient satisfies the optimality sign
    /// condition: the tableau is optimal.
    pub open spec fn is_optimal(self) -> bool {
        forall|k: int| 0 <= k < self.width() ==> #[trigger] self.obj_coef_ok(k)
    }

    /// `a` is a strictly better objective-row coefficient than `b` for the
    /// run's direction: more negative for a maximization, more positive for
    /// a minimization.
    pub open spec fn better(self, a: Qe, b: Qe) -> bool {
        match self.objective {
            Objective::Maximize => qe_lt(a, b),
            Objective::Minimize => qe_lt(b, a),
        }
    }

    /// Column `e` is the entering column: its coefficient violates the
    /// optimality condition, no column has a strictly better coefficient,
    /// and every earlier column is strictly worse.
    pub open spec fn is_entering(self, e: int) -> bool {
        &&& 0 <= e < self.width()
        &&& !self.obj_coef_ok(e)
        &&& forall|k: int| 0 <= k < self.width() ==> !self.better(#[trigger] self.obj(k), self.obj(e))
        &&& forall|k: int| 0 <= k < e ==> self.better(self.obj(e), #[trigger] self.obj(k))
    }

    /// Row `i` takes part in the minimum-ratio test for entering column `e`:
    /// its coefficient there is strictly positive.
    pub open spec fn eligible(self, e: int, i: int) -> bool {
        qlt(qzero(), self.entry(i, e))
    }

    /// The ratio of row `i` for entering column `e`.
    pub open spec fn ratio(self, e: int, i: int) -> Q {
        qdiv(self.row_rhs(i), self.entry(i, e))
    }

    /// Some row takes part in the minimum-ratio test.
    pub open spec fn has_eligible(self, e: int) -> bool {
        exists|i: int| 0 <= i < self.nrows() && #[trigger] self.eligible(e, i)
    }

    /// Row `j` is the leaving row for entering column `e`: it is eligible,
    /// attains the minimum ratio, and every earlier eligible row has a
    /// strictly greater ratio.
    pub open spec fn is_leaving(self, e: int, j: int) -> bool {
        &&& 0 <= j < self.nrows()
        &&& self.eligible(e, j)
        &&& forall|i: int|
            0 <= i < self.nrows() && #[trigger] self.eligible(e, i) ==> qle(
                self.ratio(e, j),
                self.ratio(e, i),
            )
        &&& forall|i: int|
            0 <= i < j && #[trigger] self.eligible(e, i) ==> qlt(
                self.ratio(e, j),
                self.ratio(e, i),
            )
    }

    /// A strictly better coefficient than `b` is strictly better than any
    /// coefficient that is not strictly better than `b`, and never the other
    /// way round.
    proof fn lemma_better_trans(self, a: Qe, b: Qe, c: Qe)
        requires
            qe_wf(a),
            qe_wf(b),
            qe_wf(c),
            self.better(a, b),
            !self.better(c, b),
        ensures
            self.better(a, c),
            !self.better(c, a),
    {
        match self.objective {
            Objective::Maximize => {
                lemma_qe_order_total(c, b);
                lemma_qe_lt_qle_trans(a, b, c);
                if qe_lt(c, a) {
                    lemma_qe_lt_qle_trans(c, a, c);
                }
            },
            Objective::Minimize => {
                lemma_qe_order_total(b, c);
                lemma_qe_le_qlt_trans(c, b, a);
                if qe_lt(a, c) {
                    lemma_qe_lt_qle_trans(c, a, c);
                }
            },
        }
    }

    /// Tests the optimality sign condition on every objective-row
    /// coefficient.
    fn check_optimal(&self) -> (r: bool)
        requires
            self.function.wf(),
        ensures
            r == self.is_optimal(),
    {
        let n = self.function.lhs.len();
        let mut k: usize = 0;
        while k < n
            invariant
                self.function.wf(),
                n == self.function.lhs@.len(),
                k <= n,
                forall|k2: int| 0 <= k2 < k ==> #[trigger] self.obj_coef_ok(k2),
            decreases n - k,
        {
            let z = InfNum::zero();
            let ok = match self.objective {
                Objective::Maximize => z.le(&self.function.lhs[k]),
                Objective::Minimize => self.function.lhs[k].le(&z),
            };
            if !ok {
                proof {
                    assert(!self.obj_coef_ok(k as int));
                }
                return false;
            }
            k += 1;
        }
        true
    }

    /// Picks the entering column: the first column whose objective-row
    /// coefficient is the most negative (maximization) or most positive
    /// (minimization).
    fn pick_entering(&self) -> (e: usize)
        requires
            self.function.wf(),
            !self.is_optimal(),
        ensures
            self.is_entering(e as int),
    {
        proof {
            if self.width() == 0 {
                assert(self.is_optimal());
            }
        }
        let n = self.function.lhs.len();
        let mut best: usize = 0;
        let mut k: usize = 1;
        while k < n
            invariant
                self.function.wf(),
                n == self.function.lhs@.len(),
                (best as int) < (k as int),
                k <= n,
                1 <= n,
                forall|k2: int|
                    0 <= k2 < k ==> !self.better(#[trigger] self.obj(k2), self.obj(best as int)),
                forall|k2: int|
                    0 <= k2 < best ==> self.better(self.obj(best as int), #[trigger] self.obj(k2)),
            decreases n - k,
        {
            let strictly_better = match self.objective {
                Objective::Maximize => self.function.lhs[k].lt(&self.function.lhs[best]),
                Objective::Minimize => self.function.lhs[best].lt(&self.function.lhs[k]),
            };
            if strictly_better {
                proof {
                    let kk = k as int;
                    let ob = best as int;
                    assert forall|k2: int| 0 <= k2 < kk implies (self.better(
                        self.obj(kk),
                        #[trigger] self.obj(k2),
                    ) && !self.better(self.obj(k2), self.obj(kk))) by {
                        assert(self.function.lhs@[k2].wf());
                        assert(self.function.lhs@[kk].wf());
                        assert(self.function.lhs@[ob].wf());
                        self.lemma_better_trans(self.obj(kk), self.obj(ob), self.obj(k2));
                    }
                }
                best = k;
            }
            k += 1;
        }
        proof {
            let kv = choose|k2: int| 0 <= k2 < self.width() && !self.obj_coef_ok(k2);
            let s = self.obj(best as int);
            let v = self.obj(kv);
            lemma_qe_order_total(v, s);
            lemma_qe_order_total(qe_zero(), v);
            lemma_qe_order_total(v, qe_zero());
            match self.objective {
                Objective::Maximize => {
                    assert(qe_le(s, v));
                    assert(qe_lt(v, qe_zero()));
                    lemma_qe_le_qlt_trans(s, v, qe_zero());
                    if qe_le(qe_zero(), s) {
                        lemma_qe_le_qlt_trans(qe_zero(), s, qe_zero());
                    }
                },
                Objective::Minimize => {
                    assert(qe_le(v, s));
                    assert(qe_lt(qe_zero(), v));
                    lemma_qe_lt_qle_trans(qe_zero(), v, s);
                    if qe_le(s, qe_zero()) {
                        lemma_qe_lt_qle_trans(qe_zero(), s, qe_zero());
                    }
                },
            }
            assert(!self.obj_coef_ok(best as int));
        }
        best
    }

    /// Picks the leaving row by the minimum-ratio test over the rows whose
    /// coefficient at the entering column is strictly positive, taking the
    /// first row that attains the minimum.
    fn pick_leaving(&self, e: usize) -> (r: Result<usize, SimplexError>)
        requires
            self.wf(),
            (e as int) < self.width(),
        ensures
            r matches Ok(j) ==> self.is_leaving(e as int, j as int),
            r == Err::<usize, SimplexError>(SimplexError::Unbounded) <==> !self.has_eligible(
                e as int,
            ),
            r == Err::<usize, SimplexError>(SimplexError::Overflow) <==> exists|i: int|
                0 <= i < self.nrows() && #[trigger] self.eligible(e as int, i) && !representable(
                    self.ratio(e as int, i),
                ),
    {
        let m = self.constraints.len();
        let mut best_j: usize = 0;
        let mut best_ratio: Rat = Rat::zero();
        let mut found = false;
        let mut i: usize = 0;
        while i < m
            invariant
                self.wf(),
                (e as int) < self.width(),
                m == self.constraints@.len(),
                i <= m,
                found ==> {
                    &&& (best_j as int) < (i as int)
                    &&& self.eligible(e as int, best_j as int)
                    &&& best_ratio.wf()
                    &&& qeq(best_ratio@, self.ratio(e as int, best_j as int))
                    &&& forall|i2: int|
                        0 <= i2 < i && #[trigger] self.eligible(e as int, i2) ==> qle(
                            self.ratio(e as int, best_j as int),
                            self.ratio(e as int, i2),
                        )
                    &&& forall|i2: int|
                        0 <= i2 < best_j && #[trigger] self.eligible(e as int, i2) ==> qlt(
                            self.ratio(e as int, best_j as int),
                            self.ratio(e as int, i2),
                        )
                },
                !found ==> forall|i2: int| 0 <= i2 < i ==> !self.eligible(e as int, i2),
                forall|i2: int|
                    0 <= i2 < i && #[trigger] self.eligible(e as int, i2) ==> representable(
                        self.ratio(e as int, i2),
                    ),
            decreases m - i,
        {
            proof {
                assert(self.row_shape_ok(i as int));
            }
            let z = Rat::zero();
            let c = self.constraints[i].eq.lhs[e];
            if z.lt(&c) {
                let th = match self.constraints[i].eq.rhs.try_div(&c) {
                    Some(t) => t,
                    None => {
                        proof {
                            let ii = i as int;
                            assert(0 <= ii < self.nrows() && self.eligible(e as int, ii)
                                && !representable(self.ratio(e as int, ii)));
                        }
                        return Err(SimplexError::Overflow);
                    },
                };
                if !found || th.lt(&best_ratio) {
                    proof {
                        if found {
                            let ii = i as int;
                            let bj = best_j as int;
                            assert(self.row_shape_ok(bj));
                            lemma_qdiv_wf(self.row_rhs(ii), self.entry(ii, e as int));
                            lemma_qdiv_wf(self.row_rhs(bj), self.entry(bj, e as int));
                            lemma_qlt_congruence(
                                th@,
                                self.ratio(e as int, ii),
                                best_ratio@,
                                self.ratio(e as int, bj),
                            );
                            assert forall|i2: int|
                                0 <= i2 < ii && #[trigger] self.eligible(e as int, i2) implies qlt(
                                self.ratio(e as int, ii),
                                self.ratio(e as int, i2),
                            ) by {
                                assert(self.row_shape_ok(i2));
                                lemma_qdiv_wf(self.row_rhs(i2), self.entry(i2, e as int));
                                lemma_qlt_qle_trans(
                                    self.ratio(e as int, ii),
                                    self.ratio(e as int, bj),
                                    self.ratio(e as int, i2),
                                );
                            }
                        }
                    }
                    best_j = i;
                    best_ratio = th;
                    found = true;
                } else {
                    proof {
                        let ii = i as int;
                        let bj = best_j as int;
                        assert(self.row_shape_ok(bj));
                        lemma_qdiv_wf(self.row_rhs(ii), self.entry(ii, e as int));
                        lemma_qdiv_wf(self.row_rhs(bj), self.entry(bj, e as int));
                        lemma_qle_congruence(
                            best_ratio@,
                            self.ratio(e as int, bj),
                            th@,
                            self.ratio(e as int, ii),
                        );
                    }
                }
            }
            i += 1;
        }
        if found {
            Ok(best_j)
        } else {
            Err(SimplexError::Unbounded)
        }
    }

    /// One simplex iteration.  If the tableau is already optimal nothing
    /// changes and `Ok(true)` is returned.  Otherwise one pivot runs on the
    /// entering column (most negative reduced cost for a maximization, most
    /// positive for a minimization, first index on ties) and the leaving row
    /// (minimum ratio over rows with a positive entering-column coefficient,
    /// first index on ties); `Ok` then reports whether the new tableau is
    /// optimal.  `Err(Unbounded)` reports that no row limits the entering
    /// column, `Err(Overflow)` that an exact value left the representation;
    /// in both cases the tableau is unchanged.  The first-index tie breaks
    /// are deterministic but not a cycling-proof rule: on a degenerate
    /// problem a sequence of steps may revisit a basis.
    pub fn step(&mut self) -> (r: Result<bool, SimplexError>)
        requires
            old(self).wf(),
        ensures
            match r {
                Ok(b) => {
                    &&& final(self).wf()
                    &&& b == final(self).is_optimal()
                    &&& old(self).is_optimal() ==> *final(self) == *old(self) && b
                    &&& !old(self).is_optimal() ==> pivots(*old(self), *final(self))
                    &&& old(self).objective == Objective::Maximize ==> qe_le(
                        old(self).obj_rhs(),
                        final(self).obj_rhs(),
                    )
                    &&& old(self).objective == Objective::Minimize ==> qe_le(
                        final(self).obj_rhs(),
                        old(self).obj_rhs(),
                    )
                },
                Err(er) => {
                    &&& *final(self) == *old(self)
                    &&& !old(self).is_optimal()
                    &&& (er == SimplexError::Unbounded <==> exists|e2: int|
                        #[trigger] old(self).is_entering(e2) && !old(self).has_eligible(e2))
                    &&& er == SimplexError::Overflow ==> !pivot_fits(*old(self))
                },
            },
    {
        if self.check_optimal() {
            return Ok(true);
        }
        let e = self.pick_entering();
        let j = match self.pick_leaving(e) {
            Ok(j) => j,
            Err(er) => {
                proof {
                    if er == SimplexError::Unbounded {
                        assert(self.is_entering(e as int) && !self.has_eligible(e as int));
                    } else {
                        assert forall|e2: int| #[trigger]
                            self.is_entering(e2) implies self.has_eligible(e2) by {
                            lemma_entering_unique(*self, e2, e as int);
                        }
                        let iw = choose|i2: int|
                            0 <= i2 < self.nrows() && #[trigger] self.eligible(e as int, i2)
                                && !representable(self.ratio(e as int, i2));
                        assert(!pivot_fits(*self)) by {
                            if pivot_fits(*self) {
                                assert(self.is_entering(e as int));
                                assert(representable(self.ratio(e as int, iw)));
                            }
                        }
                    }
                }
                return Err(er);
            },
        };
        let ghost t0 = *self;
        proof {
            assert(t0.is_leaving(e as int, j as int));
            assert forall|e2: int| #[trigger] t0.is_entering(e2) implies t0.has_eligible(e2) by {
                lemma_entering_unique(t0, e2, e as int);
                assert(0 <= (j as int) < t0.nrows() && t0.eligible(e as int, j as int));
            }
            assert(t0.row_shape_ok(j as int));
        }
        let p = self.constraints[j].eq.lhs[e];
        let ip = match p.try_inv() {
            Some(x) => x,
            None => {
                proof {
                    let ee = e as int;
                    let jj = j as int;
                    assert(t0.entry(jj, ee).n == i64::MIN);
                    assert(!pivot_vals_fit(t0, ee, jj));
                    assert(!pivot_fits(t0)) by {
                        if pivot_fits(t0) {
                            assert(t0.is_entering(ee));
                            assert(t0.is_leaving(ee, jj));
                            assert(pivot_vals_fit(t0, ee, jj));
                        }
                    }
                }
                return Err(SimplexError::Overflow);
            },
        };
        let mut prow = self.constraints[j].eq.duplicate();
        if !prow.scale(&ip) {
            proof {
                let ee = e as int;
                let jj = j as int;
                let p0 = t0.entry(jj, ee);
                if !representable(qmul(prow.rhs@, ip@)) {
                    assert(!representable(qdiv(t0.row_rhs(jj), p0)));
                    assert(!pivot_vals_fit(t0, ee, jj));
                } else {
                    let kw = choose|k: int|
                        0 <= k < prow.lhs@.len() && !representable(
                            qmul(#[trigger] prow.lhs@[k]@, ip@),
                        );
                    assert(!representable(qdiv(t0.entry(jj, kw), p0)));
                    assert(!pivot_vals_fit(t0, ee, jj));
                }
                assert(!pivot_fits(t0)) by {
                    if pivot_fits(t0) {
                        assert(t0.is_entering(ee));
                        assert(t0.is_leaving(ee, jj));
                        assert(pivot_vals_fit(t0, ee, jj));
                    }
                }
            }
            return Err(SimplexError::Overflow);
        }
        proof {
            assert(forall|k: int|
                0 <= k < t0.width() ==> qeq(
                    #[trigger] prow.lhs@[k]@,
                    qdiv(t0.entry(j as int, k), t0.entry(j as int, e as int)),
                ));
            assert(qeq(prow.rhs@, qdiv(t0.row_rhs(j as int), t0.entry(j as int, e as int))));
        }
        let wdt = self.function.lhs.len();
        proof {
            assert((e as int) < wdt as int);
        }
        let m = self.constraints.len();
        let mut newrows: Vec<Row> = Vec::new();
        let mut i: usize = 0;
        while i < m
            invariant
                *self == t0,
                t0.wf(),
                t0.is_entering(e as int),
                t0.is_leaving(e as int, j as int),
                (j as int) < t0.nrows(),
                (e as int) < t0.width(),
                m == t0.nrows(),
                (e as int) + 1 <= usize::MAX,
                prow.wf(),
                prow.lhs@.len() == t0.width(),
                forall|k: int|
                    0 <= k < t0.width() ==> qeq(
                        #[trigger] prow.lhs@[k]@,
                        qdiv(t0.entry(j as int, k), t0.entry(j as int, e as int)),
                    ),
                qeq(prow.rhs@, qdiv(t0.row_rhs(j as int), t0.entry(j as int, e as int))),
                i <= m,
                newrows@.len() == i,
                forall|i2: int|
                    0 <= i2 < i ==> (#[trigger] newrows@[i2].basic) as int == (if i2 == j as int {
                        (e as int) + 1
                    } else {
                        t0.basic(i2)
                    }),
                forall|i2: int|
                    0 <= i2 < i ==> (#[trigger] newrows@[i2].eq).wf() && newrows@[i2].eq.lhs@.len()
                        == t0.width(),
                forall|i2: int, k: int|
                    0 <= i2 < i && i2 == j as int && 0 <= k < t0.width() ==> qeq(
                        #[trigger] newrows@[i2].eq.lhs@[k]@,
                        qdiv(t0.entry(j as int, k), t0.entry(j as int, e as int)),
                    ),
                forall|i2: int|
                    0 <= i2 < i && i2 == j as int ==> qeq(
                        (#[trigger] newrows@[i2].eq).rhs@,
                        qdiv(t0.row_rhs(j as int), t0.entry(j as int, e as int)),
                    ),
                forall|i2: int, k: int|
                    0 <= i2 < i && i2 != j as int && 0 <= k < t0.width() ==> qeq(
                        #[trigger] newrows@[i2].eq.lhs@[k]@,
                        qsub(
                            t0.entry(i2, k),
                            qmul(
                                qdiv(t0.entry(j as int, k), t0.entry(j as int, e as int)),
                                t0.entry(i2, e as int),
                            ),
                        ),
                    ),
                forall|i2: int|
                    0 <= i2 < i && i2 != j as int ==> qeq(
                        (#[trigger] newrows@[i2].eq).rhs@,
                        qsub(
                            t0.row_rhs(i2),
                            qmul(
                                qdiv(t0.row_rhs(j as int), t0.entry(j as int, e as int)),
                                t0.entry(i2, e as int),
                            ),
                        ),
                    ),
            decreases m - i,
        {
            proof {
                assert(t0.row_shape_ok(i as int));
            }
            if i == j {
                newrows.push(Row { basic: e + 1, eq: prow.duplicate() });
            } else {
                let c = self.constraints[i].eq.lhs[e];
                let mut rr = self.constraints[i].eq.duplicate();
                if !rr.sub_scaled(&prow, &c) {
                    proof {
                        let ee = e as int;
                        let jj = j as int;
                        let ii = i as int;
                        let p0 = t0.entry(jj, ee);
                        assert(t0.row_shape_ok(jj));
                        assert(t0.row_shape_ok(ii));
                        assert(qlt(qzero(), p0));
                        lemma_qdiv_wf(t0.row_rhs(jj), p0);
                        if !sub_scaled_representable(t0.row_rhs(ii), prow.rhs@, c@) {
                            lemma_sub_scaled_fit_congruence(
                                t0.row_rhs(ii),
                                prow.rhs@,
                                qdiv(t0.row_rhs(jj), p0),
                                c@,
                            );
                            assert(!sub_scaled_representable(
                                t0.row_rhs(ii),
                                qdiv(t0.row_rhs(jj), p0),
                                t0.entry(ii, ee),
                            ));
                            assert(!pivot_vals_fit(t0, ee, jj));
                        } else {
                            let kw = choose|k: int|
                                0 <= k < rr.lhs@.len() && !sub_scaled_representable(
                                    #[trigger] rr.lhs@[k]@,
                                    prow.lhs@[k]@,
                                    c@,
                                );
                            lemma_qdiv_wf(t0.entry(jj, kw), p0);
                            lemma_sub_scaled_fit_congruence(
                                t0.entry(ii, kw),
                                prow.lhs@[kw]@,
                                qdiv(t0.entry(jj, kw), p0),
                                c@,
                            );
                            assert(!sub_scaled_representable(
                                t0.entry(ii, kw),
                                qdiv(t0.entry(jj, kw), p0),
                                t0.entry(ii, ee),
                            ));
                            assert(!pivot_vals_fit(t0, ee, jj));
                        }
                        assert(!pivot_fits(t0)) by {
                            if pivot_fits(t0) {
                                assert(t0.is_entering(ee));
                                assert(t0.is_leaving(ee, jj));
                                assert(pivot_vals_fit(t0, ee, jj));
                            }
                        }
                    }
                    return Err(SimplexError::Overflow);
                }
                proof {
                    let p0 = t0.entry(j as int, e as int);
                    let ii = i as int;
                    assert(t0.row_shape_ok(j as int));
                    assert(qlt(qzero(), p0));
                    lemma_qmul_inv(p0);
                    assert forall|k: int| 0 <= k < t0.width() implies qeq(
                        #[trigger] rr.lhs@[k]@,
                        qsub(
                            t0.entry(ii, k),
                            qmul(qdiv(t0.entry(j as int, k), p0), t0.entry(ii, e as int)),
                        ),
                    ) by {
                        assert(t0.row_shape_ok(j as int));
                        lemma_qdiv_wf(t0.entry(j as int, k), p0);
                        lemma_qops_wf(prow.lhs@[k]@, c@);
                        lemma_qops_wf(qdiv(t0.entry(j as int, k), p0), c@);
                        lemma_qmul_congruence_left(
                            prow.lhs@[k]@,
                            qdiv(t0.entry(j as int, k), p0),
                            c@,
                        );
                        lemma_qsub_congruence_right(
                            t0.entry(ii, k),
                            qmul(prow.lhs@[k]@, c@),
                            qmul(qdiv(t0.entry(j as int, k), p0), c@),
                            rr.lhs@[k]@,
                        );
                    }
                    assert(t0.row_shape_ok(j as int));
                    lemma_qdiv_wf(t0.row_rhs(j as int), p0);
                    lemma_qops_wf(prow.rhs@, c@);
                    lemma_qops_wf(qdiv(t0.row_rhs(j as int), p0), c@);
                    lemma_qmul_congruence_left(prow.rhs@, qdiv(t0.row_rhs(j as int), p0), c@);
                    lemma_qsub_congruence_right(
                        t0.row_rhs(ii),
                        qmul(prow.rhs@, c@),
                        qmul(qdiv(t0.row_rhs(j as int), p0), c@),
                        rr.rhs@,
                    );
                }
                newrows.push(Row { basic: self.constraints[i].basic, eq: rr });
            }
            i += 1;
        }
        let s = self.function.lhs[e];
        if !self.function.sub_scaled_row(&prow, &s) {
            proof {
                let ee = e as int;
                let jj = j as int;
                let p0 = t0.entry(jj, ee);
                assert(t0.row_shape_ok(jj));
                assert(qlt(qzero(), p0));
                lemma_qdiv_wf(t0.row_rhs(jj), p0);
                if !qe_sub_scaled_representable(t0.obj_rhs(), s@, prow.rhs@) {
                    lemma_qe_ssr_congruence(
                        t0.obj_rhs(),
                        s@,
                        prow.rhs@,
                        qdiv(t0.row_rhs(jj), p0),
                    );
                    assert(!qe_sub_scaled_representable(
                        t0.obj_rhs(),
                        t0.obj(ee),
                        qdiv(t0.row_rhs(jj), p0),
                    ));
                    assert(!pivot_vals_fit(t0, ee, jj));
                } else {
                    let kw = choose|k: int|
                        0 <= k < t0.width() && !qe_sub_scaled_representable(
                            #[trigger] t0.function.lhs@[k]@,
                            s@,
                            prow.lhs@[k]@,
                        );
                    lemma_qdiv_wf(t0.entry(jj, kw), p0);
                    lemma_qe_ssr_congruence(
                        t0.obj(kw),
                        s@,
                        prow.lhs@[kw]@,
                        qdiv(t0.entry(jj, kw), p0),
                    );
                    assert(!qe_sub_scaled_representable(
                        t0.obj(kw),
                        t0.obj(ee),
                        qdiv(t0.entry(jj, kw), p0),
                    ));
                    assert(!pivot_vals_fit(t0, ee, jj));
                }
                assert(!pivot_fits(t0)) by {
                    if pivot_fits(t0) {
                        assert(t0.is_entering(ee));
                        assert(t0.is_leaving(ee, jj));
                        assert(pivot_vals_fit(t0, ee, jj));
                    }
                }
            }
            return Err(SimplexError::Overflow);
        }
        proof {
            let p0 = t0.entry(j as int, e as int);
            assert(t0.row_shape_ok(j as int));
            assert(qlt(qzero(), p0));
            lemma_qmul_inv(p0);
            assert(qe_wf(s@));
            assert forall|k: int| 0 <= k < t0.width() implies qe_eq(
                #[trigger] self.function.lhs@[k]@,
                qe_sub(t0.obj(k), qe_scale(t0.obj(e as int), qdiv(t0.entry(j as int, k), p0))),
            ) by {
                assert(t0.row_shape_ok(j as int));
                lemma_qdiv_wf(t0.entry(j as int, k), p0);
                lemma_qe_scale_wf(s@, prow.lhs@[k]@);
                lemma_qe_scale_wf(s@, qdiv(t0.entry(j as int, k), p0));
                lemma_qe_scale_congruence(s@, prow.lhs@[k]@, qdiv(t0.entry(j as int, k), p0));
                lemma_qe_sub_congruence_right(
                    t0.obj(k),
                    qe_scale(s@, prow.lhs@[k]@),
                    qe_scale(s@, qdiv(t0.entry(j as int, k), p0)),
                    self.function.lhs@[k]@,
                );
            }
            assert(t0.row_shape_ok(j as int));
            lemma_qdiv_wf(t0.row_rhs(j as int), p0);
            lemma_qe_scale_wf(s@, prow.rhs@);
            lemma_qe_scale_wf(s@, qdiv(t0.row_rhs(j as int), p0));
            lemma_qe_scale_congruence(s@, prow.rhs@, qdiv(t0.row_rhs(j as int), p0));
            lemma_qe_sub_congruence_right(
                t0.obj_rhs(),
                qe_scale(s@, prow.rhs@),
                qe_scale(s@, qdiv(t0.row_rhs(j as int), p0)),
                self.function.rhs@,
            );
        }
        self.constraints = newrows;
        proof {
            assert(pivot_rel(t0, *self, e as int, j as int));
            assert forall|i2: int| 0 <= i2 < self.nrows() implies #[trigger] self.row_shape_ok(
                i2,
            ) by {
                assert(t0.row_shape_ok(i2));
            }
            assert(self.shape_wf());
            lemma_pivot_wf(t0, *self, e as int, j as int);
            lemma_pivot_mono(t0, *self, e as int, j as int);
            assert(t0.is_entering(e as int) && t0.is_leaving(e as int, j as int) && pivot_rel(
                t0,
                *self,
                e as int,
                j as int,
            ));
            assert(pivots(t0, *self));
        }
        if self.check_optimal() {
            Ok(true)
        } else {
            Ok(false)
        }
    }

}


/// Every exact value that one pivot on entering column `e` and leaving row
/// `j` computes has an equal fraction within the 64-bit representation: the
/// rescaled leaving row, every elimination result, and the objective-row
/// updates.
pub open spec fn pivot_vals_fit(t: SimplexTable, e: int, j: int) -> bool {
    let p = t.entry(j, e);
    &&& p.n != i64::MIN
    &&& representable(qdiv(t.row_rhs(j), p))
    &&& forall|k: int| 0 <= k < t.width() ==> representable(qdiv(#[trigger] t.entry(j, k), p))
    &&& forall|i: int, k: int|
        0 <= i < t.nrows() && i != j && 0 <= k < t.width() ==> sub_scaled_representable(
            #[trigger] t.entry(i, k),
            qdiv(t.entry(j, k), p),
            t.entry(i, e),
        )
    &&& forall|i: int|
        0 <= i < t.nrows() && i != j ==> sub_scaled_representable(
            #[trigger] t.row_rhs(i),
            qdiv(t.row_rhs(j), p),
            t.entry(i, e),
        )
    &&& forall|k: int|
        0 <= k < t.width() ==> qe_sub_scaled_representable(
            #[trigger] t.obj(k),
            t.obj(e),
            qdiv(t.entry(j, k), p),
        )
    &&& qe_sub_scaled_representable(t.obj_rhs(), t.obj(e), qdiv(t.row_rhs(j), p))
}

/// Every exact value of the pivot that the entering and leaving rules would
/// choose has an equal fraction within the 64-bit representation: the ratios
/// of all eligible rows and all values of the pivot itself.
pub open spec fn pivot_fits(t: SimplexTable) -> bool {
    forall|e: int|
        #[trigger] t.is_entering(e) ==> {
            &&& forall|i: int|
                0 <= i < t.nrows() && #[trigger] t.eligible(e, i) ==> representable(t.ratio(e, i))
            &&& forall|j: int| #[trigger] t.is_leaving(e, j) ==> pivot_vals_fit(t, e, j)
        }
}

/// The exact relation between a tableau and its successor after one pivot on
/// entering column `e` and leaving row `j`: the leaving row is rescaled by
/// the reciprocal of the pivot value, every other row and the objective row
/// have their entering-column coefficient eliminated, and the leaving row's
/// basic variable becomes the entering column.
pub open spec fn pivot_rel(t0: SimplexTable, t1: SimplexTable, e: int, j: int) -> bool {
    let p = t0.entry(j, e);
    &&& t1.objective == t0.objective
    &&& t1.nrows() == t0.nrows()
    &&& t1.width() == t0.width()
    &&& t1.basic(j) == e + 1
    &&& forall|i: int| 0 <= i < t0.nrows() && i != j ==> #[trigger] t1.basic(i) == t0.basic(i)
    &&& forall|k: int|
        0 <= k < t0.width() ==> qeq(#[trigger] t1.entry(j, k), qdiv(t0.entry(j, k), p))
    &&& qeq(t1.row_rhs(j), qdiv(t0.row_rhs(j), p))
    &&& forall|i: int, k: int|
        0 <= i < t0.nrows() && i != j && 0 <= k < t0.width() ==> qeq(
            #[trigger] t1.entry(i, k),
            qsub(t0.entry(i, k), qmul(qdiv(t0.entry(j, k), p), t0.entry(i, e))),
        )
    &&& forall|i: int|
        0 <= i < t0.nrows() && i != j ==> qeq(
            #[trigger] t1.row_rhs(i),
            qsub(t0.row_rhs(i), qmul(qdiv(t0.row_rhs(j), p), t0.entry(i, e))),
        )
    &&& forall|k: int|
        0 <= k < t0.width() ==> qe_eq(
            #[trigger] t1.obj(k),
            qe_sub(t0.obj(k), qe_scale(t0.obj(e), qdiv(t0.entry(j, k), p))),
        )
    &&& qe_eq(t1.obj_rhs(), qe_sub(t0.obj_rhs(), qe_scale(t0.obj(e), qdiv(t0.row_rhs(j), p))))
}

/// One pivot, on some entering column and leaving row chosen by the rules.
pub open spec fn pivots(t0: SimplexTable, t1: SimplexTable) -> bool {
    exists|e: int, j: int|
        #![trigger t0.is_leaving(e, j)]
        t0.is_entering(e) && t0.is_leaving(e, j) && pivot_rel(t0, t1, e, j)
}

/// There is at most one entering column.
proof fn lemma_entering_unique(t: SimplexTable, a: int, b: int)
    requires
        t.is_entering(a),
        t.is_entering(b),
    ensures
        a == b,
{
    if a < b {
        assert(t.better(t.obj(b), t.obj(a)));
    }
    if b < a {
        assert(t.better(t.obj(a), t.obj(b)));
    }
}

/// A pivot chosen by the entering and leaving rules preserves the tableau
/// invariant: the new basic columns are identity columns, and every
/// right-hand side stays non-negative.
proof fn lemma_pivot_wf(t0: SimplexTable, t1: SimplexTable, e: int, j: int)
    requires
        t0.wf(),
        t0.is_entering(e),
        t0.is_leaving(e, j),
        pivot_rel(t0, t1, e, j),
        t1.shape_wf(),
    ensures
        t1.wf(),
{
    let p = t0.entry(j, e);
    assert(t0.row_shape_ok(j));
    assert(qlt(qzero(), p));
    lemma_qmul_inv(p);
    lemma_qdiv_nonneg(t0.row_rhs(j), p);
    let th = qdiv(t0.row_rhs(j), p);
    assert forall|i: int| 0 <= i < t1.nrows() implies qle(qzero(), #[trigger] t1.row_rhs(i)) by {
        assert(t0.row_shape_ok(i));
        assert(t1.row_shape_ok(i));
        if i == j {
            lemma_qle_congruence(qzero(), qzero(), th, t1.row_rhs(j));
        } else {
            let c = t0.entry(i, e);
            let sub = qsub(t0.row_rhs(i), qmul(th, c));
            lemma_qops_wf(th, c);
            lemma_qops_wf(t0.row_rhs(i), qmul(th, c));
            if qlt(qzero(), c) {
                assert(t0.eligible(e, i));
                assert(qle(t0.ratio(e, j), t0.ratio(e, i)));
                lemma_ratio_bound(t0.row_rhs(i), c, th);
                lemma_qle_congruence(qzero(), qzero(), sub, t1.row_rhs(i));
            } else {
                assert(qle(c, qzero()));
                lemma_qmul_sign(th, c);
                lemma_qsub_mono(t0.row_rhs(i), qmul(th, c));
                lemma_qle_trans(qzero(), t0.row_rhs(i), sub);
                lemma_qle_congruence(qzero(), qzero(), sub, t1.row_rhs(i));
            }
        }
    }
    let s = t0.obj(e);
    assert(qe_wf(s));
    let w = qdiv(p, p);
    lemma_qops_wf(p, qinv(p));
    assert forall|i: int| 0 <= i < t1.nrows() implies #[trigger] t1.basic_identity(i) by {
        assert(t0.row_shape_ok(i));
        assert(t1.row_shape_ok(i));
        if i == j {
            // the new basic column of the leaving row is the entering column
            assert(t1.basic(j) - 1 == e);
            lemma_qeq_trans(t1.entry(j, e), w, qone());
            assert forall|i1: int| 0 <= i1 < t1.nrows() && i1 != j implies qeq(
                #[trigger] t1.entry(i1, e),
                qzero(),
            ) by {
                assert(t0.row_shape_ok(i1));
                assert(t1.row_shape_ok(i1));
                let c1 = t0.entry(i1, e);
                lemma_qmul_one_left(w, c1);
                lemma_qops_wf(w, c1);
                lemma_qsub_cancel(c1, qmul(w, c1));
                lemma_qops_wf(c1, qmul(w, c1));
                lemma_qeq_trans(t1.entry(i1, e), qsub(c1, qmul(w, c1)), qzero());
            }
            lemma_qe_scale_one(s, w);
            lemma_qe_scale_wf(s, w);
            lemma_qe_sub_cancel(s, qe_scale(s, w));
            lemma_qe_ops_wf(s, qe_scale(s, w));
            lemma_qe_eq_trans(t1.obj(e), qe_sub(s, qe_scale(s, w)), qe_zero());
        } else {
            let b = t0.basic(i) - 1;
            assert(t1.basic(i) == t0.basic(i));
            assert(t0.basic_identity(i));
            let z = t0.entry(j, b);
            assert(qeq(z, qzero()));
            let zdiv = qdiv(z, p);
            lemma_qops_wf(z, qinv(p));
            lemma_qmul_zero(z, qinv(p));
            // the row's own entry stays one
            let ci = t0.entry(i, e);
            lemma_qops_wf(zdiv, ci);
            lemma_qmul_zero(zdiv, ci);
            lemma_qsub_zero_right(t0.entry(i, b), qmul(zdiv, ci));
            lemma_qops_wf(t0.entry(i, b), qmul(zdiv, ci));
            lemma_qeq_trans(t1.entry(i, b), qsub(t0.entry(i, b), qmul(zdiv, ci)), t0.entry(i, b));
            lemma_qeq_trans(t1.entry(i, b), t0.entry(i, b), qone());
            // every other row stays zero there
            assert forall|i1: int| 0 <= i1 < t1.nrows() && i1 != i implies qeq(
                #[trigger] t1.entry(i1, b),
                qzero(),
            ) by {
                assert(t0.row_shape_ok(i1));
                assert(t1.row_shape_ok(i1));
                if i1 == j {
                    lemma_qeq_trans(t1.entry(j, b), zdiv, qzero());
                } else {
                    let c1 = t0.entry(i1, e);
                    lemma_qops_wf(zdiv, c1);
                    lemma_qmul_zero(zdiv, c1);
                    lemma_qsub_zero_right(t0.entry(i1, b), qmul(zdiv, c1));
                    lemma_qops_wf(t0.entry(i1, b), qmul(zdiv, c1));
                    lemma_qeq_trans(
                        t1.entry(i1, b),
                        qsub(t0.entry(i1, b), qmul(zdiv, c1)),
                        t0.entry(i1, b),
                    );
                    lemma_qeq_trans(t1.entry(i1, b), t0.entry(i1, b), qzero());
                }
            }
            // the objective row stays zero there
            lemma_qe_scale_zero(s, zdiv);
            lemma_qe_scale_wf(s, zdiv);
            lemma_qe_sub_zero_right(t0.obj(b), qe_scale(s, zdiv));
            lemma_qe_ops_wf(t0.obj(b), qe_scale(s, zdiv));
            lemma_qe_eq_trans(t1.obj(b), qe_sub(t0.obj(b), qe_scale(s, zdiv)), t0.obj(b));
            lemma_qe_eq_trans(t1.obj(b), t0.obj(b), qe_zero());
        }
    }
}

/// A pivot moves the objective right-hand side the right way: it does not
/// decrease for a maximization and does not increase for a minimization.
proof fn lemma_pivot_mono(t0: SimplexTable, t1: SimplexTable, e: int, j: int)
    requires
        t0.wf(),
        t0.is_entering(e),
        t0.is_leaving(e, j),
        pivot_rel(t0, t1, e, j),
        t1.shape_wf(),
    ensures
        t0.objective == Objective::Maximize ==> qe_le(t0.obj_rhs(), t1.obj_rhs()),
        t0.objective == Objective::Minimize ==> qe_le(t1.obj_rhs(), t0.obj_rhs()),
{
    let p = t0.entry(j, e);
    assert(t0.row_shape_ok(j));
    assert(qlt(qzero(), p));
    lemma_qmul_inv(p);
    lemma_qdiv_nonneg(t0.row_rhs(j), p);
    let th = qdiv(t0.row_rhs(j), p);
    let s = t0.obj(e);
    assert(qe_wf(s));
    lemma_qe_order_total(qe_zero(), s);
    lemma_qe_order_total(s, qe_zero());
    lemma_qe_scale_wf(s, th);
    lemma_qe_ops_wf(t0.obj_rhs(), qe_scale(s, th));
    lemma_qe_scale_sign(s, th);
    lemma_qe_sub_mono(t0.obj_rhs(), qe_scale(s, th));
    let sub = qe_sub(t0.obj_rhs(), qe_scale(s, th));
    match t0.objective {
        Objective::Maximize => {
            assert(qe_le(s, qe_zero()));
            assert(qe_le(t0.obj_rhs(), sub));
            lemma_qe_le_congruence(t0.obj_rhs(), t0.obj_rhs(), sub, t1.obj_rhs());
        },
        Objective::Minimize => {
            assert(qe_le(qe_zero(), s));
            assert(qe_le(sub, t0.obj_rhs()));
            lemma_qe_le_congruence(sub, t1.obj_rhs(), t0.obj_rhs(), t0.obj_rhs());
        },
    }
}


} // verus!
