use vstd::prelude::*;

use crate::equation::Equation;
use crate::inf_num::{InfNum, Qe};
use crate::problem::{Constraint, Objective, Problem, Relation, spec_flip};
use crate::inf_num::{qe_eq, qe_zero};
use crate::rat::{Q, Rat, qeq, qle, qone, qzero};
use crate::simplex_table::{Row, SimplexError, SimplexTable};

verus! {

/// The relation of constraint `i` after sign normalization.
pub open spec fn norm_rel(p: Problem, i: int) -> Relation {
    if p.constraints@[i].rhs < 0 {
        spec_flip(p.constraints@[i].relation)
    } else {
        p.constraints@[i].relation
    }
}

/// Coefficient `k` of constraint `i` after sign normalization.
pub open spec fn norm_coef(p: Problem, i: int, k: int) -> int {
    if p.constraints@[i].rhs < 0 {
        -p.constraints@[i].lhs@[k]
    } else {
        p.constraints@[i].lhs@[k] as int
    }
}

/// The right-hand side of constraint `i` after sign normalization: never
/// negative.
pub open spec fn norm_rhs(p: Problem, i: int) -> int {
    if p.constraints@[i].rhs < 0 {
        -p.constraints@[i].rhs
    } else {
        p.constraints@[i].rhs as int
    }
}

/// How many columns a constraint appends: a slack, a surplus and an
/// artificial, or an artificial alone.
pub open spec fn extra_cols(r: Relation) -> int {
    match r {
        Relation::Le => 1,
        Relation::Ge => 2,
        Relation::Eq => 1,
    }
}

/// Whether a constraint introduces an artificial variable.
pub open spec fn is_art(r: Relation) -> bool {
    r is Ge || r is Eq
}

/// The 0-based column index where constraint `j`'s appended columns start:
/// the decision variables come first, then each constraint's columns in
/// constraint order.
pub open spec fn col_offset(p: Problem, j: int) -> int
    decreases j,
{
    if j <= 0 {
        p.function@.len() as int
    } else {
        col_offset(p, j - 1) + extra_cols(norm_rel(p, j - 1))
    }
}

/// The 1-based column of the variable that starts out basic in row `i`: its
/// slack for `<=`, its artificial variable otherwise.
pub open spec fn basic_col(p: Problem, i: int) -> int {
    col_offset(p, i) + extra_cols(norm_rel(p, i))
}

/// The total number of tableau columns.
pub open spec fn total_cols(p: Problem) -> int {
    col_offset(p, p.constraints@.len() as int)
}

/// The sign with which Big-M contributions enter the objective row: positive
/// for a minimization, negative for a maximization.
pub open spec fn sigma(p: Problem) -> int {
    if p.objective is Minimize {
        1
    } else {
        -1
    }
}

/// The sum of normalized coefficient `k` over the artificial-variable rows
/// among the first `upto` constraints.
pub open spec fn art_coef_sum(p: Problem, k: int, upto: int) -> int
    decreases upto,
{
    if upto <= 0 {
        0
    } else {
        art_coef_sum(p, k, upto - 1) + if is_art(norm_rel(p, upto - 1)) {
            norm_coef(p, upto - 1, k)
        } else {
            0
        }
    }
}

/// The sum of the normalized right-hand sides over the artificial-variable
/// rows among the first `upto` constraints.
pub open spec fn art_rhs_sum(p: Problem, upto: int) -> int
    decreases upto,
{
    if upto <= 0 {
        0
    } else {
        art_rhs_sum(p, upto - 1) + if is_art(norm_rel(p, upto - 1)) {
            norm_rhs(p, upto - 1)
        } else {
            0
        }
    }
}

/// The rational with integer value `v`.
pub open spec fn int_q(v: int) -> Q {
    Q { n: v, d: 1 }
}

/// The extended number with integer penalty component `a` and integer finite
/// component `b`.
pub open spec fn int_qe(a: int, b: int) -> Qe {
    Qe { inf: int_q(a), num: int_q(b) }
}

/// `v` fits the 64-bit signed representation.
pub open spec fn in_i64(v: int) -> bool {
    i64::MIN <= v <= i64::MAX
}

/// Every value that standardization builds fits its representation: every
/// constraint can be sign-normalized, every objective coefficient can be
/// negated, the column count fits a `usize`, and the Big-M sums fit 64 bits.
pub open spec fn fits(p: Problem) -> bool {
    let n = p.function@.len() as int;
    let m = p.constraints@.len() as int;
    &&& forall|i: int|
        0 <= i < m ==> !(p.constraints@[i].rhs < 0
            && (#[trigger] p.constraints@[i]).negation_overflows())
    &&& forall|k: int| 0 <= k < n ==> p.function@[k] != i64::MIN
    &&& total_cols(p) <= usize::MAX
    &&& forall|k: int| 0 <= k < n ==> in_i64(sigma(p) * (#[trigger] art_coef_sum(p, k, m)))
    &&& in_i64(sigma(p) * art_rhs_sum(p, m))
}

/// The columns appended for constraint `j`, as one row's coefficient
/// sequence holds them: the identity pattern of the slack, surplus and
/// artificial variables.
pub open spec fn row_block_vals(p: Problem, i: int, j: int, lhs: Seq<Rat>) -> bool {
    let o = col_offset(p, j);
    let d: int = if i == j {
        1
    } else {
        0
    };
    match norm_rel(p, j) {
        Relation::Le => lhs[o]@ == int_q(d),
        Relation::Ge => lhs[o]@ == int_q(-d) && lhs[o + 1]@ == int_q(d),
        Relation::Eq => lhs[o]@ == int_q(d),
    }
}

/// The columns appended for constraint `j`, as row `i` of the tableau sees
/// them.
pub open spec fn block_ok(p: Problem, t: SimplexTable, i: int, j: int) -> bool {
    row_block_vals(p, i, j, t.constraints@[i].eq.lhs@)
}

/// The objective-row coefficients over the columns appended for constraint
/// `j`: zero for a slack and for every artificial variable (whose Big-M cost
/// has been eliminated), and one unit of M with the direction's sign for a
/// surplus.
pub open spec fn obj_block_vals(p: Problem, j: int, lhs: Seq<InfNum>) -> bool {
    let o = col_offset(p, j);
    match norm_rel(p, j) {
        Relation::Le => lhs[o]@ == int_qe(0, 0),
        Relation::Ge => lhs[o]@ == int_qe(-sigma(p), 0) && lhs[o + 1]@ == int_qe(0, 0),
        Relation::Eq => lhs[o]@ == int_qe(0, 0),
    }
}

/// The objective-row coefficients over the columns appended for constraint
/// `j`, as the tableau holds them.
pub open spec fn obj_block_ok(p: Problem, t: SimplexTable, j: int) -> bool {
    obj_block_vals(p, j, t.function.lhs@)
}

/// The exact content of the tableau that standardization builds from `p`.
pub open spec fn builds(p: Problem, t: SimplexTable) -> bool {
    let n = p.function@.len() as int;
    let m = p.constraints@.len() as int;
    &&& t.objective == p.objective
    &&& t.nrows() == m
    &&& t.width() == total_cols(p)
    &&& forall|i: int| 0 <= i < m ==> #[trigger] t.basic(i) == basic_col(p, i)
    &&& forall|i: int, k: int|
        0 <= i < m && 0 <= k < n ==> #[trigger] t.entry(i, k) == int_q(norm_coef(p, i, k))
    &&& forall|i: int, j: int| 0 <= i < m && 0 <= j < m ==> #[trigger] block_ok(p, t, i, j)
    &&& forall|i: int| 0 <= i < m ==> #[trigger] t.row_rhs(i) == int_q(norm_rhs(p, i))
    &&& forall|k: int|
        0 <= k < n ==> #[trigger] t.obj(k) == int_qe(
            sigma(p) * art_coef_sum(p, k, m),
            -p.function@[k],
        )
    &&& forall|j: int| 0 <= j < m ==> #[trigger] obj_block_ok(p, t, j)
    &&& t.obj_rhs() == int_qe(sigma(p) * art_rhs_sum(p, m), 0)
}

/// Appending columns never moves an earlier column.
proof fn lemma_col_offset_mono(p: Problem, a: int, b: int)
    requires
        0 <= a <= b,
    ensures
        col_offset(p, a) <= col_offset(p, b),
    decreases b,
{
    if a < b {
        lemma_col_offset_mono(p, a, b - 1);
    }
}

/// A tableau with the standardized content satisfies the tableau invariant:
/// each starting basic column is an identity column and every right-hand
/// side is non-negative.
proof fn lemma_build_wf(p: Problem, t: SimplexTable)
    requires
        p.wf(),
        builds(p, t),
        t.shape_wf(),
    ensures
        t.wf(),
{
    let m = p.constraints@.len() as int;
    assert forall|i: int| 0 <= i < t.nrows() implies qle(qzero(), #[trigger] t.row_rhs(i)) by {
        assert(t.row_rhs(i) == int_q(norm_rhs(p, i)));
    }
    assert forall|i: int| 0 <= i < t.nrows() implies #[trigger] t.basic_identity(i) by {
        let o = col_offset(p, i);
        let b = t.basic(i) - 1;
        assert(block_ok(p, t, i, i));
        assert(obj_block_ok(p, t, i));
        match norm_rel(p, i) {
            Relation::Le => {
                assert(b == o);
            },
            Relation::Ge => {
                assert(b == o + 1);
            },
            Relation::Eq => {
                assert(b == o);
            },
        }
        assert(qeq(t.entry(i, b), qone()));
        assert(qe_eq(t.obj(b), qe_zero()));
        assert forall|i1: int| 0 <= i1 < t.nrows() && i1 != i implies qeq(
            #[trigger] t.entry(i1, b),
            qzero(),
        ) by {
            assert(block_ok(p, t, i1, i));
        }
    }
}

/// Facts carried about the sign-normalized constraints.
pub open spec fn normd_ok(p: Problem, normd: Seq<Constraint>, upto: int) -> bool {
    forall|i2: int|
        0 <= i2 < upto ==> {
            &&& (#[trigger] normd[i2]).relation == norm_rel(p, i2)
            &&& normd[i2].rhs as int == norm_rhs(p, i2)
            &&& normd[i2].lhs@.len() == p.function@.len()
            &&& !(p.constraints@[i2].rhs < 0 && p.constraints@[i2].negation_overflows())
            &&& forall|k: int|
                0 <= k < p.function@.len() ==> (#[trigger] normd[i2].lhs@[k]) as int == norm_coef(
                    p,
                    i2,
                    k,
                )
        }
}

impl SimplexTable {
    /// Standardization: turns a problem into a starting tableau.  Every
    /// constraint is sign-normalized so its right-hand side is non-negative;
    /// each `<=` constraint appends a slack column, each `>=` constraint a
    /// surplus and an artificial column, each `=` constraint an artificial
    /// column; the objective row starts as the negated objective
    /// coefficients, and one unit of the penalty constant M times each
    /// artificial row is folded into it so that every artificial column of
    /// the objective row is exactly zero.  Fails exactly when some exact
    /// value does not fit its machine representation.
    #[verifier::loop_isolation(false)]
    pub fn from_problem(p: &Problem) -> (r: Result<SimplexTable, SimplexError>)
        requires
            p.wf(),
        ensures
            r matches Ok(t) ==> t.wf() && builds(*p, t),
            r is Err <==> !fits(*p),
            r matches Err(er) ==> er == SimplexError::Overflow,
    {
        let n = p.function.len();
        let m = p.constraints.len();

        // sign normalization
        let mut normd: Vec<Constraint> = Vec::new();
        let mut i: usize = 0;
        while i < m
            invariant
                p.wf(),
                n == p.function@.len(),
                m == p.constraints@.len(),
                i <= m,
                normd@.len() == i,
                normd_ok(*p, normd@, i as int),
            decreases m - i,
        {
            proof {
                assert(p.constraints@[i as int].lhs@.len() == n);
            }
            match p.constraints[i].normalized() {
                Some(c) => {
                    normd.push(c);
                },
                None => {
                    proof {
                        let iw = i as int;
                        assert(p.constraints@[iw].rhs < 0
                            && p.constraints@[iw].negation_overflows());
                    }
                    return Err(SimplexError::Overflow);
                },
            }
            i += 1;
        }

        // column layout
        let mut w: usize = n;
        let mut basics: Vec<usize> = Vec::new();
        let mut j: usize = 0;
        while j < m
            invariant
                p.wf(),
                n == p.function@.len(),
                m == p.constraints@.len(),
                normd@.len() == m,
                normd_ok(*p, normd@, m as int),
                j <= m,
                w as int == col_offset(*p, j as int),
                basics@.len() == j,
                forall|j2: int|
                    0 <= j2 < j ==> (#[trigger] basics@[j2]) as int == basic_col(*p, j2),
            decreases m - j,
        {
            let ex: usize = match normd[j].relation {
                Relation::Le => 1,
                Relation::Ge => 2,
                Relation::Eq => 1,
            };
            if ex > usize::MAX - w {
                proof {
                    lemma_col_offset_mono(*p, j as int + 1, m as int);
                }
                return Err(SimplexError::Overflow);
            }
            w = w + ex;
            basics.push(w);
            j += 1;
        }

        // constraint rows
        let mut rows: Vec<Row> = Vec::new();
        let mut i: usize = 0;
        while i < m
            invariant
                p.wf(),
                n == p.function@.len(),
                m == p.constraints@.len(),
                normd@.len() == m,
                normd_ok(*p, normd@, m as int),
                w as int == total_cols(*p),
                basics@.len() == m,
                forall|j2: int|
                    0 <= j2 < m ==> (#[trigger] basics@[j2]) as int == basic_col(*p, j2),
                i <= m,
                rows@.len() == i,
                forall|i2: int|
                    0 <= i2 < i ==> {
                        &&& (#[trigger] rows@[i2]).eq.wf()
                        &&& rows@[i2].eq.lhs@.len() == w
                        &&& rows@[i2].basic as int == basic_col(*p, i2)
                        &&& rows@[i2].eq.rhs@ == int_q(norm_rhs(*p, i2))
                    },
                forall|i2: int, k: int|
                    0 <= i2 < i && 0 <= k < n ==> (#[trigger] rows@[i2].eq.lhs@[k])@ == int_q(
                        norm_coef(*p, i2, k),
                    ),
                forall|i2: int, j2: int|
                    0 <= i2 < i && 0 <= j2 < m ==> #[trigger] row_block_vals(
                        *p,
                        i2,
                        j2,
                        rows@[i2].eq.lhs@,
                    ),
            decreases m - i,
        {
            let mut lhs: Vec<Rat> = Vec::new();
            let mut k: usize = 0;
            while k < n
                invariant
                    p.wf(),
                    n == p.function@.len(),
                    m == p.constraints@.len(),
                    normd@.len() == m,
                    normd_ok(*p, normd@, m as int),
                    i < m,
                    k <= n,
                    lhs@.len() == k,
                    forall|k2: int|
                        0 <= k2 < k ==> (#[trigger] lhs@[k2])@ == int_q(norm_coef(*p, i as int, k2))
                            && lhs@[k2].wf(),
                decreases n - k,
            {
                lhs.push(Rat::from_int(normd[i].lhs[k]));
                k += 1;
            }
            let mut j: usize = 0;
            while j < m
                invariant
                    p.wf(),
                    n == p.function@.len(),
                    m == p.constraints@.len(),
                    normd@.len() == m,
                    normd_ok(*p, normd@, m as int),
                    i < m,
                    j <= m,
                    lhs@.len() == col_offset(*p, j as int),
                    forall|k2: int|
                        0 <= k2 < n ==> (#[trigger] lhs@[k2])@ == int_q(norm_coef(*p, i as int, k2)),
                    forall|k2: int| 0 <= k2 < lhs@.len() ==> (#[trigger] lhs@[k2]).wf(),
                    forall|j2: int|
                        0 <= j2 < j ==> #[trigger] row_block_vals(*p, i as int, j2, lhs@),
                decreases m - j,
            {
                proof {
                    lemma_col_offset_mono(*p, 0, j as int);
                }
                let ghost old_lhs = lhs@;
                match normd[j].relation {
                    Relation::Le => {
                        lhs.push(Rat::from_int(if i == j { 1 } else { 0 }));
                    },
                    Relation::Ge => {
                        lhs.push(Rat::from_int(if i == j { -1 } else { 0 }));
                        lhs.push(Rat::from_int(if i == j { 1 } else { 0 }));
                    },
                    Relation::Eq => {
                        lhs.push(Rat::from_int(if i == j { 1 } else { 0 }));
                    },
                }
                proof {
                    assert(row_block_vals(*p, i as int, j as int, lhs@));
                    assert forall|j2: int| 0 <= j2 < j implies #[trigger] row_block_vals(
                        *p,
                        i as int,
                        j2,
                        lhs@,
                    ) by {
                        lemma_col_offset_mono(*p, 0, j2);
                        lemma_col_offset_mono(*p, j2 + 1, j as int);
                        assert(col_offset(*p, j2) + extra_cols(norm_rel(*p, j2)) == col_offset(
                            *p,
                            j2 + 1,
                        ));
                        assert(row_block_vals(*p, i as int, j2, old_lhs));
                    }
                }
                j += 1;
            }
            let eq = Equation::new(lhs, Rat::from_int(normd[i].rhs));
            rows.push(Row { basic: basics[i], eq });
            i += 1;
        }

        // objective row: decision columns with their Big-M contributions
        let mut flhs: Vec<InfNum> = Vec::new();
        let mut k: usize = 0;
        while k < n
            invariant
                p.wf(),
                n == p.function@.len(),
                m == p.constraints@.len(),
                normd@.len() == m,
                normd_ok(*p, normd@, m as int),
                k <= n,
                flhs@.len() == k,
                forall|k2: int|
                    0 <= k2 < k ==> (#[trigger] flhs@[k2])@ == int_qe(
                        sigma(*p) * art_coef_sum(*p, k2, m as int),
                        -p.function@[k2],
                    ) && flhs@[k2].wf(),
            decreases n - k,
        {
            let c = p.function[k];
            if c == i64::MIN {
                proof {
                    assert(p.function@[k as int] == i64::MIN);
                }
                return Err(SimplexError::Overflow);
            }
            let mut acc: i128 = 0;
            let mut i2: usize = 0;
            while i2 < m
                invariant
                    p.wf(),
                    n == p.function@.len(),
                    m == p.constraints@.len(),
                    normd@.len() == m,
                    normd_ok(*p, normd@, m as int),
                    k < n,
                    i2 <= m,
                    acc as int == art_coef_sum(*p, k as int, i2 as int),
                    -((i2 as int) * 0x8000_0000_0000_0000) <= acc as int <= (i2 as int)
                        * 0x8000_0000_0000_0000,
                decreases m - i2,
            {
                let is_a = match normd[i2].relation {
                    Relation::Le => false,
                    Relation::Ge => true,
                    Relation::Eq => true,
                };
                if is_a {
                    acc = acc + (normd[i2].lhs[k] as i128);
                }
                i2 += 1;
            }
            let v: i128 = match p.objective {
                Objective::Maximize => -acc,
                Objective::Minimize => acc,
            };
            proof {
                let kk = k as int;
                let s_ = sigma(*p);
                let x_ = art_coef_sum(*p, kk, m as int);
                if s_ == 1 {
                    assert(s_ * x_ == x_) by (nonlinear_arith)
                        requires
                            s_ == 1,
                    ;
                } else {
                    assert(s_ * x_ == -x_) by (nonlinear_arith)
                        requires
                            s_ == -1,
                    ;
                }
                assert(v as int == s_ * x_);
            }
            if v < (i64::MIN as i128) || v > (i64::MAX as i128) {
                proof {
                    assert(!in_i64(sigma(*p) * art_coef_sum(*p, k as int, m as int)));
                }
                return Err(SimplexError::Overflow);
            }
            proof {
                let kk = k as int;
                let s_ = sigma(*p);
                let x_ = art_coef_sum(*p, kk, m as int);
                if s_ == 1 {
                    assert(s_ * x_ == x_) by (nonlinear_arith)
                        requires
                            s_ == 1,
                    ;
                } else {
                    assert(s_ * x_ == -x_) by (nonlinear_arith)
                        requires
                            s_ == -1,
                    ;
                }
                assert(v as int == s_ * x_);
                assert(in_i64(s_ * x_));
            }
            flhs.push(InfNum::new(Rat::from_int(v as i64), Rat::from_int(-c)));
            k += 1;
        }

        // objective row: the appended columns
        let mut j: usize = 0;
        while j < m
            invariant
                p.wf(),
                n == p.function@.len(),
                m == p.constraints@.len(),
                normd@.len() == m,
                normd_ok(*p, normd@, m as int),
                j <= m,
                flhs@.len() == col_offset(*p, j as int),
                forall|k2: int|
                    0 <= k2 < n ==> (#[trigger] flhs@[k2])@ == int_qe(
                        sigma(*p) * art_coef_sum(*p, k2, m as int),
                        -p.function@[k2],
                    ),
                forall|k2: int| 0 <= k2 < flhs@.len() ==> (#[trigger] flhs@[k2]).wf(),
                forall|j2: int| 0 <= j2 < j ==> #[trigger] obj_block_vals(*p, j2, flhs@),
            decreases m - j,
        {
            proof {
                lemma_col_offset_mono(*p, 0, j as int);
            }
            let ghost old_flhs = flhs@;
            let msign: i64 = match p.objective {
                Objective::Maximize => 1,
                Objective::Minimize => -1,
            };
            match normd[j].relation {
                Relation::Le => {
                    flhs.push(InfNum::new(Rat::zero(), Rat::zero()));
                },
                Relation::Ge => {
                    flhs.push(InfNum::new(Rat::from_int(msign), Rat::zero()));
                    flhs.push(InfNum::new(Rat::zero(), Rat::zero()));
                },
                Relation::Eq => {
                    flhs.push(InfNum::new(Rat::zero(), Rat::zero()));
                },
            }
            proof {
                assert(obj_block_vals(*p, j as int, flhs@));
                assert forall|j2: int| 0 <= j2 < j implies #[trigger] obj_block_vals(
                    *p,
                    j2,
                    flhs@,
                ) by {
                    lemma_col_offset_mono(*p, 0, j2);
                    lemma_col_offset_mono(*p, j2 + 1, j as int);
                    assert(col_offset(*p, j2) + extra_cols(norm_rel(*p, j2)) == col_offset(
                        *p,
                        j2 + 1,
                    ));
                    assert(obj_block_vals(*p, j2, old_flhs));
                }
            }
            j += 1;
        }

        // objective row: the Big-M right-hand side
        let mut racc: i128 = 0;
        let mut i2: usize = 0;
        while i2 < m
            invariant
                p.wf(),
                n == p.function@.len(),
                m == p.constraints@.len(),
                normd@.len() == m,
                normd_ok(*p, normd@, m as int),
                i2 <= m,
                racc as int == art_rhs_sum(*p, i2 as int),
                0 <= racc as int <= (i2 as int) * 0x8000_0000_0000_0000,
            decreases m - i2,
        {
            let is_a = match normd[i2].relation {
                Relation::Le => false,
                Relation::Ge => true,
                Relation::Eq => true,
            };
            if is_a {
                racc = racc + (normd[i2].rhs as i128);
            }
            i2 += 1;
        }
        let rv: i128 = match p.objective {
            Objective::Maximize => -racc,
            Objective::Minimize => racc,
        };
        proof {
            let s_ = sigma(*p);
            let x_ = art_rhs_sum(*p, m as int);
            if s_ == 1 {
                assert(s_ * x_ == x_) by (nonlinear_arith)
                    requires
                        s_ == 1,
                ;
            } else {
                assert(s_ * x_ == -x_) by (nonlinear_arith)
                    requires
                        s_ == -1,
                ;
            }
            assert(rv as int == s_ * x_);
        }
        if rv < (i64::MIN as i128) || rv > (i64::MAX as i128) {
            proof {
                assert(!in_i64(sigma(*p) * art_rhs_sum(*p, m as int)));
            }
            return Err(SimplexError::Overflow);
        }
        let function = Equation::new(flhs, InfNum::new(Rat::from_int(rv as i64), Rat::zero()));
        let t = SimplexTable { objective: p.objective(), constraints: rows, function };
        proof {
            assert forall|k2: int| 0 <= k2 < n implies in_i64(
                sigma(*p) * (#[trigger] art_coef_sum(*p, k2, m as int)),
            ) by {
                lemma_col_offset_mono(*p, 0, m as int);
                assert(flhs@[k2]@ == int_qe(
                    sigma(*p) * art_coef_sum(*p, k2, m as int),
                    -p.function@[k2],
                ));
                assert(sigma(*p) * art_coef_sum(*p, k2, m as int) == flhs@[k2].inf.n as int);
            }
            assert forall|k2: int| 0 <= k2 < n implies (#[trigger] p.function@[k2])
                != i64::MIN by {
                lemma_col_offset_mono(*p, 0, m as int);
                assert(flhs@[k2]@ == int_qe(
                    sigma(*p) * art_coef_sum(*p, k2, m as int),
                    -p.function@[k2],
                ));
                assert(-p.function@[k2] == flhs@[k2].num.n as int);
            }
            assert forall|i3: int| 0 <= i3 < m implies !((#[trigger] p.constraints@[i3]).rhs < 0
                && p.constraints@[i3].negation_overflows()) by {
                assert(normd@[i3].relation == norm_rel(*p, i3));
            }
            assert(in_i64(sigma(*p) * art_rhs_sum(*p, m as int)));
            assert(fits(*p));
            assert(builds(*p, t));
            assert forall|i3: int| 0 <= i3 < t.nrows() implies #[trigger] t.row_shape_ok(i3) by {
                lemma_col_offset_mono(*p, 0, i3);
                lemma_col_offset_mono(*p, i3 + 1, m as int);
                assert(col_offset(*p, i3) + extra_cols(norm_rel(*p, i3)) == col_offset(
                    *p,
                    i3 + 1,
                ));
            }
            assert(t.shape_wf());
            lemma_build_wf(*p, t);
        }
        Ok(t)
    }
}

} // verus!
