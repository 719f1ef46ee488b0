use simplex_bigm::inf_num::InfNum;
use simplex_bigm::problem::input::ParseError;
use simplex_bigm::problem::{Constraint, Objective, Problem, Relation};
use simplex_bigm::rat::Rat;
use simplex_bigm::simplex_table::{SimplexError, SimplexTable};

fn rat_is(r: &Rat, n: i64, d: i64) {
    assert_eq!((r.n, r.d), (n, d));
}

fn entry_is(t: &SimplexTable, i: usize, k: usize, n: i64, d: i64) {
    rat_is(&t.constraints[i].eq.lhs()[k], n, d);
}

fn obj_is(t: &SimplexTable, k: usize, inf: i64, num: i64) {
    rat_is(t.function.lhs()[k].inf(), inf, 1);
    rat_is(t.function.lhs()[k].num(), num, 1);
}

fn max_problem() -> Problem {
    Problem::new(
        Objective::Maximize,
        vec![3, 2],
        vec![
            Constraint::new(vec![1, 1], Relation::Le, 4),
            Constraint::new(vec![1, 3], Relation::Le, 6),
        ],
    )
}

#[test]
fn standardize_two_le_constraints() {
    let t = SimplexTable::from_problem(&max_problem()).ok().unwrap();
    assert_eq!(t.constraints.len(), 2);
    assert_eq!(t.function.lhs().len(), 4);
    // slack-basic rows [1,1,1,0 | 4] and [1,3,0,1 | 6]
    for (k, v) in [1i64, 1, 1, 0].iter().enumerate() {
        entry_is(&t, 0, k, *v, 1);
    }
    for (k, v) in [1i64, 3, 0, 1].iter().enumerate() {
        entry_is(&t, 1, k, *v, 1);
    }
    rat_is(t.constraints[0].eq.rhs(), 4, 1);
    rat_is(t.constraints[1].eq.rhs(), 6, 1);
    assert_eq!(t.constraints[0].basic, 3);
    assert_eq!(t.constraints[1].basic, 4);
    // objective row: negated coefficients, no Big-M parts
    obj_is(&t, 0, 0, -3);
    obj_is(&t, 1, 0, -2);
    obj_is(&t, 2, 0, 0);
    obj_is(&t, 3, 0, 0);
    rat_is(t.function.rhs().inf(), 0, 1);
    rat_is(t.function.rhs().num(), 0, 1);
}

#[test]
fn maximize_runs_to_optimum() {
    let mut t = SimplexTable::from_problem(&max_problem()).unwrap();
    // entering column 1 (coefficient -3), leaving row 1 (ratio 4 < 6)
    let done = t.step().unwrap();
    assert!(done);
    // optimum x1 = 4 on the first constraint, value 12
    assert_eq!(t.constraints[0].basic, 1);
    rat_is(t.constraints[0].eq.rhs(), 4, 1);
    assert_eq!(t.constraints[1].basic, 4);
    rat_is(t.constraints[1].eq.rhs(), 2, 1);
    rat_is(t.function.rhs().num(), 12, 1);
    rat_is(t.function.rhs().inf(), 0, 1);
}

#[test]
fn step_after_optimal_is_a_no_op() {
    let mut t = SimplexTable::from_problem(&max_problem()).unwrap();
    assert!(t.step().unwrap());
    let rhs_before = (t.function.rhs().num().n, t.function.rhs().num().d);
    let basic_before = (t.constraints[0].basic, t.constraints[1].basic);
    assert!(t.step().unwrap());
    assert_eq!((t.function.rhs().num().n, t.function.rhs().num().d), rhs_before);
    assert_eq!((t.constraints[0].basic, t.constraints[1].basic), basic_before);
}

#[test]
fn objective_value_is_monotone_for_maximize() {
    // a run that needs two pivots: maximize x1 + x2 with x1 <= 2 and x2 <= 3
    let p = Problem::new(
        Objective::Maximize,
        vec![1, 1],
        vec![
            Constraint::new(vec![1, 0], Relation::Le, 2),
            Constraint::new(vec![0, 1], Relation::Le, 3),
        ],
    );
    let mut t = SimplexTable::from_problem(&p).unwrap();
    let mut last = i64::MIN;
    let mut steps = 0;
    loop {
        let v = t.function.rhs().num();
        assert_eq!(v.d, 1);
        assert!(v.n >= last);
        last = v.n;
        if t.step().unwrap() {
            break;
        }
        steps += 1;
        assert!(steps < 10);
    }
    rat_is(t.function.rhs().num(), 5, 1);
}

#[test]
fn minimize_equality_uses_one_artificial() {
    // minimize x1 + x2 subject to x1 + x2 = 4
    let p = Problem::new(
        Objective::Minimize,
        vec![1, 1],
        vec![Constraint::new(vec![1, 1], Relation::Eq, 4)],
    );
    let t = SimplexTable::from_problem(&p).unwrap();
    // exactly one artificial column beyond the two decision variables
    assert_eq!(t.function.lhs().len(), 3);
    assert_eq!(t.constraints[0].basic, 3);
    // the artificial variable's objective coefficient is eliminated to zero,
    // while the decision columns carry one unit of M each
    obj_is(&t, 0, 1, -1);
    obj_is(&t, 1, 1, -1);
    obj_is(&t, 2, 0, 0);
    rat_is(t.function.rhs().inf(), 4, 1);
}

#[test]
fn minimize_first_step_drives_artificial_out() {
    let p = Problem::new(
        Objective::Minimize,
        vec![1, 1],
        vec![Constraint::new(vec![1, 1], Relation::Eq, 4)],
    );
    let mut t = SimplexTable::from_problem(&p).unwrap();
    let done = t.step().unwrap();
    assert!(done);
    // the artificial variable (column 3) has left the basis
    assert_eq!(t.constraints[0].basic, 1);
    // minimum value 4
    rat_is(t.function.rhs().num(), 4, 1);
    rat_is(t.function.rhs().inf(), 0, 1);
}

#[test]
fn surplus_and_artificial_for_ge() {
    // maximize x1 subject to x1 >= 2 and x1 <= 5
    let p = Problem::new(
        Objective::Maximize,
        vec![1],
        vec![
            Constraint::new(vec![1], Relation::Ge, 2),
            Constraint::new(vec![1], Relation::Le, 5),
        ],
    );
    let t = SimplexTable::from_problem(&p).unwrap();
    // columns: x1, surplus, artificial, slack
    assert_eq!(t.function.lhs().len(), 4);
    entry_is(&t, 0, 1, -1, 1);
    entry_is(&t, 0, 2, 1, 1);
    entry_is(&t, 1, 3, 1, 1);
    assert_eq!(t.constraints[0].basic, 3);
    assert_eq!(t.constraints[1].basic, 4);
    // the surplus column carries one unit of M for a maximization
    obj_is(&t, 1, 1, 0);
    obj_is(&t, 2, 0, 0);
    // M-weighted objective right-hand side is -2M
    rat_is(t.function.rhs().inf(), -2, 1);
    let mut t = t;
    let mut steps = 0;
    while !t.step().unwrap() {
        steps += 1;
        assert!(steps < 10);
    }
    rat_is(t.function.rhs().num(), 5, 1);
    rat_is(t.function.rhs().inf(), 0, 1);
}

#[test]
fn fractional_pivot_values_are_exact() {
    // maximize x1 subject to 2 x1 <= 3: one pivot with pivot value 2
    let p = Problem::new(
        Objective::Maximize,
        vec![1],
        vec![Constraint::new(vec![2], Relation::Le, 3)],
    );
    let mut t = SimplexTable::from_problem(&p).unwrap();
    assert!(t.step().unwrap());
    entry_is(&t, 0, 0, 1, 1);
    entry_is(&t, 0, 1, 1, 2);
    rat_is(t.constraints[0].eq.rhs(), 3, 2);
    rat_is(t.function.rhs().num(), 3, 2);
    rat_is(&t.function.lhs()[1].num, 1, 2);
}

#[test]
fn unbounded_is_reported() {
    // maximize x1 with -x1 <= 1: no row limits the entering column
    let p = Problem::new(
        Objective::Maximize,
        vec![1],
        vec![Constraint::new(vec![-1], Relation::Le, 1)],
    );
    let mut t = SimplexTable::from_problem(&p).unwrap();
    assert_eq!(t.step(), Err(SimplexError::Unbounded));
    // the tableau is untouched and reports the same again
    assert_eq!(t.step(), Err(SimplexError::Unbounded));
}

#[test]
fn normalization_flips_negative_rhs() {
    let c = Constraint::new(vec![-1, 2], Relation::Le, -3);
    let n = c.normalized().unwrap();
    assert_eq!(n.lhs(), &vec![1, -2]);
    assert_eq!(n.relation(), Relation::Ge);
    assert_eq!(n.rhs(), 3);

    let c = Constraint::new(vec![5], Relation::Ge, -1);
    let n = c.normalized().unwrap();
    assert_eq!(n.relation(), Relation::Le);
    assert_eq!(n.rhs(), 1);

    let c = Constraint::new(vec![7], Relation::Eq, -2);
    let n = c.normalized().unwrap();
    assert_eq!(n.relation(), Relation::Eq);
    assert_eq!((n.lhs()[0], n.rhs()), (-7, 2));
}

#[test]
fn normalization_keeps_nonnegative_rhs() {
    let c = Constraint::new(vec![-1, 2], Relation::Ge, 0);
    let n = c.normalized().unwrap();
    assert_eq!(n.lhs(), &vec![-1, 2]);
    assert_eq!(n.relation(), Relation::Ge);
    assert_eq!(n.rhs(), 0);
}

#[test]
fn normalization_reports_unrepresentable_negation() {
    let c = Constraint::new(vec![i64::MIN], Relation::Le, -3);
    assert!(c.normalized().is_none());
    let c = Constraint::new(vec![1], Relation::Le, i64::MIN);
    assert!(c.normalized().is_none());
    // a coefficient at the edge is fine when nothing is negated
    let c = Constraint::new(vec![i64::MIN], Relation::Le, 3);
    assert!(c.normalized().is_some());
}

#[test]
fn standardization_reports_overflow() {
    let p = Problem::new(
        Objective::Maximize,
        vec![1],
        vec![Constraint::new(vec![1], Relation::Le, i64::MIN)],
    );
    assert!(matches!(SimplexTable::from_problem(&p), Err(SimplexError::Overflow)));
    let p = Problem::new(
        Objective::Minimize,
        vec![i64::MIN],
        vec![Constraint::new(vec![1], Relation::Le, 1)],
    );
    assert!(matches!(SimplexTable::from_problem(&p), Err(SimplexError::Overflow)));
}

#[test]
fn extended_numbers_order_lexicographically() {
    let one = InfNum::one();
    let one_inf = InfNum::one_inf();
    let zero = InfNum::zero();
    rat_is(one.inf(), 0, 1);
    rat_is(one.num(), 1, 1);
    rat_is(one_inf.inf(), 1, 1);
    rat_is(one_inf.num(), 0, 1);
    // M dominates any finite value
    assert!(one.le(&one_inf));
    assert!(!one_inf.le(&one));
    assert!(zero.le(&one));
    let big_finite = InfNum::new(Rat::from_int(0), Rat::from_int(1_000_000));
    assert!(big_finite.le(&one_inf));
    assert!(big_finite.lt(&one_inf));
    // ties on the M part fall back to the finite part
    let m_plus_one = InfNum::new(Rat::from_int(1), Rat::from_int(1));
    assert!(one_inf.le(&m_plus_one));
    assert!(!m_plus_one.le(&one_inf));
}

#[test]
fn rational_arithmetic_is_exact() {
    let half = Rat { n: 1, d: 2 };
    let third = Rat { n: 1, d: 3 };
    let a = InfNum::new(Rat::zero(), half);
    let b = InfNum::new(Rat::zero(), third);
    let sum = a.try_add(&b).unwrap();
    rat_is(sum.num(), 5, 6);
    let product = a.try_scale(&third).unwrap();
    rat_is(product.num(), 1, 6);
    let diff = a.try_sub(&b).unwrap();
    rat_is(diff.num(), 1, 6);
    let unreduced = InfNum::new(Rat::zero(), Rat { n: 2, d: 4 }).try_add(
        &InfNum::new(Rat::zero(), Rat { n: 0, d: 7 }),
    ).unwrap();
    rat_is(unreduced.num(), 1, 2);
    assert!(third.le(&half));
    assert!(third.lt(&half));
    assert!(!half.le(&third));
    assert!(Rat { n: 1, d: 2 }.eq_val(&Rat { n: 3, d: 6 }));
}

#[test]
fn equation_accessors_expose_parts() {
    let eq = simplex_bigm::equation::Equation::new(vec![1i64, 2, 3], 9i64);
    assert_eq!(eq.lhs(), &vec![1, 2, 3]);
    assert_eq!(*eq.rhs(), 9);
}

#[test]
fn problem_accessors_expose_parts() {
    let p = max_problem();
    assert_eq!(p.objective(), Objective::Maximize);
    assert_eq!(p.function(), &vec![3, 2]);
    assert_eq!(p.constraints().len(), 2);
    assert_eq!(p.constraints()[0].relation(), Relation::Le);
    assert_eq!(p.constraints()[1].rhs(), 6);
}

#[test]
fn zero_constraints_yield_negated_objective_row() {
    let p = Problem::new(Objective::Maximize, vec![4, -7], vec![]);
    let t = SimplexTable::from_problem(&p).unwrap();
    assert_eq!(t.constraints.len(), 0);
    assert_eq!(t.function.lhs().len(), 2);
    obj_is(&t, 0, 0, -4);
    obj_is(&t, 1, 0, 7);
}

#[test]
fn reads_a_problem_from_text() {
    let text = b"2 2 +\n3 2\n1 1 <= 4\n1 3 <= 6\n".to_vec();
    let p = Problem::read_from_input(&text).unwrap();
    assert_eq!(p.objective(), Objective::Maximize);
    assert_eq!(p.function(), &vec![3, 2]);
    assert_eq!(p.constraints().len(), 2);
    assert_eq!(p.constraints()[0].lhs(), &vec![1, 1]);
    assert_eq!(p.constraints()[0].relation(), Relation::Le);
    assert_eq!(p.constraints()[0].rhs(), 4);
    assert_eq!(p.constraints()[1].lhs(), &vec![1, 3]);
    assert_eq!(p.constraints()[1].rhs(), 6);
}

#[test]
fn reads_negative_numbers_and_all_relations() {
    let text = b"2 3 -\n-1 -2\n-3 4 >= -5\n0 1 = 2\n6 -7 <= 8\n".to_vec();
    let p = Problem::read_from_input(&text).unwrap();
    assert_eq!(p.objective(), Objective::Minimize);
    assert_eq!(p.function(), &vec![-1, -2]);
    assert_eq!(p.constraints()[0].lhs(), &vec![-3, 4]);
    assert_eq!(p.constraints()[0].relation(), Relation::Ge);
    assert_eq!(p.constraints()[0].rhs(), -5);
    assert_eq!(p.constraints()[1].relation(), Relation::Eq);
    assert_eq!(p.constraints()[2].relation(), Relation::Le);
}

#[test]
fn rejects_missing_tokens() {
    let text = b"2 2\n".to_vec();
    assert_eq!(Problem::read_from_input(&text).unwrap_err(), ParseError::Syntax);
    let text = b"2 1 +\n3 2\n1 1 4\n".to_vec();
    assert_eq!(Problem::read_from_input(&text).unwrap_err(), ParseError::Syntax);
    let text = b"2 1 *\n3 2\n1 1 <= 4\n".to_vec();
    assert_eq!(Problem::read_from_input(&text).unwrap_err(), ParseError::Syntax);
}

#[test]
fn rejects_bad_numbers() {
    let text = b"2 2 +\n3 x\n1 1 <= 4\n1 3 <= 6\n".to_vec();
    assert_eq!(Problem::read_from_input(&text).unwrap_err(), ParseError::Num);
    // a value one past the 64-bit range
    let text = b"1 1 +\n9223372036854775808\n1 <= 4\n".to_vec();
    assert_eq!(Problem::read_from_input(&text).unwrap_err(), ParseError::Num);
    // the most negative 64-bit value itself is accepted
    let text = b"1 1 +\n-9223372036854775808\n1 <= 4\n".to_vec();
    let p = Problem::read_from_input(&text).unwrap();
    assert_eq!(p.function(), &vec![i64::MIN]);
}

#[test]
fn parsed_problem_solves_end_to_end() {
    let text = b"2 2 +\n3 2\n1 1 <= 4\n1 3 <= 6\n".to_vec();
    let p = Problem::read_from_input(&text).unwrap();
    let mut t = SimplexTable::from_problem(&p).unwrap();
    let mut steps = 0;
    while !t.step().unwrap() {
        steps += 1;
        assert!(steps < 10);
    }
    rat_is(t.function.rhs().num(), 12, 1);
}

fn check_identity_invariant(t: &SimplexTable) {
    let width = t.function.lhs().len();
    for (i, row) in t.constraints.iter().enumerate() {
        let b = row.basic;
        assert!(1 <= b && b <= width);
        rat_is(&row.eq.lhs()[b - 1], 1, 1);
        for (i2, other) in t.constraints.iter().enumerate() {
            if i2 != i {
                rat_is(&other.eq.lhs()[b - 1], 0, 1);
            }
        }
        rat_is(t.function.lhs()[b - 1].inf(), 0, 1);
        rat_is(t.function.lhs()[b - 1].num(), 0, 1);
        // right-hand sides stay non-negative
        assert!(row.eq.rhs().n >= 0);
    }
}

#[test]
fn pivot_preserves_identity_invariant() {
    // needs several pivots: maximize 3 x1 + 5 x2 under three constraints
    let p = Problem::new(
        Objective::Maximize,
        vec![3, 5],
        vec![
            Constraint::new(vec![1, 0], Relation::Le, 4),
            Constraint::new(vec![0, 2], Relation::Le, 12),
            Constraint::new(vec![3, 2], Relation::Le, 18),
        ],
    );
    let mut t = SimplexTable::from_problem(&p).unwrap();
    check_identity_invariant(&t);
    let mut steps = 0;
    loop {
        let done = t.step().unwrap();
        check_identity_invariant(&t);
        if done {
            break;
        }
        steps += 1;
        assert!(steps < 10);
    }
    rat_is(t.function.rhs().num(), 36, 1);
}

#[test]
fn minimize_with_ge_constraint() {
    // minimize 2 x1 + 3 x2 subject to x1 + x2 >= 4
    let p = Problem::new(
        Objective::Minimize,
        vec![2, 3],
        vec![Constraint::new(vec![1, 1], Relation::Ge, 4)],
    );
    let mut t = SimplexTable::from_problem(&p).unwrap();
    check_identity_invariant(&t);
    let mut steps = 0;
    let mut last = (i64::MAX, i64::MAX);
    loop {
        assert_eq!(t.function.rhs().inf().d, 1);
        assert_eq!(t.function.rhs().num().d, 1);
        let v = (t.function.rhs().inf().n, t.function.rhs().num().n);
        // the objective right-hand side never increases for a minimization
        assert!(v <= last);
        last = v;
        let done = t.step().unwrap();
        check_identity_invariant(&t);
        if done {
            break;
        }
        steps += 1;
        assert!(steps < 10);
    }
    // minimum 8 at x1 = 4, x2 = 0
    rat_is(t.function.rhs().num(), 8, 1);
    rat_is(t.function.rhs().inf(), 0, 1);
}

#[test]
fn equation_addition_is_elementwise() {
    let mut a = simplex_bigm::equation::Equation::new(vec![Rat { n: 1, d: 2 }, Rat { n: 2, d: 1 }], Rat { n: 5, d: 1 });
    let b = simplex_bigm::equation::Equation::new(
        vec![Rat { n: 1, d: 3 }, Rat { n: -1, d: 1 }],
        Rat { n: 1, d: 2 },
    );
    assert!(a.try_add_assign(&b));
    rat_is(&a.lhs()[0], 5, 6);
    rat_is(&a.lhs()[1], 1, 1);
    rat_is(a.rhs(), 11, 2);
}

#[test]
fn extended_negation_is_componentwise() {
    let x = InfNum::new(Rat { n: 2, d: 3 }, Rat { n: -5, d: 1 });
    let y = x.try_neg().unwrap();
    rat_is(y.inf(), -2, 3);
    rat_is(y.num(), 5, 1);
}

#[test]
fn leaving_row_uses_exact_ratios() {
    // maximize x1 under 2 x1 <= 3 (ratio 3/2) and x1 <= 2 (ratio 2): the
    // first row leaves only because 3/2 < 2 as exact rationals
    let p = Problem::new(
        Objective::Maximize,
        vec![1],
        vec![
            Constraint::new(vec![2], Relation::Le, 3),
            Constraint::new(vec![1], Relation::Le, 2),
        ],
    );
    let mut t = SimplexTable::from_problem(&p).unwrap();
    assert!(t.step().unwrap());
    assert_eq!(t.constraints[0].basic, 1);
    rat_is(t.constraints[0].eq.rhs(), 3, 2);
    // the second row keeps its slack with 2 - 3/2 = 1/2 left
    assert_eq!(t.constraints[1].basic, 3);
    rat_is(t.constraints[1].eq.rhs(), 1, 2);
    rat_is(t.function.rhs().num(), 3, 2);
}
