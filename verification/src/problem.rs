use vstd::prelude::*;

pub mod input;

verus! {

/// The direction of optimization.
#[derive(Clone, Copy, Debug, PartialEq, Eq, Structural)]
pub enum Objective {
    Maximize,
    Minimize,
}

/// The relation of a constraint's left-hand side to its right-hand side.
#[derive(Clone, Copy, Debug, PartialEq, Eq, Structural)]
pub enum Relation {
    Le,
    Eq,
    Ge,
}

/// Negating both sides of a constraint turns `<=` into `>=` and back, and
/// keeps `=`.
pub open spec fn spec_flip(r: Relation) -> Relation {
    match r {
        Relation::Le => Relation::Ge,
        Relation::Eq => Relation::Eq,
        Relation::Ge => Relation::Le,
    }
}

/// One linear constraint: integer coefficients, a relation, and an integer
/// right-hand side.
#[derive(Debug)]
pub struct Constraint {
    pub lhs: Vec<i64>,
    pub relation: Relation,
    pub rhs: i64,
}

impl Constraint {
    pub fn new(lhs: Vec<i64>, relation: Relation, rhs: i64) -> (r: Constraint)
        ensures
            r.lhs == lhs,
            r.relation == relation,
            r.rhs == rhs,
    {
        Constraint { lhs, relation, rhs }
    }

    pub fn lhs(&self) -> (r: &Vec<i64>)
        ensures
            r == &self.lhs,
    {
        &self.lhs
    }

    pub fn relation(&self) -> (r: Relation)
        ensures
            r == self.relation,
    {
        self.relation
    }

    pub fn rhs(&self) -> (r: i64)
        ensures
            r == self.rhs,
    {
        self.rhs
    }

    /// Some coefficient (or the right-hand side) cannot be negated within the
    /// 64-bit representation.
    pub open spec fn negation_overflows(self) -> bool {
        self.rhs == i64::MIN || exists|k: int|
            0 <= k < self.lhs@.len() && (#[trigger] self.lhs@[k]) == i64::MIN
    }

    /// Sign normalization: a constraint with a negative right-hand side has
    /// every coefficient and the right-hand side negated and its relation
    /// flipped (`<=` and `>=` swap, `=` stays), so that the right-hand side
    /// of the result is never negative.  A constraint with a non-negative
    /// right-hand side is returned unchanged.
    pub fn normalized(&self) -> (r: Option<Constraint>)
        ensures
            r matches Some(c) ==> {
                &&& c.rhs >= 0
                &&& c.lhs@.len() == self.lhs@.len()
                &&& if self.rhs >= 0 {
                    c.lhs@ == self.lhs@ && c.relation == self.relation && c.rhs == self.rhs
                } else {
                    &&& c.rhs == -self.rhs
                    &&& c.relation == spec_flip(self.relation)
                    &&& forall|k: int| 0 <= k < self.lhs@.len() ==> c.lhs@[k] == -self.lhs@[k]
                }
            },
            r is None <==> self.rhs < 0 && self.negation_overflows(),
    {
        if self.rhs >= 0 {
            let mut lhs: Vec<i64> = Vec::new();
            let mut i: usize = 0;
            while i < self.lhs.len()
                invariant
                    i <= self.lhs@.len(),
                    lhs@ == self.lhs@.subrange(0, i as int),
                decreases self.lhs@.len() - i,
            {
                lhs.push(self.lhs[i]);
                i += 1;
            }
            proof {
                assert(lhs@ == self.lhs@);
            }
            Some(Constraint { lhs, relation: self.relation, rhs: self.rhs })
        } else if self.rhs == i64::MIN {
            None
        } else {
            let mut lhs: Vec<i64> = Vec::new();
            let mut i: usize = 0;
            while i < self.lhs.len()
                invariant
                    self.rhs < 0,
                    self.rhs != i64::MIN,
                    i <= self.lhs@.len(),
                    lhs@.len() == i,
                    forall|k: int| 0 <= k < i ==> self.lhs@[k] != i64::MIN,
                    forall|k: int| 0 <= k < i ==> lhs@[k] == -self.lhs@[k],
                decreases self.lhs@.len() - i,
            {
                if self.lhs[i] == i64::MIN {
                    proof {
                        let ki = i as int;
                        assert(0 <= ki < self.lhs@.len() && self.lhs@[ki] == i64::MIN);
                        assert(self.negation_overflows());
                    }
                    return None;
                }
                lhs.push(-self.lhs[i]);
                i += 1;
            }
            let relation = match self.relation {
                Relation::Le => Relation::Ge,
                Relation::Eq => Relation::Eq,
                Relation::Ge => Relation::Le,
            };
            Some(Constraint { lhs, relation, rhs: -self.rhs })
        }
    }
}

/// A linear program: the direction of optimization, the objective function's
/// coefficients (one per decision variable), and the constraints.
#[derive(Debug)]
pub struct Problem {
    pub objective: Objective,
    pub function: Vec<i64>,
    pub constraints: Vec<Constraint>,
}

impl Problem {
    /// Every constraint has one coefficient per decision variable.
    pub open spec fn wf(self) -> bool {
        forall|i: int|
            0 <= i < self.constraints@.len() ==> self.constraints@[i].lhs@.len()
                == self.function@.len()
    }

    pub fn new(objective: Objective, function: Vec<i64>, constraints: Vec<Constraint>) -> (r:
        Problem)
        ensures
            r.objective == objective,
            r.function == function,
            r.constraints == constraints,
    {
        Problem { objective, function, constraints }
    }

    pub fn objective(&self) -> (r: Objective)
        ensures
            r == self.objective,
    {
        self.objective
    }

    pub fn function(&self) -> (r: &Vec<i64>)
        ensures
            r == &self.function,
    {
        &self.function
    }

    pub fn constraints(&self) -> (r: &Vec<Constraint>)
        ensures
            r == &self.constraints,
    {
        &self.constraints
    }
}

} // verus!
