use vstd::prelude::*;

use crate::rat::{Rat, qadd, qeq, qmul, qsub, representable, sub_scaled_representable};
use crate::rat::{lemma_qsub_representable_congruence};
use crate::inf_num::{InfNum, qe_eq, qe_scale, qe_sub, qe_sub_scaled_representable};

verus! {

/// A tableau row: an ordered sequence of coefficients (one per column) and a
/// right-hand side.  Two rows may be combined only when their coefficient
/// sequences have the same length and are aligned to the same columns.
pub struct Equation<T> {
    pub lhs: Vec<T>,
    pub rhs: T,
}

impl<T> Equation<T> {
    pub fn new(lhs: Vec<T>, rhs: T) -> (r: Equation<T>)
        ensures
            r.lhs == lhs,
            r.rhs == rhs,
    {
        Equation { lhs, rhs }
    }

    pub fn lhs(&self) -> (r: &Vec<T>)
        ensures
            r == &self.lhs,
    {
        &self.lhs
    }

    pub fn rhs(&self) -> (r: &T)
        ensures
            r == &self.rhs,
    {
        &self.rhs
    }
}

impl Equation<Rat> {
    /// Every coefficient and the right-hand side are valid rationals.
    pub open spec fn wf(self) -> bool {
        &&& forall|k: int| 0 <= k < self.lhs@.len() ==> self.lhs@[k].wf()
        &&& self.rhs.wf()
    }

    /// A fresh row with the same coefficients and right-hand side.
    pub fn duplicate(&self) -> (r: Equation<Rat>)
        ensures
            r.lhs@ == self.lhs@,
            r.rhs == self.rhs,
    {
        let mut lhs: Vec<Rat> = Vec::new();
        let mut i: usize = 0;
        while i < self.lhs.len()
            invariant
                i <= self.lhs@.len(),
                lhs@ == self.lhs@.subrange(0, i as int),
            decreases self.lhs@.len() - i,
        {
            lhs.push(self.lhs[i]);
            i += 1;
        }
        proof {
            assert(lhs@ == self.lhs@);
        }
        Equation { lhs, rhs: self.rhs }
    }

    /// Multiplies every coefficient and the right-hand side by `c`, exactly.
    /// On success every entry of the result is the scaled entry; when some
    /// scaled value does not fit the representation the row is unchanged.
    pub fn scale(&mut self, c: &Rat) -> (ok: bool)
        requires
            old(self).wf(),
            c.wf(),
        ensures
            final(self).lhs@.len() == old(self).lhs@.len(),
            final(self).wf(),
            ok ==> {
                &&& forall|k: int|
                    0 <= k < old(self).lhs@.len() ==> qeq(
                        final(self).lhs@[k]@,
                        qmul(old(self).lhs@[k]@, c@),
                    )
                &&& qeq(final(self).rhs@, qmul(old(self).rhs@, c@))
            },
            !ok ==> *final(self) == *old(self),
            ok <==> representable(qmul(old(self).rhs@, c@)) && forall|k: int|
                0 <= k < old(self).lhs@.len() ==> representable(
                    qmul(#[trigger] old(self).lhs@[k]@, c@),
                ),
    {
        let rhs = match self.rhs.try_mul(c) {
            Some(x) => x,
            None => { return false; },
        };
        let mut lhs: Vec<Rat> = Vec::new();
        let mut i: usize = 0;
        while i < self.lhs.len()
            invariant
                old(self) == self,
                self.wf(),
                c.wf(),
                i <= self.lhs@.len(),
                lhs@.len() == i,
                forall|k: int| 0 <= k < i ==> lhs@[k].wf(),
                forall|k: int| 0 <= k < i ==> qeq(lhs@[k]@, qmul(self.lhs@[k]@, c@)),
                forall|k: int| 0 <= k < i ==> representable(qmul(#[trigger] self.lhs@[k]@, c@)),
            decreases self.lhs@.len() - i,
        {
            let x = match self.lhs[i].try_mul(c) {
                Some(x) => x,
                None => { return false; },
            };
            lhs.push(x);
            i += 1;
        }
        self.lhs = lhs;
        self.rhs = rhs;
        true
    }

    /// Adds `other` to this row, exactly, entry by entry.  When some sum
    /// does not fit the representation the row is unchanged.
    pub fn try_add_assign(&mut self, other: &Equation<Rat>) -> (ok: bool)
        requires
            old(self).wf(),
            other.wf(),
            other.lhs@.len() == old(self).lhs@.len(),
        ensures
            final(self).lhs@.len() == old(self).lhs@.len(),
            final(self).wf(),
            ok ==> {
                &&& forall|k: int|
                    0 <= k < old(self).lhs@.len() ==> qeq(
                        final(self).lhs@[k]@,
                        qadd(old(self).lhs@[k]@, other.lhs@[k]@),
                    )
                &&& qeq(final(self).rhs@, qadd(old(self).rhs@, other.rhs@))
            },
            !ok ==> *final(self) == *old(self),
            ok <==> representable(qadd(old(self).rhs@, other.rhs@)) && forall|k: int|
                0 <= k < old(self).lhs@.len() ==> representable(
                    qadd(#[trigger] old(self).lhs@[k]@, other.lhs@[k]@),
                ),
    {
        let rhs = match self.rhs.try_add(&other.rhs) {
            Some(x) => x,
            None => { return false; },
        };
        let mut lhs: Vec<Rat> = Vec::new();
        let mut i: usize = 0;
        while i < self.lhs.len()
            invariant
                old(self) == self,
                self.wf(),
                other.wf(),
                other.lhs@.len() == self.lhs@.len(),
                i <= self.lhs@.len(),
                lhs@.len() == i,
                forall|k: int| 0 <= k < i ==> lhs@[k].wf(),
                forall|k: int|
                    0 <= k < i ==> qeq(lhs@[k]@, qadd(self.lhs@[k]@, other.lhs@[k]@)),
                forall|k: int|
                    0 <= k < i ==> representable(qadd(#[trigger] self.lhs@[k]@, other.lhs@[k]@)),
            decreases self.lhs@.len() - i,
        {
            let x = match self.lhs[i].try_add(&other.lhs[i]) {
                Some(x) => x,
                None => { return false; },
            };
            lhs.push(x);
            i += 1;
        }
        self.lhs = lhs;
        self.rhs = rhs;
        true
    }

    /// Subtracts `c` times `other` from this row, exactly, entry by entry.
    /// When some intermediate value does not fit the representation the row
    /// is unchanged.
    pub fn sub_scaled(&mut self, other: &Equation<Rat>, c: &Rat) -> (ok: bool)
        requires
            old(self).wf(),
            other.wf(),
            c.wf(),
            other.lhs@.len() == old(self).lhs@.len(),
        ensures
            final(self).lhs@.len() == old(self).lhs@.len(),
            final(self).wf(),
            ok ==> {
                &&& forall|k: int|
                    0 <= k < old(self).lhs@.len() ==> qeq(
                        final(self).lhs@[k]@,
                        qsub(old(self).lhs@[k]@, qmul(other.lhs@[k]@, c@)),
                    )
                &&& qeq(final(self).rhs@, qsub(old(self).rhs@, qmul(other.rhs@, c@)))
            },
            !ok ==> *final(self) == *old(self),
            ok <==> sub_scaled_representable(old(self).rhs@, other.rhs@, c@) && forall|k: int|
                0 <= k < old(self).lhs@.len() ==> sub_scaled_representable(
                    #[trigger] old(self).lhs@[k]@,
                    other.lhs@[k]@,
                    c@,
                ),
    {
        let p = match other.rhs.try_mul(c) {
            Some(p) => p,
            None => { return false; },
        };
        proof {
            crate::rat::lemma_qops_wf(other.rhs@, c@);
            lemma_qsub_representable_congruence(self.rhs@, p@, qmul(other.rhs@, c@));
        }
        let rhs = match self.rhs.try_sub(&p) {
            Some(x) => x,
            None => { return false; },
        };
        proof {
            crate::rat::lemma_qsub_congruence_right(self.rhs@, p@, qmul(other.rhs@, c@), rhs@);
        }
        let mut lhs: Vec<Rat> = Vec::new();
        let mut i: usize = 0;
        while i < self.lhs.len()
            invariant
                old(self) == self,
                self.wf(),
                other.wf(),
                c.wf(),
                other.lhs@.len() == self.lhs@.len(),
                i <= self.lhs@.len(),
                lhs@.len() == i,
                forall|k: int| 0 <= k < i ==> lhs@[k].wf(),
                forall|k: int|
                    0 <= k < i ==> qeq(lhs@[k]@, qsub(self.lhs@[k]@, qmul(other.lhs@[k]@, c@))),
                forall|k: int|
                    0 <= k < i ==> sub_scaled_representable(
                        #[trigger] self.lhs@[k]@,
                        other.lhs@[k]@,
                        c@,
                    ),
            decreases self.lhs@.len() - i,
        {
            let p = match other.lhs[i].try_mul(c) {
                Some(p) => p,
                None => {
                    proof {
                        let ii = i as int;
                        assert(!sub_scaled_representable(self.lhs@[ii]@, other.lhs@[ii]@, c@));
                    }
                    return false;
                },
            };
            proof {
                crate::rat::lemma_qops_wf(other.lhs@[i as int]@, c@);
                lemma_qsub_representable_congruence(
                    self.lhs@[i as int]@,
                    p@,
                    qmul(other.lhs@[i as int]@, c@),
                );
            }
            let x = match self.lhs[i].try_sub(&p) {
                Some(x) => x,
                None => {
                    proof {
                        let ii = i as int;
                        assert(!sub_scaled_representable(self.lhs@[ii]@, other.lhs@[ii]@, c@));
                    }
                    return false;
                },
            };
            proof {
                crate::rat::lemma_qsub_congruence_right(
                    self.lhs@[i as int]@,
                    p@,
                    qmul(other.lhs@[i as int]@, c@),
                    x@,
                );
            }
            lhs.push(x);
            i += 1;
        }
        self.lhs = lhs;
        self.rhs = rhs;
        true
    }
}

impl Equation<InfNum> {
    /// Every coefficient and the right-hand side are valid extended numbers.
    pub open spec fn wf(self) -> bool {
        &&& forall|k: int| 0 <= k < self.lhs@.len() ==> self.lhs@[k].wf()
        &&& self.rhs.wf()
    }

    /// Subtracts `s` times the plain-rational row `other` from this extended
    /// row, exactly, entry by entry.  When some intermediate value does not
    /// fit the representation the row is unchanged.
    pub fn sub_scaled_row(&mut self, other: &Equation<Rat>, s: &InfNum) -> (ok: bool)
        requires
            old(self).wf(),
            other.wf(),
            s.wf(),
            other.lhs@.len() == old(self).lhs@.len(),
        ensures
            final(self).lhs@.len() == old(self).lhs@.len(),
            final(self).wf(),
            ok ==> {
                &&& forall|k: int|
                    0 <= k < old(self).lhs@.len() ==> qe_eq(
                        final(self).lhs@[k]@,
                        qe_sub(old(self).lhs@[k]@, qe_scale(s@, other.lhs@[k]@)),
                    )
                &&& qe_eq(final(self).rhs@, qe_sub(old(self).rhs@, qe_scale(s@, other.rhs@)))
            },
            !ok ==> *final(self) == *old(self),
            ok <==> qe_sub_scaled_representable(old(self).rhs@, s@, other.rhs@) && forall|k: int|
                0 <= k < old(self).lhs@.len() ==> qe_sub_scaled_representable(
                    #[trigger] old(self).lhs@[k]@,
                    s@,
                    other.lhs@[k]@,
                ),
    {
        let p = match s.try_scale(&other.rhs) {
            Some(p) => p,
            None => { return false; },
        };
        proof {
            crate::inf_num::lemma_qe_scale_wf(s@, other.rhs@);
            lemma_qsub_representable_congruence(self.rhs@.inf, p@.inf, qmul(s@.inf, other.rhs@));
            lemma_qsub_representable_congruence(self.rhs@.num, p@.num, qmul(s@.num, other.rhs@));
        }
        let rhs = match self.rhs.try_sub(&p) {
            Some(x) => x,
            None => { return false; },
        };
        proof {
            crate::inf_num::lemma_qe_sub_congruence_right(
                self.rhs@,
                p@,
                qe_scale(s@, other.rhs@),
                rhs@,
            );
        }
        let mut lhs: Vec<InfNum> = Vec::new();
        let mut i: usize = 0;
        while i < self.lhs.len()
            invariant
                old(self) == self,
                self.wf(),
                other.wf(),
                s.wf(),
                other.lhs@.len() == self.lhs@.len(),
                i <= self.lhs@.len(),
                lhs@.len() == i,
                forall|k: int| 0 <= k < i ==> lhs@[k].wf(),
                forall|k: int|
                    0 <= k < i ==> qe_eq(
                        lhs@[k]@,
                        qe_sub(self.lhs@[k]@, qe_scale(s@, other.lhs@[k]@)),
                    ),
                forall|k: int|
                    0 <= k < i ==> qe_sub_scaled_representable(
                        #[trigger] self.lhs@[k]@,
                        s@,
                        other.lhs@[k]@,
                    ),
            decreases self.lhs@.len() - i,
        {
            let p = match s.try_scale(&other.lhs[i]) {
                Some(p) => p,
                None => {
                    proof {
                        let ii = i as int;
                        assert(!qe_sub_scaled_representable(self.lhs@[ii]@, s@, other.lhs@[ii]@));
                    }
                    return false;
                },
            };
            proof {
                crate::inf_num::lemma_qe_scale_wf(s@, other.lhs@[i as int]@);
                lemma_qsub_representable_congruence(
                    self.lhs@[i as int]@.inf,
                    p@.inf,
                    qmul(s@.inf, other.lhs@[i as int]@),
                );
                lemma_qsub_representable_congruence(
                    self.lhs@[i as int]@.num,
                    p@.num,
                    qmul(s@.num, other.lhs@[i as int]@),
                );
            }
            let x = match self.lhs[i].try_sub(&p) {
                Some(x) => x,
                None => {
                    proof {
                        let ii = i as int;
                        assert(!qe_sub_scaled_representable(self.lhs@[ii]@, s@, other.lhs@[ii]@));
                    }
                    return false;
                },
            };
            proof {
                crate::inf_num::lemma_qe_sub_congruence_right(
                    self.lhs@[i as int]@,
                    p@,
                    qe_scale(s@, other.lhs@[i as int]@),
                    x@,
                );
            }
            lhs.push(x);
            i += 1;
        }
        self.lhs = lhs;
        self.rhs = rhs;
        true
    }
}

} // verus!
