//! Computable reals by interval approximation: a real is an approximation
//! procedure that, asked for a precision `k >= 1`, returns an interval of
//! rationals whose width is at most `1/k` and which brackets the value.
//!
//! A real is represented as a small tree of builders - a rational point, or
//! the sum, difference, product or quotient of two reals - and evaluating the
//! tree at a precision composes the operands' approximations. Addition and
//! subtraction refine each operand one level (to precision `2k`); a product
//! or quotient has no fixed precision split, so those evaluate under a
//! refinement loop that doubles the working precision until the interval is
//! narrow enough. Dividing by a real whose value is exactly zero would
//! refine forever, so quotient trees carry the divisor-nonzero condition in
//! their evaluation precondition.

use crate::frac::Frac;
use crate::frac::fadd;
use crate::frac::fdiv;
use crate::frac::feq;
use crate::frac::finv;
use crate::frac::fle;
use crate::frac::fmul;
use crate::frac::frac;
use crate::frac::frac_ok;
use crate::frac::fsub;
use crate::frac::fzero;
use crate::frac::lemma_exact_width;
use crate::frac::lemma_exact_width_le;
use crate::frac::lemma_fadd_congr;
use crate::frac::lemma_feq_sign;
use crate::frac::lemma_feq_trans;
use crate::frac::lemma_finv_congr;
use crate::frac::lemma_finv_ok;
use crate::frac::lemma_fle_feq;
use crate::frac::lemma_fle_trans;
use crate::frac::lemma_fmul_congr;
use crate::frac::lemma_fsub_congr;
use crate::frac::lemma_point_not_zero;
use crate::frac::lemma_pos_mul;
use crate::integers::Int;
use crate::naturals::Nat;
use crate::naturals::lemma_gcd_one_left;
use crate::rationals::Rat;
use core::cmp::Ordering;
use vstd::prelude::*;
use vstd::string::StringExecFns;

verus! {

/// A closed interval of rationals, `lo <= hi`, standing in for an unknown
/// real value.
pub struct Interval {
    pub lo: Rat,
    pub hi: Rat,
}

impl Clone for Interval {
    fn clone(&self) -> (r: Interval)
        ensures
            r == *self,
    {
        Interval { lo: self.lo.clone(), hi: self.hi.clone() }
    }
}

impl Interval {
    /// Both bounds canonical, and ordered.
    pub open spec fn ok(self) -> bool {
        self.lo.ok() && self.hi.ok() && fle(self.lo@, self.hi@)
    }

    /// Zero lies between the bounds.
    pub open spec fn has_zero(self) -> bool {
        fle(self.lo@, fzero()) && fle(fzero(), self.hi@)
    }

    /// A disordered pair here is a defect in the calling arithmetic, not a
    /// data condition, so ordered bounds are a precondition.
    pub fn new(lo: Rat, hi: Rat) -> (r: Interval)
        requires
            lo.ok(),
            hi.ok(),
            fle(lo@, hi@),
        ensures
            r.lo == lo,
            r.hi == hi,
            r.ok(),
    {
        Interval { lo, hi }
    }

    /// The zero-width interval `[x, x]`.
    pub fn point(x: Rat) -> (r: Interval)
        requires
            x.ok(),
        ensures
            r.lo == x,
            r.hi == x,
            r.ok(),
    {
        Interval { lo: x.clone(), hi: x }
    }

    pub fn width(&self) -> (r: Rat)
        requires
            self.ok(),
        ensures
            r.ok(),
            feq(r@, fsub(self.hi@, self.lo@)),
    {
        self.hi.sub(&self.lo)
    }

    pub fn contains_zero(&self) -> (r: bool)
        requires
            self.ok(),
        ensures
            r == self.has_zero(),
    {
        let z = Rat::zero();
        let c_lo = self.lo.cmp_rat(&z);
        let c_hi = z.cmp_rat(&self.hi);
        !matches!(c_lo, Ordering::Greater) && !matches!(c_hi, Ordering::Greater)
    }
}

/// The smaller of two rationals by value; ties keep the first.
fn rat_min(a: Rat, b: Rat) -> (r: Rat)
    requires
        a.ok(),
        b.ok(),
    ensures
        r.ok(),
        fle(r@, a@),
        fle(r@, b@),
        r == a || r == b,
{
    if matches!(a.cmp_rat(&b), Ordering::Less) {
        a
    } else {
        b
    }
}

/// The larger of two rationals by value; ties keep the first.
fn rat_max(a: Rat, b: Rat) -> (r: Rat)
    requires
        a.ok(),
        b.ok(),
    ensures
        r.ok(),
        fle(a@, r@),
        fle(b@, r@),
        r == a || r == b,
{
    if matches!(a.cmp_rat(&b), Ordering::Greater) {
        a
    } else {
        b
    }
}

/// The standard interval product: the smallest interval holding all four
/// corner products, correct for every sign combination of the operands.
fn interval_mul(a: &Interval, b: &Interval) -> (r: Interval)
    requires
        a.ok(),
        b.ok(),
    ensures
        r.ok(),
        fle(r.lo@, fmul(a.lo@, b.lo@)),
        fle(r.lo@, fmul(a.lo@, b.hi@)),
        fle(r.lo@, fmul(a.hi@, b.lo@)),
        fle(r.lo@, fmul(a.hi@, b.hi@)),
        fle(fmul(a.lo@, b.lo@), r.hi@),
        fle(fmul(a.lo@, b.hi@), r.hi@),
        fle(fmul(a.hi@, b.lo@), r.hi@),
        fle(fmul(a.hi@, b.hi@), r.hi@),
        feq(r.lo@, fmul(a.lo@, b.lo@)) || feq(r.lo@, fmul(a.lo@, b.hi@)) || feq(
            r.lo@,
            fmul(a.hi@, b.lo@),
        ) || feq(r.lo@, fmul(a.hi@, b.hi@)),
        feq(r.hi@, fmul(a.lo@, b.lo@)) || feq(r.hi@, fmul(a.lo@, b.hi@)) || feq(
            r.hi@,
            fmul(a.hi@, b.lo@),
        ) || feq(r.hi@, fmul(a.hi@, b.hi@)),
{
    let ac = a.lo.mul(&b.lo);
    let ad = a.lo.mul(&b.hi);
    let bc = a.hi.mul(&b.lo);
    let bd = a.hi.mul(&b.hi);
    let m1 = rat_min(ac.clone(), ad.clone());
    let m2 = rat_min(bc.clone(), bd.clone());
    let lo = rat_min(m1.clone(), m2.clone());
    let x1 = rat_max(ac.clone(), ad.clone());
    let x2 = rat_max(bc.clone(), bd.clone());
    let hi = rat_max(x1.clone(), x2.clone());
    proof {
        lemma_fle_trans(lo@, m1@, ac@);
        lemma_fle_trans(lo@, m1@, ad@);
        lemma_fle_trans(lo@, m2@, bc@);
        lemma_fle_trans(lo@, m2@, bd@);
        lemma_fle_trans(ac@, x1@, hi@);
        lemma_fle_trans(ad@, x1@, hi@);
        lemma_fle_trans(bc@, x2@, hi@);
        lemma_fle_trans(bd@, x2@, hi@);
        lemma_fle_trans(lo@, ac@, hi@);
        lemma_pos_mul(a.lo@.d, b.lo@.d);
        lemma_pos_mul(a.lo@.d, b.hi@.d);
        lemma_pos_mul(a.hi@.d, b.lo@.d);
        lemma_pos_mul(a.hi@.d, b.hi@.d);
        lemma_fle_feq(lo@, ac@, lo@, fmul(a.lo@, b.lo@));
        lemma_fle_feq(lo@, ad@, lo@, fmul(a.lo@, b.hi@));
        lemma_fle_feq(lo@, bc@, lo@, fmul(a.hi@, b.lo@));
        lemma_fle_feq(lo@, bd@, lo@, fmul(a.hi@, b.hi@));
        lemma_fle_feq(ac@, hi@, fmul(a.lo@, b.lo@), hi@);
        lemma_fle_feq(ad@, hi@, fmul(a.lo@, b.hi@), hi@);
        lemma_fle_feq(bc@, hi@, fmul(a.hi@, b.lo@), hi@);
        lemma_fle_feq(bd@, hi@, fmul(a.hi@, b.hi@), hi@);
    }
    Interval::new(lo, hi)
}

/// The reciprocal of an interval known to exclude zero. In this tower an
/// interval reaching inversion always has both bounds on one shared value,
/// and that is taken as a precondition.
fn interval_inv(a: &Interval) -> (r: Interval)
    requires
        a.ok(),
        !a.has_zero(),
        feq(a.lo@, a.hi@),
    ensures
        r.ok(),
        a.lo@.n != 0,
        a.hi@.n != 0,
        feq(r.lo@, finv(a.lo@)),
        feq(r.hi@, finv(a.hi@)),
{
    proof {
        lemma_feq_sign(a.lo@, a.hi@);
    }
    let one = Rat::one();
    let inv_lo = match one.div(&a.lo) {
        Some(x) => x,
        None => {
            proof {
                assert(false);
            }
            Rat::one()
        }
    };
    let inv_hi = match one.div(&a.hi) {
        Some(x) => x,
        None => {
            proof {
                assert(false);
            }
            Rat::one()
        }
    };
    proof {
        lemma_finv_ok(a.lo@);
        lemma_finv_ok(a.hi@);
        lemma_finv_congr(a.lo@, a.hi@);
        lemma_feq_trans(inv_lo@, finv(a.lo@), finv(a.hi@));
        lemma_feq_trans(inv_hi@, finv(a.hi@), finv(a.lo@));
        lemma_feq_trans(inv_lo@, finv(a.hi@), inv_hi@);
    }
    match a.lo.cmp_rat(&Rat::zero()) {
        Ordering::Greater => Interval::new(inv_hi, inv_lo),
        Ordering::Less => Interval::new(inv_lo, inv_hi),
        Ordering::Equal => {
            proof {
                assert(false);
            }
            Interval::new(inv_lo, inv_hi)
        }
    }
}

/// The constant rational `1/k`, the width allowance at precision `k`.
fn unit_frac(k: usize) -> (r: Rat)
    requires
        1 <= k,
    ensures
        r.ok(),
        r@ == frac(1, k as int),
{
    proof {
        lemma_gcd_one_left(k as nat);
    }
    match Rat::new(Int::from_nat(Nat::one()), Nat::from_usize(k)) {
        Some(r) => r,
        None => {
            proof {
                assert(false);
            }
            Rat::one()
        }
    }
}

/// A computable real: a rational point, or an arithmetic combination of two
/// reals. The value is never stored; it is approximated on demand through
/// `interval`.
pub enum Real {
    Point(Rat),
    Sum(Box<Real>, Box<Real>),
    Diff(Box<Real>, Box<Real>),
    Prod(Box<Real>, Box<Real>),
    Quot(Box<Real>, Box<Real>),
}

impl Clone for Real {
    fn clone(&self) -> (r: Real)
        ensures
            r == *self,
        decreases *self,
    {
        match self {
            Real::Point(x) => Real::Point(x.clone()),
            Real::Sum(a, b) => Real::Sum(Box::new((**a).clone()), Box::new((**b).clone())),
            Real::Diff(a, b) => Real::Diff(Box::new((**a).clone()), Box::new((**b).clone())),
            Real::Prod(a, b) => Real::Prod(Box::new((**a).clone()), Box::new((**b).clone())),
            Real::Quot(a, b) => Real::Quot(Box::new((**a).clone()), Box::new((**b).clone())),
        }
    }
}

impl Real {
    /// The exact value a tree stands for, as a fraction of unbounded
    /// integers.
    pub open spec fn denote(self) -> Frac
        decreases self,
    {
        match self {
            Real::Point(r) => r@,
            Real::Sum(a, b) => fadd((*a).denote(), (*b).denote()),
            Real::Diff(a, b) => fsub((*a).denote(), (*b).denote()),
            Real::Prod(a, b) => fmul((*a).denote(), (*b).denote()),
            Real::Quot(a, b) => fdiv((*a).denote(), (*b).denote()),
        }
    }

    /// Evaluation terminates exactly when every leaf is canonical and no
    /// quotient divides by a zero-valued real; dividing by exact zero would
    /// refine forever, by design.
    pub open spec fn evaluable(self) -> bool
        decreases self,
    {
        match self {
            Real::Point(r) => r.ok(),
            Real::Sum(a, b) => (*a).evaluable() && (*b).evaluable(),
            Real::Diff(a, b) => (*a).evaluable() && (*b).evaluable(),
            Real::Prod(a, b) => (*a).evaluable() && (*b).evaluable(),
            Real::Quot(a, b) => (*a).evaluable() && (*b).evaluable() && (*b).denote().n != 0,
        }
    }
}

/// The value of an evaluable tree is a well-formed fraction.
pub proof fn lemma_denote_ok(t: Real)
    requires
        t.evaluable(),
    ensures
        frac_ok(t.denote()),
    decreases t,
{
    match t {
        Real::Point(r) => {
        }
        Real::Sum(a, b) => {
            lemma_denote_ok(*a);
            lemma_denote_ok(*b);
            lemma_pos_mul((*a).denote().d, (*b).denote().d);
        }
        Real::Diff(a, b) => {
            lemma_denote_ok(*a);
            lemma_denote_ok(*b);
            lemma_pos_mul((*a).denote().d, (*b).denote().d);
        }
        Real::Prod(a, b) => {
            lemma_denote_ok(*a);
            lemma_denote_ok(*b);
            lemma_pos_mul((*a).denote().d, (*b).denote().d);
        }
        Real::Quot(a, b) => {
            lemma_denote_ok(*a);
            lemma_denote_ok(*b);
            lemma_finv_ok((*b).denote());
            lemma_pos_mul((*a).denote().d, finv((*b).denote()).d);
        }
    }
}

impl Real {
    /// The constant procedure: an exact value has no refinement cost, and
    /// its interval has width zero at every precision.
    pub fn from_rat(r: Rat) -> (t: Real)
        requires
            r.ok(),
        ensures
            t.evaluable(),
            t.denote() == r@,
    {
        Real::Point(r)
    }

    /// Evaluate the approximation procedure at precision `k`: the returned
    /// bounds are canonical rationals bracketing the value, and the width of
    /// the interval is at most `1/k`. Asking for precision zero is a caller
    /// defect, excluded ahead of time.
    #[verifier::loop_isolation(false)]
    pub fn interval(&self, k: usize) -> (iv: Interval)
        requires
            1 <= k,
            self.evaluable(),
        ensures
            iv.ok(),
            feq(iv.lo@, self.denote()),
            feq(iv.hi@, self.denote()),
            fle(fsub(iv.hi@, iv.lo@), frac(1, k as int)),
            self is Point ==> iv.lo == iv.hi,
        decreases *self,
    {
        match self {
            Real::Point(r) => {
                let iv = Interval::point(r.clone());
                proof {
                    lemma_exact_width(iv.lo@, iv.hi@, self.denote(), k as int);
                }
                iv
            }
            Real::Sum(a, b) => {
                // With each operand at precision 2k, each contributes at
                // most 1/(2k) of width, so the sum meets 1/k directly.
                let kk = if k <= usize::MAX / 2 {
                    k * 2
                } else {
                    k
                };
                let ia = a.interval(kk);
                let ib = b.interval(kk);
                let lo = ia.lo.add(&ib.lo);
                let hi = ia.hi.add(&ib.hi);
                proof {
                    lemma_denote_ok(**a);
                    lemma_denote_ok(**b);
                    lemma_pos_mul((**a).denote().d, (**b).denote().d);
                    lemma_fadd_congr(ia.lo@, ib.lo@, (**a).denote(), (**b).denote());
                    lemma_fadd_congr(ia.hi@, ib.hi@, (**a).denote(), (**b).denote());
                    lemma_feq_trans(
                        lo@,
                        fadd(ia.lo@, ib.lo@),
                        fadd((**a).denote(), (**b).denote()),
                    );
                    lemma_feq_trans(
                        hi@,
                        fadd(ia.hi@, ib.hi@),
                        fadd((**a).denote(), (**b).denote()),
                    );
                    lemma_pos_mul((**a).denote().d, (**b).denote().d);
                    lemma_exact_width(lo@, hi@, fadd((**a).denote(), (**b).denote()), k as int);
                }
                Interval::new(lo, hi)
            }
            Real::Diff(a, b) => {
                // A difference pairs opposite endpoints: subtracting a range
                // can only widen, never narrow.
                let kk = if k <= usize::MAX / 2 {
                    k * 2
                } else {
                    k
                };
                let ia = a.interval(kk);
                let ib = b.interval(kk);
                let lo = ia.lo.sub(&ib.hi);
                let hi = ia.hi.sub(&ib.lo);
                proof {
                    lemma_denote_ok(**a);
                    lemma_denote_ok(**b);
                    lemma_pos_mul((**a).denote().d, (**b).denote().d);
                    lemma_fsub_congr(ia.lo@, ib.hi@, (**a).denote(), (**b).denote());
                    lemma_fsub_congr(ia.hi@, ib.lo@, (**a).denote(), (**b).denote());
                    lemma_feq_trans(
                        lo@,
                        fsub(ia.lo@, ib.hi@),
                        fsub((**a).denote(), (**b).denote()),
                    );
                    lemma_feq_trans(
                        hi@,
                        fsub(ia.hi@, ib.lo@),
                        fsub((**a).denote(), (**b).denote()),
                    );
                    lemma_pos_mul((**a).denote().d, (**b).denote().d);
                    lemma_exact_width(lo@, hi@, fsub((**a).denote(), (**b).denote()), k as int);
                }
                Interval::new(lo, hi)
            }
            Real::Prod(a, b) => {
                // No fixed split bounds a product's width ahead of time, so
                // refine both operands until the product interval is narrow
                // enough. Here every operand interval is already exact, so
                // the first pass always succeeds and the loop provably
                // exits.
                let target = unit_frac(k);
                let mut p = k;
                loop
                    invariant
                        1 <= p,
                    decreases 0int,
                {
                    let ia = a.interval(p);
                    let ib = b.interval(p);
                    let prod = interval_mul(&ia, &ib);
                    let w = prod.width();
                    let c = w.cmp_rat(&target);
                    proof {
                        lemma_denote_ok(**a);
                        lemma_denote_ok(**b);
                        lemma_pos_mul((**a).denote().d, (**b).denote().d);
                        lemma_fmul_congr(ia.lo@, ib.lo@, (**a).denote(), (**b).denote());
                        lemma_fmul_congr(ia.lo@, ib.hi@, (**a).denote(), (**b).denote());
                        lemma_fmul_congr(ia.hi@, ib.lo@, (**a).denote(), (**b).denote());
                        lemma_fmul_congr(ia.hi@, ib.hi@, (**a).denote(), (**b).denote());
                        let dm = fmul((**a).denote(), (**b).denote());
                        if feq(prod.lo@, fmul(ia.lo@, ib.lo@)) {
                            lemma_feq_trans(prod.lo@, fmul(ia.lo@, ib.lo@), dm);
                        } else if feq(prod.lo@, fmul(ia.lo@, ib.hi@)) {
                            lemma_feq_trans(prod.lo@, fmul(ia.lo@, ib.hi@), dm);
                        } else if feq(prod.lo@, fmul(ia.hi@, ib.lo@)) {
                            lemma_feq_trans(prod.lo@, fmul(ia.hi@, ib.lo@), dm);
                        } else {
                            lemma_feq_trans(prod.lo@, fmul(ia.hi@, ib.hi@), dm);
                        }
                        if feq(prod.hi@, fmul(ia.lo@, ib.lo@)) {
                            lemma_feq_trans(prod.hi@, fmul(ia.lo@, ib.lo@), dm);
                        } else if feq(prod.hi@, fmul(ia.lo@, ib.hi@)) {
                            lemma_feq_trans(prod.hi@, fmul(ia.lo@, ib.hi@), dm);
                        } else if feq(prod.hi@, fmul(ia.hi@, ib.lo@)) {
                            lemma_feq_trans(prod.hi@, fmul(ia.hi@, ib.lo@), dm);
                        } else {
                            lemma_feq_trans(prod.hi@, fmul(ia.hi@, ib.hi@), dm);
                        }
                    }
                    if !matches!(c, Ordering::Greater) {
                        proof {
                            lemma_exact_width(
                                prod.lo@,
                                prod.hi@,
                                fmul((**a).denote(), (**b).denote()),
                                k as int,
                            );
                        }
                        return prod;
                    }
                    proof {
                        lemma_feq_trans(
                            prod.lo@,
                            fmul((**a).denote(), (**b).denote()),
                            prod.hi@,
                        );
                        lemma_exact_width_le(prod.lo@, prod.hi@, w@, target@);
                        assert(false);
                    }
                    p = if p <= usize::MAX / 2 {
                        p * 2
                    } else {
                        p
                    };
                }
            }
            Real::Quot(a, b) => {
                // First refine the divisor until its interval clears zero;
                // a divisor whose value is exactly zero never clears, which
                // is why evaluation demands a nonzero divisor. Then invert
                // and multiply under the same narrowing check as a product.
                let target = unit_frac(k);
                let mut p = k;
                loop
                    invariant
                        1 <= p,
                    decreases 0int,
                {
                    let ia = a.interval(p);
                    let ib = b.interval(p);
                    if ib.contains_zero() {
                        proof {
                            lemma_denote_ok(**b);
                            lemma_point_not_zero(ib.lo@, ib.hi@, (**b).denote());
                            assert(false);
                        }
                        p = if p <= usize::MAX / 2 {
                            p * 2
                        } else {
                            p
                        };
                    } else {
                        proof {
                            lemma_denote_ok(**a);
                            lemma_denote_ok(**b);
                            lemma_feq_trans(ib.lo@, (**b).denote(), ib.hi@);
                        }
                        let inv = interval_inv(&ib);
                        let q = interval_mul(&ia, &inv);
                        let w = q.width();
                        let c = w.cmp_rat(&target);
                        proof {
                            let db = (**b).denote();
                            let dinv = finv(db);
                            lemma_finv_ok(db);
                            lemma_finv_congr(ib.lo@, db);
                            lemma_finv_congr(ib.hi@, db);
                            lemma_feq_trans(inv.lo@, finv(ib.lo@), dinv);
                            lemma_feq_trans(inv.hi@, finv(ib.hi@), dinv);
                            lemma_pos_mul((**a).denote().d, dinv.d);
                            lemma_fmul_congr(ia.lo@, inv.lo@, (**a).denote(), dinv);
                            lemma_fmul_congr(ia.lo@, inv.hi@, (**a).denote(), dinv);
                            lemma_fmul_congr(ia.hi@, inv.lo@, (**a).denote(), dinv);
                            lemma_fmul_congr(ia.hi@, inv.hi@, (**a).denote(), dinv);
                            let dm = fmul((**a).denote(), dinv);
                            if feq(q.lo@, fmul(ia.lo@, inv.lo@)) {
                                lemma_feq_trans(q.lo@, fmul(ia.lo@, inv.lo@), dm);
                            } else if feq(q.lo@, fmul(ia.lo@, inv.hi@)) {
                                lemma_feq_trans(q.lo@, fmul(ia.lo@, inv.hi@), dm);
                            } else if feq(q.lo@, fmul(ia.hi@, inv.lo@)) {
                                lemma_feq_trans(q.lo@, fmul(ia.hi@, inv.lo@), dm);
                            } else {
                                lemma_feq_trans(q.lo@, fmul(ia.hi@, inv.hi@), dm);
                            }
                            if feq(q.hi@, fmul(ia.lo@, inv.lo@)) {
                                lemma_feq_trans(q.hi@, fmul(ia.lo@, inv.lo@), dm);
                            } else if feq(q.hi@, fmul(ia.lo@, inv.hi@)) {
                                lemma_feq_trans(q.hi@, fmul(ia.lo@, inv.hi@), dm);
                            } else if feq(q.hi@, fmul(ia.hi@, inv.lo@)) {
                                lemma_feq_trans(q.hi@, fmul(ia.hi@, inv.lo@), dm);
                            } else {
                                lemma_feq_trans(q.hi@, fmul(ia.hi@, inv.hi@), dm);
                            }
                        }
                        if !matches!(c, Ordering::Greater) {
                            proof {
                                lemma_exact_width(
                                    q.lo@,
                                    q.hi@,
                                    fmul((**a).denote(), finv((**b).denote())),
                                    k as int,
                                );
                            }
                            return q;
                        }
                        proof {
                            lemma_feq_trans(
                                q.lo@,
                                fmul((**a).denote(), finv((**b).denote())),
                                q.hi@,
                            );
                            lemma_exact_width_le(q.lo@, q.hi@, w@, target@);
                            assert(false);
                        }
                        p = if p <= usize::MAX / 2 {
                            p * 2
                        } else {
                            p
                        };
                    }
                }
            }
        }
    }

    /// The demonstration text of a real: evaluate at precision 16 and print
    /// the single bound when the interval has collapsed, else both bounds
    /// bracketed. The text always shows a canonical rational equal in value
    /// to the real.
    pub fn render(&self) -> (s: String)
        requires
            self.evaluable(),
        ensures
            (exists|q: Rat| q.ok() && feq(q@, self.denote()) && s@ == crate::rationals::rat_str(q)),
    {
        let i = self.interval(16);
        if matches!(i.lo.cmp_rat(&i.hi), Ordering::Equal) {
            let s = i.lo.render();
            proof {
                assert(i.lo.ok() && feq(i.lo@, self.denote()) && s@ == crate::rationals::rat_str(
                    i.lo,
                ));
            }
            s
        } else {
            proof {
                lemma_denote_ok(*self);
                lemma_feq_trans(i.lo@, self.denote(), i.hi@);
                assert(false);
            }
            let lo_text = i.lo.render();
            let hi_text = i.hi.render();
            let s = String::new().concat("[").concat(lo_text.as_str()).concat(", ").concat(
                hi_text.as_str(),
            ).concat("]");
            s
        }
    }

    /// The sum of two reals, as a combined approximation procedure.
    pub fn add(&self, other: &Real) -> (r: Real)
        ensures
            r.denote() == fadd(self.denote(), other.denote()),
            self.evaluable() && other.evaluable() ==> r.evaluable(),
    {
        Real::Sum(Box::new(self.clone()), Box::new(other.clone()))
    }

    /// The difference of two reals.
    pub fn sub(&self, other: &Real) -> (r: Real)
        ensures
            r.denote() == fsub(self.denote(), other.denote()),
            self.evaluable() && other.evaluable() ==> r.evaluable(),
    {
        Real::Diff(Box::new(self.clone()), Box::new(other.clone()))
    }

    /// The product of two reals.
    pub fn mul(&self, other: &Real) -> (r: Real)
        ensures
            r.denote() == fmul(self.denote(), other.denote()),
            self.evaluable() && other.evaluable() ==> r.evaluable(),
    {
        Real::Prod(Box::new(self.clone()), Box::new(other.clone()))
    }

    /// The quotient of two reals. Construction always succeeds; the
    /// divisor-nonzero demand falls on evaluation, since a zero divisor
    /// cannot be detected from approximations alone.
    pub fn div(&self, other: &Real) -> (r: Option<Real>)
        ensures
            r is Some,
            (r matches Some(t) ==> t.denote() == fdiv(self.denote(), other.denote()) && (
            self.evaluable() && other.evaluable() && other.denote().n != 0 ==> t.evaluable())),
    {
        Some(Real::Quot(Box::new(self.clone()), Box::new(other.clone())))
    }
}

} // verus!
