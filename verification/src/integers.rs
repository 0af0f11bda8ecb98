//! Exact integers built from two naturals, kept in a canonical sign form:
//! zero, or a strictly positive magnitude with a sign.

use crate::naturals::Nat;
use crate::naturals::dec_str;
use crate::naturals::nat_val;
use core::cmp::Ordering;
use vstd::prelude::*;
use vstd::string::StringExecFns;

verus! {

/// An integer in canonical form: the magnitude under `Pos` or `Neg` is never
/// zero, so each value has exactly one representation.
pub enum Int {
    Neg(Nat),
    Zero,
    Pos(Nat),
}

/// The mathematical value of an integer.
pub open spec fn int_val(i: Int) -> int {
    match i {
        Int::Neg(n) => -(nat_val(n) as int),
        Int::Zero => 0,
        Int::Pos(n) => nat_val(n) as int,
    }
}

/// The magnitude of an integer, as a natural.
pub open spec fn int_mag(i: Int) -> nat {
    match i {
        Int::Neg(n) => nat_val(n),
        Int::Zero => 0,
        Int::Pos(n) => nat_val(n),
    }
}

impl View for Int {
    type V = int;

    open spec fn view(&self) -> int {
        int_val(*self)
    }
}

impl Clone for Int {
    fn clone(&self) -> (r: Int)
        ensures
            r == *self,
    {
        match self {
            Int::Neg(n) => Int::Neg(n.clone()),
            Int::Zero => Int::Zero,
            Int::Pos(n) => Int::Pos(n.clone()),
        }
    }
}

impl Int {
    /// Canonical form: a signed variant never carries a zero magnitude.
    pub open spec fn ok(self) -> bool {
        match self {
            Int::Neg(n) => nat_val(n) > 0,
            Int::Zero => true,
            Int::Pos(n) => nat_val(n) > 0,
        }
    }

    pub fn zero() -> (r: Int)
        ensures
            r.ok(),
            r@ == 0,
            r == Int::Zero,
    {
        Int::Zero
    }

    pub fn from_nat(n: Nat) -> (r: Int)
        ensures
            r.ok(),
            r@ == n@,
    {
        if n.is_zero() {
            Int::Zero
        } else {
            Int::Pos(n)
        }
    }

    pub fn neg(&self) -> (r: Int)
        requires
            self.ok(),
        ensures
            r.ok(),
            r@ == -self@,
    {
        match self {
            Int::Zero => Int::Zero,
            Int::Pos(n) => Int::Neg(n.clone()),
            Int::Neg(n) => Int::Pos(n.clone()),
        }
    }

    pub fn abs_nat(&self) -> (r: Nat)
        ensures
            r@ == int_mag(*self),
    {
        match self {
            Int::Zero => Nat::Zero,
            Int::Pos(n) => n.clone(),
            Int::Neg(n) => n.clone(),
        }
    }

    pub fn is_zero(&self) -> (r: bool)
        requires
            self.ok(),
        ensures
            r <==> self@ == 0,
    {
        matches!(self, Int::Zero)
    }

    pub fn is_negative(&self) -> (r: bool)
        requires
            self.ok(),
        ensures
            r <==> self@ < 0,
    {
        matches!(self, Int::Neg(_))
    }

    /// The canonicalizing constructor: the integer `pos - neg`, normalized by
    /// comparing the two parts and subtracting the smaller from the larger.
    /// The result is negative exactly when `neg` exceeds `pos`, zero exactly
    /// when they are equal, and positive exactly when `pos` exceeds `neg`.
    pub fn from_diff(pos: Nat, neg: Nat) -> (r: Int)
        ensures
            r.ok(),
            r@ == pos@ - neg@,
            (r is Neg <==> neg@ > pos@),
            (r is Zero <==> pos@ == neg@),
            (r is Pos <==> pos@ > neg@),
    {
        match pos.cmp_nat(&neg) {
            Ordering::Equal => Int::Zero,
            Ordering::Greater => {
                let d = pos.sub_unchecked_gte(&neg);
                if d.is_zero() {
                    Int::Zero
                } else {
                    Int::Pos(d)
                }
            }
            Ordering::Less => {
                let d = neg.sub_unchecked_gte(&pos);
                if d.is_zero() {
                    Int::Zero
                } else {
                    Int::Neg(d)
                }
            }
        }
    }

    /// An integer as the difference of two naturals, `pos - neg`.
    fn as_diff(&self) -> (r: (Nat, Nat))
        ensures
            r.0@ - r.1@ == self@,
            r.0@ == 0 || r.1@ == 0,
    {
        match self {
            Int::Zero => (Nat::Zero, Nat::Zero),
            Int::Pos(n) => (n.clone(), Nat::Zero),
            Int::Neg(n) => (Nat::Zero, n.clone()),
        }
    }

    pub fn add(&self, other: &Int) -> (r: Int)
        ensures
            r.ok(),
            r@ == self@ + other@,
    {
        let (a_pos, a_neg) = self.as_diff();
        let (b_pos, b_neg) = other.as_diff();
        Int::from_diff(a_pos.add(&b_pos), a_neg.add(&b_neg))
    }

    pub fn sub(&self, other: &Int) -> (r: Int)
        requires
            other.ok(),
        ensures
            r.ok(),
            r@ == self@ - other@,
    {
        self.add(&other.neg())
    }

    pub fn mul(&self, other: &Int) -> (r: Int)
        ensures
            r.ok(),
            r@ == self@ * other@,
    {
        let (a, b) = self.as_diff();
        let (c, d) = other.as_diff();
        let ac = a.mul(&c);
        let bd = b.mul(&d);
        let ad = a.mul(&d);
        let bc = b.mul(&c);
        let r = Int::from_diff(ac.add(&bd), ad.add(&bc));
        proof {
            assert((a@ * c@ + b@ * d@) - (a@ * d@ + b@ * c@) == (a@ - b@) * (c@ - d@))
                by (nonlinear_arith);
        }
        r
    }

    /// Total order on integers; negatives with larger magnitude come first.
    pub fn cmp_int(&self, other: &Int) -> (r: Ordering)
        requires
            self.ok(),
            other.ok(),
        ensures
            (r == Ordering::Less <==> self@ < other@),
            (r == Ordering::Equal <==> self@ == other@),
            (r == Ordering::Greater <==> self@ > other@),
    {
        match (self, other) {
            (Int::Neg(a), Int::Neg(b)) => b.cmp_nat(a),
            (Int::Neg(_), Int::Zero) => Ordering::Less,
            (Int::Neg(_), Int::Pos(_)) => Ordering::Less,
            (Int::Zero, Int::Neg(_)) => Ordering::Greater,
            (Int::Zero, Int::Zero) => Ordering::Equal,
            (Int::Zero, Int::Pos(_)) => Ordering::Less,
            (Int::Pos(_), Int::Neg(_)) => Ordering::Greater,
            (Int::Pos(_), Int::Zero) => Ordering::Greater,
            (Int::Pos(a), Int::Pos(b)) => a.cmp_nat(b),
        }
    }
}

/// The decimal text of an integer: a minus sign on the magnitude when
/// negative.
pub open spec fn int_str(i: int) -> Seq<char> {
    if i < 0 {
        seq!['-'] + dec_str((-i) as nat)
    } else {
        dec_str(i as nat)
    }
}

impl Int {
    /// The canonical decimal text of this integer.
    pub fn render(&self) -> (s: String)
        requires
            self.ok(),
        ensures
            s@ == int_str(self@),
    {
        match self {
            Int::Zero => Nat::Zero.render(),
            Int::Pos(n) => n.render(),
            Int::Neg(n) => {
                let mag = n.render();
                let s = String::new().concat("-").concat(mag.as_str());
                proof {
                    reveal_strlit("-");
                    assert(s@ =~= int_str(self@));
                }
                s
            }
        }
    }
}

} // verus!
