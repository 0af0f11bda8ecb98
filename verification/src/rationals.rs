//! Exact rationals: a signed integer numerator over a positive natural
//! denominator, always kept in lowest terms. Every constructor path ends in
//! the normalizing step, so a well-formed rational is canonical.

use crate::frac::Frac;
use crate::frac::fadd;
use crate::frac::fdiv;
use crate::frac::feq;
use crate::frac::flt;
use crate::frac::fmul;
use crate::frac::fneg;
use crate::frac::fone;
use crate::frac::frac;
use crate::frac::fsub;
use crate::frac::fzero;
use crate::integers::Int;
use crate::integers::int_mag;
use crate::integers::int_str;
use crate::integers::int_val;
use crate::naturals::Nat;
use crate::naturals::dec_str;
use crate::naturals::gcd_nat;
use crate::naturals::lemma_gcd_divides;
use crate::naturals::lemma_gcd_pos;
use crate::naturals::lemma_gcd_quotients;
use crate::naturals::lemma_nat_val_injective;
use crate::naturals::nat_val;
use core::cmp::Ordering;
use vstd::prelude::*;
use vstd::string::StringExecFns;

verus! {

/// A rational in lowest terms: numerator and denominator share no factor,
/// the denominator is positive, and zero is always written `0/1`.
pub struct Rat {
    pub num: Int,
    pub den: Nat,
}

/// The canonical text of a rational: the numerator alone when the
/// denominator is one, else `num/den`.
pub open spec fn rat_str(r: Rat) -> Seq<char> {
    if nat_val(r.den) == 1 {
        int_str(int_val(r.num))
    } else {
        int_str(int_val(r.num)) + seq!['/'] + dec_str(nat_val(r.den))
    }
}

/// The pair `(num, den)` is in canonical lowest-terms form.
pub open spec fn reduced(num: Int, den: Nat) -> bool {
    &&& num.ok()
    &&& nat_val(den) > 0
    &&& gcd_nat(int_mag(num), nat_val(den)) == 1
    &&& (int_val(num) == 0 ==> nat_val(den) == 1)
}

impl View for Rat {
    type V = Frac;

    open spec fn view(&self) -> Frac {
        Frac { n: int_val(self.num), d: nat_val(self.den) as int }
    }
}

impl Clone for Rat {
    fn clone(&self) -> (r: Rat)
        ensures
            r == *self,
    {
        Rat { num: self.num.clone(), den: self.den.clone() }
    }
}

/// `gcd(m, 1) == 1` for every natural `m`.
proof fn lemma_gcd_one(m: nat)
    ensures
        gcd_nat(m, 1) == 1,
{
    assert(m % 1 == 0);
    assert(gcd_nat(1, 0) == 1);
}

impl Rat {
    /// Canonical form of the whole rational.
    pub open spec fn ok(self) -> bool {
        reduced(self.num, self.den)
    }

    /// Construction fails exactly on a zero denominator; otherwise the
    /// result is the value `num / den` in lowest terms. Normalization is
    /// idempotent: a pair already in canonical form is returned unchanged.
    pub fn new(num: Int, den: Nat) -> (r: Option<Rat>)
        requires
            num.ok(),
        ensures
            (r is Some <==> den@ > 0),
            (r matches Some(q) ==> q.ok() && feq(q@, frac(num@, den@ as int))),
            (reduced(num, den) ==> r == Some((Rat { num, den }))),
    {
        if den.is_zero() {
            return None;
        }
        Some(Rat { num, den }.normalized())
    }

    pub fn zero() -> (r: Rat)
        ensures
            r.ok(),
            r@ == fzero(),
    {
        proof {
            assert(gcd_nat(0, 1) == gcd_nat(1, 0));
            assert(gcd_nat(1, 0) == 1);
        }
        Rat { num: Int::Zero, den: Nat::one() }
    }

    pub fn one() -> (r: Rat)
        ensures
            r.ok(),
            r@ == fone(),
    {
        proof {
            lemma_gcd_one(1);
        }
        Rat { num: Int::from_nat(Nat::one()), den: Nat::one() }
    }

    pub fn is_zero(&self) -> (r: bool)
        requires
            self.ok(),
        ensures
            r <==> self@.n == 0,
    {
        self.num.is_zero()
    }

    pub fn is_negative(&self) -> (r: bool)
        requires
            self.ok(),
        ensures
            r <==> self@.n < 0,
    {
        self.num.is_negative()
    }

    pub fn from_int(i: Int) -> (r: Rat)
        requires
            i.ok(),
        ensures
            r.ok(),
            r@ == frac(i@, 1),
    {
        proof {
            lemma_gcd_one(int_mag(i));
        }
        match Rat::new(i, Nat::one()) {
            Some(r) => r,
            None => {
                proof {
                    assert(false);
                }
                Rat { num: Int::Zero, den: Nat::one() }
            }
        }
    }

    pub fn abs(&self) -> (r: Rat)
        requires
            self.ok(),
        ensures
            r.ok(),
            r@.d == self@.d,
            r@.n == (if self@.n < 0 {
                -self@.n
            } else {
                self@.n
            }),
    {
        if self.is_negative() {
            self.neg()
        } else {
            self.clone()
        }
    }

    /// Divide numerator magnitude and denominator by their gcd, keeping the
    /// sign; the value is unchanged and the result is canonical. A pair that
    /// is already canonical comes back exactly as it was.
    fn normalized(self) -> (r: Rat)
        requires
            self.num.ok(),
            self.den@ > 0,
        ensures
            r.ok(),
            feq(r@, self@),
            reduced(self.num, self.den) ==> r == self,
    {
        if self.num.is_zero() {
            let r = Rat { num: Int::Zero, den: Nat::one() };
            proof {
                assert(gcd_nat(0, 1) == gcd_nat(1, 0));
                assert(feq(r@, self@)) by (nonlinear_arith)
                    requires
                        r@.n == 0,
                        self@.n == 0,
                ;
                if reduced(self.num, self.den) {
                    lemma_nat_val_injective(r.den, self.den);
                }
            }
            return r;
        }
        let g = self.num.abs_nat().gcd(&self.den);
        proof {
            lemma_gcd_pos(int_mag(self.num), self.den@);
        }
        if g.is_zero() {
            return self;
        }
        if matches!(g.cmp_nat(&Nat::one()), Ordering::Equal) {
            return self;
        }
        let den2 = match self.den.div_exact(&g) {
            Some(d) => d,
            None => {
                proof {
                    lemma_gcd_divides(int_mag(self.num), self.den@);
                    assert(false);
                }
                Nat::one()
            }
        };
        let abs2 = match self.num.abs_nat().div_exact(&g) {
            Some(a) => a,
            None => {
                proof {
                    lemma_gcd_divides(int_mag(self.num), self.den@);
                    assert(false);
                }
                Nat::one()
            }
        };
        let num2 = if self.num.is_negative() {
            Int::Neg(abs2)
        } else {
            Int::from_nat(abs2)
        };
        let r = Rat { num: num2, den: den2 };
        proof {
            let m = int_mag(self.num);
            let d = self.den@;
            lemma_gcd_quotients(m, d);
            let g2 = gcd_nat(m, d);
            assert(abs2@ > 0) by (nonlinear_arith)
                requires
                    (m / g2) * g2 == m,
                    m > 0,
                    abs2@ == m / g2,
            ;
            assert(den2@ > 0) by (nonlinear_arith)
                requires
                    (d / g2) * g2 == d,
                    d > 0,
                    den2@ == d / g2,
            ;
            if int_val(self.num) < 0 {
                assert(feq(r@, self@)) by (nonlinear_arith)
                    requires
                        r@.n == -(m / g2) as int,
                        r@.d == (d / g2) as int,
                        self@.n == -(m as int),
                        self@.d == d as int,
                        (m / g2) * g2 == m,
                        (d / g2) * g2 == d,
                ;
            } else {
                assert(feq(r@, self@)) by (nonlinear_arith)
                    requires
                        r@.n == (m / g2) as int,
                        r@.d == (d / g2) as int,
                        self@.n == m as int,
                        self@.d == d as int,
                        (m / g2) * g2 == m,
                        (d / g2) * g2 == d,
                ;
            }
        }
        r
    }

    pub fn neg(&self) -> (r: Rat)
        requires
            self.ok(),
        ensures
            r.ok(),
            r@ == fneg(self@),
    {
        Rat { num: self.num.neg(), den: self.den.clone() }
    }

    /// The exact sum, by cross multiplication over a common denominator.
    pub fn add(&self, other: &Rat) -> (r: Rat)
        requires
            self.ok(),
            other.ok(),
        ensures
            r.ok(),
            feq(r@, fadd(self@, other@)),
    {
        let ad = self.num.mul(&Int::from_nat(other.den.clone()));
        let cb = other.num.mul(&Int::from_nat(self.den.clone()));
        let num = ad.add(&cb);
        let den = self.den.mul(&other.den);
        proof {
            assert(den@ > 0) by (nonlinear_arith)
                requires
                    den@ == self.den@ * other.den@,
                    self.den@ > 0,
                    other.den@ > 0,
            ;
        }
        match Rat::new(num, den) {
            Some(r) => r,
            None => {
                proof {
                    assert(false);
                }
                Rat { num: Int::Zero, den: Nat::one() }
            }
        }
    }

    pub fn sub(&self, other: &Rat) -> (r: Rat)
        requires
            self.ok(),
            other.ok(),
        ensures
            r.ok(),
            feq(r@, fsub(self@, other@)),
    {
        self.add(&other.neg())
    }

    /// The exact product.
    pub fn mul(&self, other: &Rat) -> (r: Rat)
        requires
            self.ok(),
            other.ok(),
        ensures
            r.ok(),
            feq(r@, fmul(self@, other@)),
    {
        let num = self.num.mul(&other.num);
        let den = self.den.mul(&other.den);
        proof {
            assert(den@ > 0) by (nonlinear_arith)
                requires
                    den@ == self.den@ * other.den@,
                    self.den@ > 0,
                    other.den@ > 0,
            ;
        }
        match Rat::new(num, den) {
            Some(r) => r,
            None => {
                proof {
                    assert(false);
                }
                Rat { num: Int::Zero, den: Nat::one() }
            }
        }
    }

    /// The exact quotient; fails exactly on a zero divisor.
    pub fn div(&self, other: &Rat) -> (r: Option<Rat>)
        requires
            self.ok(),
            other.ok(),
        ensures
            (r is Some <==> other@.n != 0),
            (r matches Some(q) ==> q.ok() && feq(q@, fdiv(self@, other@))),
    {
        if other.num.is_zero() {
            return None;
        }
        let abs_c = other.num.abs_nat();
        if abs_c.is_zero() {
            return None;
        }
        let mut num = self.num.mul(&Int::from_nat(other.den.clone()));
        if other.num.is_negative() {
            num = num.neg();
        }
        let den = self.den.mul(&abs_c);
        proof {
            assert(den@ > 0) by (nonlinear_arith)
                requires
                    den@ == self.den@ * int_mag(other.num),
                    self.den@ > 0,
                    int_mag(other.num) > 0,
            ;
            assert(self@.n * -(other@.d) == -(self@.n * other@.d)) by (nonlinear_arith);
        }
        match Rat::new(num, den) {
            Some(q) => Some(q),
            None => {
                proof {
                    assert(false);
                }
                None
            }
        }
    }

    /// The canonical decimal-free text of this rational: a whole value
    /// prints bare, anything else as `num/den`.
    pub fn render(&self) -> (s: String)
        requires
            self.ok(),
        ensures
            s@ == rat_str(*self),
    {
        if matches!(self.den.cmp_nat(&Nat::one()), Ordering::Equal) {
            self.num.render()
        } else {
            let num_text = self.num.render();
            let den_text = self.den.render();
            let s = num_text.concat("/").concat(den_text.as_str());
            proof {
                reveal_strlit("/");
                assert(s@ =~= rat_str(*self));
            }
            s
        }
    }

    /// Total order on rationals, by comparing `a.num * b.den` with
    /// `b.num * a.den`; sound because denominators are positive.
    pub fn cmp_rat(&self, other: &Rat) -> (r: Ordering)
        requires
            self.ok(),
            other.ok(),
        ensures
            (r == Ordering::Less <==> flt(self@, other@)),
            (r == Ordering::Equal <==> feq(self@, other@)),
            (r == Ordering::Greater <==> flt(other@, self@)),
    {
        let ad = self.num.mul(&Int::from_nat(other.den.clone()));
        let cb = other.num.mul(&Int::from_nat(self.den.clone()));
        ad.cmp_int(&cb)
    }
}

} // verus!
