//! Exact natural numbers in Peano form: a value is zero or the successor of
//! a smaller value. All arithmetic is defined by structural recursion, so
//! results are exact at any magnitude.

use core::cmp::Ordering;
use vstd::arithmetic::div_mod::lemma_add_mod_noop;
use vstd::arithmetic::div_mod::lemma_div_is_strictly_smaller;
use vstd::arithmetic::div_mod::lemma_fundamental_div_mod;
use vstd::arithmetic::div_mod::lemma_fundamental_div_mod_converse;
use vstd::arithmetic::div_mod::lemma_mod_self_0;
use vstd::arithmetic::div_mod::lemma_mul_mod_noop_right;
use vstd::arithmetic::div_mod::lemma_small_mod;
use vstd::prelude::*;
use vstd::string::StringExecFns;

verus! {

/// A natural number: zero, or the successor of another natural.
pub enum Nat {
    Zero,
    Succ(Box<Nat>),
}

/// The mathematical value of a Peano natural.
pub open spec fn nat_val(n: Nat) -> nat
    decreases n,
{
    match n {
        Nat::Zero => 0,
        Nat::Succ(m) => nat_val(*m) + 1,
    }
}

impl View for Nat {
    type V = nat;

    open spec fn view(&self) -> nat {
        nat_val(*self)
    }
}

/// Two Peano naturals with the same value are the same term: the
/// representation is canonical.
pub proof fn lemma_nat_val_injective(a: Nat, b: Nat)
    requires
        nat_val(a) == nat_val(b),
    ensures
        a == b,
    decreases a,
{
    match a {
        Nat::Zero => {
            assert(b is Zero);
        }
        Nat::Succ(x) => {
            match b {
                Nat::Zero => {
                    assert(false);
                }
                Nat::Succ(y) => {
                    lemma_nat_val_injective(*x, *y);
                }
            }
        }
    }
}

impl Clone for Nat {
    fn clone(&self) -> (r: Nat)
        ensures
            r == *self,
        decreases *self,
    {
        match self {
            Nat::Zero => Nat::Zero,
            Nat::Succ(n) => Nat::Succ(Box::new((**n).clone())),
        }
    }
}

impl Nat {
    pub fn zero() -> (r: Nat)
        ensures
            r@ == 0,
            r == Nat::Zero,
    {
        Nat::Zero
    }

    pub fn one() -> (r: Nat)
        ensures
            r@ == 1,
    {
        proof {
            assert(nat_val(Nat::Zero) == 0);
        }
        Nat::Succ(Box::new(Nat::Zero))
    }

    pub fn is_zero(&self) -> (r: bool)
        ensures
            r <==> self@ == 0,
    {
        proof {
            if self@ == 0 {
                lemma_nat_val_injective(*self, Nat::Zero);
            }
        }
        matches!(self, Nat::Zero)
    }

    pub fn succ(self) -> (r: Nat)
        ensures
            r@ == self@ + 1,
    {
        Nat::Succ(Box::new(self))
    }

    pub fn pred(&self) -> (r: Option<&Nat>)
        ensures
            self@ == 0 ==> r is None,
            self@ > 0 ==> (r matches Some(p) && p@ + 1 == self@),
    {
        match self {
            Nat::Zero => None,
            Nat::Succ(n) => Some(n),
        }
    }

    pub fn from_usize(n: usize) -> (r: Nat)
        ensures
            r@ == n,
    {
        let mut out = Nat::Zero;
        let mut i: usize = n;
        while i > 0
            invariant
                out@ + i == n,
            decreases i,
        {
            out = out.succ();
            i = i - 1;
        }
        out
    }

    pub fn to_usize(&self) -> (r: usize)
        requires
            self@ <= usize::MAX,
        ensures
            r == self@,
        decreases *self,
    {
        match self {
            Nat::Zero => 0,
            Nat::Succ(n) => 1 + n.to_usize(),
        }
    }

    pub fn add(&self, other: &Nat) -> (r: Nat)
        ensures
            r@ == self@ + other@,
        decreases *self,
    {
        match self {
            Nat::Zero => other.clone(),
            Nat::Succ(n) => Nat::Succ(Box::new(n.add(other))),
        }
    }

    /// Partial subtraction: defined exactly when `other` does not exceed
    /// `self`, since there are no negative naturals.
    pub fn sub(&self, other: &Nat) -> (r: Option<Nat>)
        ensures
            (r is Some <==> self@ >= other@),
            (r matches Some(d) ==> d@ == self@ - other@),
        decreases *self,
    {
        match (self, other) {
            (Nat::Zero, Nat::Zero) => Some(Nat::Zero),
            (Nat::Zero, Nat::Succ(_)) => None,
            (Nat::Succ(n), Nat::Zero) => Some(Nat::Succ(Box::new((**n).clone()))),
            (Nat::Succ(n), Nat::Succ(m)) => n.sub(m),
        }
    }

    /// Subtraction on the assumption that `self >= other`; a caller that
    /// breaks the assumption is in breach of contract, not handled at runtime.
    pub fn sub_unchecked_gte(&self, other: &Nat) -> (r: Nat)
        requires
            self@ >= other@,
        ensures
            r@ == self@ - other@,
        decreases *self,
    {
        match (self, other) {
            (Nat::Zero, Nat::Zero) => Nat::Zero,
            (Nat::Succ(n), Nat::Zero) => Nat::Succ(Box::new((**n).clone())),
            (Nat::Succ(n), Nat::Succ(m)) => n.sub_unchecked_gte(m),
            (Nat::Zero, Nat::Succ(_)) => {
                proof {
                    assert(false);
                }
                Nat::Zero
            }
        }
    }

    pub fn mul(&self, other: &Nat) -> (r: Nat)
        ensures
            r@ == self@ * other@,
        decreases *self,
    {
        match self {
            Nat::Zero => {
                proof {
                    assert(0 * other@ == 0) by (nonlinear_arith);
                }
                Nat::Zero
            }
            Nat::Succ(n) => {
                let r = n.mul(other).add(other);
                proof {
                    assert(nat_val(**n) * other@ + other@ == (nat_val(**n) + 1) * other@)
                        by (nonlinear_arith);
                }
                r
            }
        }
    }

    /// Total order on naturals.
    pub fn cmp_nat(&self, other: &Nat) -> (r: Ordering)
        ensures
            (r == Ordering::Less <==> self@ < other@),
            (r == Ordering::Equal <==> self@ == other@),
            (r == Ordering::Greater <==> self@ > other@),
        decreases *self,
    {
        match (self, other) {
            (Nat::Zero, Nat::Zero) => Ordering::Equal,
            (Nat::Zero, Nat::Succ(_)) => Ordering::Less,
            (Nat::Succ(_), Nat::Zero) => Ordering::Greater,
            (Nat::Succ(a), Nat::Succ(b)) => a.cmp_nat(b),
        }
    }

    /// Division with remainder by repeated subtraction. Exact and simple
    /// rather than fast: speed is not this stage's concern.
    pub fn div_mod(&self, d: &Nat) -> (r: Option<(Nat, Nat)>)
        ensures
            (r is Some <==> d@ > 0),
            (r matches Some(qr) ==> qr.0@ == self@ / d@ && qr.1@ == self@ % d@),
    {
        if d.is_zero() {
            return None;
        }
        let mut q = Nat::Zero;
        let mut r = self.clone();
        proof {
            assert(q@ * d@ == 0) by (nonlinear_arith)
                requires
                    q@ == 0,
            ;
        }
        loop
            invariant
                d@ > 0,
                q@ * d@ + r@ == self@,
            ensures
                d@ > 0,
                q@ * d@ + r@ == self@,
                r@ < d@,
            decreases r@,
        {
            let c = r.cmp_nat(d);
            if matches!(c, Ordering::Less) {
                break;
            }
            proof {
                assert((q@ + 1) * d@ == q@ * d@ + d@) by (nonlinear_arith);
            }
            r = r.sub_unchecked_gte(d);
            q = q.succ();
        }
        proof {
            lemma_fundamental_div_mod_converse(self@ as int, d@ as int, q@ as int, r@ as int);
        }
        Some((q, r))
    }

    /// Euclid's algorithm, expressed through `div_mod`.
    pub fn gcd(&self, other: &Nat) -> (r: Nat)
        ensures
            r@ == gcd_nat(self@, other@),
    {
        let mut a = self.clone();
        let mut b = other.clone();
        while !b.is_zero()
            invariant
                gcd_nat(a@, b@) == gcd_nat(self@, other@),
            decreases b@,
        {
            match a.div_mod(&b) {
                Some((_, r)) => {
                    a = b;
                    b = r;
                }
                None => {
                    proof {
                        assert(false);
                    }
                }
            }
        }
        a
    }

    /// The exact quotient, defined only when `d` divides `self` evenly.
    pub fn div_exact(&self, d: &Nat) -> (r: Option<Nat>)
        ensures
            (r is Some <==> d@ > 0 && self@ % d@ == 0),
            (r matches Some(q) ==> q@ == self@ / d@),
    {
        match self.div_mod(d) {
            None => None,
            Some((q, r)) => {
                if r.is_zero() {
                    Some(q)
                } else {
                    None
                }
            }
        }
    }
}

/// Greatest common divisor, by the Euclidean recursion.
pub open spec fn gcd_nat(a: nat, b: nat) -> nat
    decreases b,
{
    if b == 0 {
        a
    } else {
        gcd_nat(b, a % b)
    }
}

/// The gcd of two naturals, when positive, divides both of them.
pub proof fn lemma_gcd_divides(a: nat, b: nat)
    ensures
        gcd_nat(a, b) > 0 ==> a % gcd_nat(a, b) == 0 && b % gcd_nat(a, b) == 0,
    decreases b,
{
    let g = gcd_nat(a, b);
    if b == 0 {
        if g > 0 {
            lemma_mod_self_0(a as int);
            lemma_small_mod(0, a);
        }
    } else {
        lemma_gcd_divides(b, a % b);
        if g > 0 {
            lemma_fundamental_div_mod(a as int, b as int);
            let q = a as int / b as int;
            assert((b * q) as int % g as int == 0) by {
                lemma_mul_mod_noop_right(q, b as int, g as int);
                assert(q * ((b as int) % (g as int)) == 0) by (nonlinear_arith)
                    requires
                        (b as int) % (g as int) == 0,
                ;
                assert(q * (b as int) == (b as int) * q) by (nonlinear_arith);
                lemma_small_mod(0, g);
            }
            lemma_add_mod_noop((b * q) as int, (a % b) as int, g as int);
            lemma_small_mod(0, g);
        }
    }
}

/// The gcd of two naturals is positive as soon as one of them is.
pub proof fn lemma_gcd_pos(a: nat, b: nat)
    requires
        a > 0 || b > 0,
    ensures
        gcd_nat(a, b) > 0,
    decreases b,
{
    if b > 0 {
        lemma_gcd_pos(b, a % b);
    }
}

/// Every common divisor of two naturals divides their gcd.
pub proof fn lemma_common_divisor_divides_gcd(a: nat, b: nat, d: nat)
    requires
        d > 0,
        a % d == 0,
        b % d == 0,
    ensures
        gcd_nat(a, b) % d == 0,
    decreases b,
{
    if b == 0 {
    } else {
        let q = a as int / b as int;
        lemma_fundamental_div_mod(a as int, b as int);
        assert((b * q) as int % d as int == 0) by {
            lemma_mul_mod_noop_right(q, b as int, d as int);
            assert(q * ((b as int) % (d as int)) == 0) by (nonlinear_arith)
                requires
                    (b as int) % (d as int) == 0,
            ;
            assert(q * (b as int) == (b as int) * q) by (nonlinear_arith);
            lemma_small_mod(0, d);
        }
        assert((a % b) as int % d as int == 0) by {
            lemma_add_mod_noop((b * q) as int, (a % b) as int, d as int);
            lemma_small_mod(0, d);
            lemma_small_mod((a % b) % d, d);
        }
        lemma_common_divisor_divides_gcd(b, a % b, d);
    }
}

/// Dividing two naturals by their gcd leaves quotients with no common factor:
/// the reduced pair is canonical.
pub proof fn lemma_gcd_quotients(a: nat, b: nat)
    requires
        b > 0,
    ensures
        ({
            let g = gcd_nat(a, b);
            g > 0 && a % g == 0 && b % g == 0 && (a / g) * g == a && (b / g) * g == b && gcd_nat(
                a / g,
                b / g,
            ) == 1
        }),
{
    let g = gcd_nat(a, b);
    lemma_gcd_pos(a, b);
    lemma_gcd_divides(a, b);
    lemma_fundamental_div_mod(a as int, g as int);
    lemma_fundamental_div_mod(b as int, g as int);
    let a1 = a / g;
    let b1 = b / g;
    assert((a1 * g) as int == g as int * a1 as int) by (nonlinear_arith);
    assert((b1 * g) as int == g as int * b1 as int) by (nonlinear_arith);
    assert(b1 > 0) by (nonlinear_arith)
        requires
            b1 * g == b,
            b > 0,
    ;
    let c = gcd_nat(a1, b1);
    lemma_gcd_pos(a1, b1);
    lemma_gcd_divides(a1, b1);
    lemma_fundamental_div_mod(a1 as int, c as int);
    lemma_fundamental_div_mod(b1 as int, c as int);
    let m = c * g;
    assert(c * g > 0) by (nonlinear_arith)
        requires
            c > 0,
            g > 0,
    ;
    assert(a % m == 0) by {
        assert(a == (a1 / c) * m) by (nonlinear_arith)
            requires
                a1 == c * (a1 / c),
                a == a1 * g,
                m == c * g,
        ;
        lemma_fundamental_div_mod_converse(a as int, m as int, (a1 / c) as int, 0);
    }
    assert(b % m == 0) by {
        assert(b == (b1 / c) * m) by (nonlinear_arith)
            requires
                b1 == c * (b1 / c),
                b == b1 * g,
                m == c * g,
        ;
        lemma_fundamental_div_mod_converse(b as int, m as int, (b1 / c) as int, 0);
    }
    lemma_common_divisor_divides_gcd(a, b, m);
    assert(g % m == 0);
    if m > g {
        lemma_small_mod(g, m);
        assert(false);
    }
    assert(c == 1) by (nonlinear_arith)
        requires
            c * g <= g,
            c > 0,
            g > 0,
    ;
}

/// The character for one decimal digit.
pub open spec fn dec_digit(d: nat) -> char {
    if d == 0 {
        '0'
    } else if d == 1 {
        '1'
    } else if d == 2 {
        '2'
    } else if d == 3 {
        '3'
    } else if d == 4 {
        '4'
    } else if d == 5 {
        '5'
    } else if d == 6 {
        '6'
    } else if d == 7 {
        '7'
    } else if d == 8 {
        '8'
    } else {
        '9'
    }
}

/// The decimal text of a natural, most significant digit first.
pub open spec fn dec_str(n: nat) -> Seq<char>
    decreases n,
    via dec_str_decreases
{
    if n < 10 {
        seq![dec_digit(n)]
    } else {
        dec_str(n / 10) + seq![dec_digit(n % 10)]
    }
}

#[via_fn]
proof fn dec_str_decreases(n: nat) {
    if n >= 10 {
        lemma_div_is_strictly_smaller(n as int, 10);
    }
}

/// The text of one decimal digit.
fn digit_str(d: usize) -> (r: &'static str)
    requires
        d < 10,
    ensures
        r@ == seq![dec_digit(d as nat)],
{
    if d == 0 {
        let s = "0";
        proof {
            reveal_strlit("0");
            assert(s@ =~= seq![dec_digit(d as nat)]);
        }
        s
    } else if d == 1 {
        let s = "1";
        proof {
            reveal_strlit("1");
            assert(s@ =~= seq![dec_digit(d as nat)]);
        }
        s
    } else if d == 2 {
        let s = "2";
        proof {
            reveal_strlit("2");
            assert(s@ =~= seq![dec_digit(d as nat)]);
        }
        s
    } else if d == 3 {
        let s = "3";
        proof {
            reveal_strlit("3");
            assert(s@ =~= seq![dec_digit(d as nat)]);
        }
        s
    } else if d == 4 {
        let s = "4";
        proof {
            reveal_strlit("4");
            assert(s@ =~= seq![dec_digit(d as nat)]);
        }
        s
    } else if d == 5 {
        let s = "5";
        proof {
            reveal_strlit("5");
            assert(s@ =~= seq![dec_digit(d as nat)]);
        }
        s
    } else if d == 6 {
        let s = "6";
        proof {
            reveal_strlit("6");
            assert(s@ =~= seq![dec_digit(d as nat)]);
        }
        s
    } else if d == 7 {
        let s = "7";
        proof {
            reveal_strlit("7");
            assert(s@ =~= seq![dec_digit(d as nat)]);
        }
        s
    } else if d == 8 {
        let s = "8";
        proof {
            reveal_strlit("8");
            assert(s@ =~= seq![dec_digit(d as nat)]);
        }
        s
    } else {
        let s = "9";
        proof {
            reveal_strlit("9");
            assert(s@ =~= seq![dec_digit(d as nat)]);
        }
        s
    }
}

impl Nat {
    /// The decimal text of this natural.
    pub fn render(&self) -> (s: String)
        ensures
            s@ == dec_str(self@),
        decreases self@,
    {
        let ten = Nat::from_usize(10);
        if matches!(self.cmp_nat(&ten), Ordering::Less) {
            let d = self.to_usize();
            String::new().concat(digit_str(d))
        } else {
            match self.div_mod(&ten) {
                Some((q, r)) => {
                    proof {
                        lemma_div_is_strictly_smaller(self@ as int, 10);
                    }
                    let pre = q.render();
                    let s = pre.concat(digit_str(r.to_usize()));
                    proof {
                        assert(s@ =~= dec_str(self@));
                    }
                    s
                }
                None => {
                    proof {
                        assert(false);
                    }
                    String::new()
                }
            }
        }
    }
}

/// One is coprime to every positive natural.
pub proof fn lemma_gcd_one_left(k: nat)
    requires
        k >= 1,
    ensures
        gcd_nat(1, k) == 1,
{
    if k == 1 {
        assert(1nat % 1 == 0);
        assert(gcd_nat(1, 0) == 1);
    } else {
        lemma_small_mod(1, k);
        assert(k % 1 == 0);
        assert(gcd_nat(1, k) == gcd_nat(k, 1));
        assert(gcd_nat(k, 1) == gcd_nat(1, 0));
        assert(gcd_nat(1, 0) == 1);
    }
}

/// Adding a natural and then subtracting the same natural is the identity:
/// the partial subtraction is always defined on a sum and recovers the other
/// summand.
pub proof fn lemma_add_sub_roundtrip(a: nat, b: nat)
    ensures
        a + b >= b,
        (a + b) - b == a,
{
}

} // verus!
