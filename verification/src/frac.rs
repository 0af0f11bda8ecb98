//! The mathematical model of this crate's exact values: a fraction of
//! unbounded integers with a positive denominator. Equality and order are
//! stated by cross multiplication, so contracts never depend on a particular
//! reduced form. Everything here is specification and proof.

use vstd::prelude::*;

verus! {

/// A mathematical fraction `n / d`. Meaningful when `d > 0`.
pub struct Frac {
    pub n: int,
    pub d: int,
}

pub open spec fn frac(n: int, d: int) -> Frac {
    Frac { n, d }
}

/// Well-formedness: the denominator is positive.
pub open spec fn frac_ok(a: Frac) -> bool {
    a.d > 0
}

/// Value equality by cross multiplication.
pub open spec fn feq(a: Frac, b: Frac) -> bool {
    a.n * b.d == b.n * a.d
}

/// Value order by cross multiplication; sound because denominators are
/// positive.
pub open spec fn fle(a: Frac, b: Frac) -> bool {
    a.n * b.d <= b.n * a.d
}

pub open spec fn flt(a: Frac, b: Frac) -> bool {
    a.n * b.d < b.n * a.d
}

pub open spec fn fzero() -> Frac {
    frac(0, 1)
}

pub open spec fn fone() -> Frac {
    frac(1, 1)
}

pub open spec fn fadd(a: Frac, b: Frac) -> Frac {
    frac(a.n * b.d + b.n * a.d, a.d * b.d)
}

pub open spec fn fneg(a: Frac) -> Frac {
    frac(-a.n, a.d)
}

pub open spec fn fsub(a: Frac, b: Frac) -> Frac {
    fadd(a, fneg(b))
}

pub open spec fn fmul(a: Frac, b: Frac) -> Frac {
    frac(a.n * b.n, a.d * b.d)
}

/// The reciprocal, written so that the denominator stays positive for any
/// nonzero argument.
pub open spec fn finv(a: Frac) -> Frac {
    if a.n >= 0 {
        frac(a.d, a.n)
    } else {
        frac(-a.d, -a.n)
    }
}

pub open spec fn fdiv(a: Frac, b: Frac) -> Frac {
    fmul(a, finv(b))
}

pub proof fn lemma_feq_trans(a: Frac, b: Frac, c: Frac)
    by (nonlinear_arith)
    requires
        frac_ok(a),
        frac_ok(b),
        frac_ok(c),
        feq(a, b),
        feq(b, c),
    ensures
        feq(a, c),
{
}

/// Replacing both sides of a comparison by equal-valued fractions keeps the
/// comparison.
pub proof fn lemma_fle_feq(a: Frac, b: Frac, a2: Frac, b2: Frac)
    by (nonlinear_arith)
    requires
        frac_ok(a),
        frac_ok(b),
        frac_ok(a2),
        frac_ok(b2),
        feq(a, a2),
        feq(b, b2),
        fle(a, b),
    ensures
        fle(a2, b2),
{
}

pub proof fn lemma_fle_trans(a: Frac, b: Frac, c: Frac)
    by (nonlinear_arith)
    requires
        frac_ok(a),
        frac_ok(b),
        frac_ok(c),
        fle(a, b),
        fle(b, c),
    ensures
        fle(a, c),
{
}

/// Two positive denominators multiply to a positive denominator.
pub proof fn lemma_pos_mul(x: int, y: int)
    by (nonlinear_arith)
    requires
        x > 0,
        y > 0,
    ensures
        x * y > 0,
{
}

/// Addition respects value equality.
pub proof fn lemma_fadd_congr(a: Frac, b: Frac, a2: Frac, b2: Frac)
    requires
        frac_ok(a),
        frac_ok(b),
        frac_ok(a2),
        frac_ok(b2),
        feq(a, a2),
        feq(b, b2),
    ensures
        feq(fadd(a, b), fadd(a2, b2)),
        frac_ok(fadd(a, b)),
{
    lemma_pos_mul(a.d, b.d);
    vstd::arithmetic::mul::lemma_mul_is_distributive_add_other_way(
        a2.d * b2.d,
        a.n * b.d,
        b.n * a.d,
    );
    assert((a.n * b.d) * (a2.d * b2.d) == (a.n * a2.d) * (b.d * b2.d)) by (nonlinear_arith);
    assert((b.n * a.d) * (a2.d * b2.d) == (b.n * b2.d) * (a.d * a2.d)) by (nonlinear_arith);
    vstd::arithmetic::mul::lemma_mul_is_distributive_add_other_way(
        a.d * b.d,
        a2.n * b2.d,
        b2.n * a2.d,
    );
    assert((a2.n * b2.d) * (a.d * b.d) == (a2.n * a.d) * (b.d * b2.d)) by (nonlinear_arith);
    assert((b2.n * a2.d) * (a.d * b.d) == (b2.n * b.d) * (a.d * a2.d)) by (nonlinear_arith);
}

/// Subtraction respects value equality.
pub proof fn lemma_fsub_congr(a: Frac, b: Frac, a2: Frac, b2: Frac)
    requires
        frac_ok(a),
        frac_ok(b),
        frac_ok(a2),
        frac_ok(b2),
        feq(a, a2),
        feq(b, b2),
    ensures
        feq(fsub(a, b), fsub(a2, b2)),
        frac_ok(fsub(a, b)),
{
    assert(feq(fneg(b), fneg(b2))) by (nonlinear_arith)
        requires
            feq(b, b2),
    ;
    lemma_fadd_congr(a, fneg(b), a2, fneg(b2));
}

/// Multiplication respects value equality.
pub proof fn lemma_fmul_congr(a: Frac, b: Frac, a2: Frac, b2: Frac)
    requires
        frac_ok(a),
        frac_ok(b),
        frac_ok(a2),
        frac_ok(b2),
        feq(a, a2),
        feq(b, b2),
    ensures
        feq(fmul(a, b), fmul(a2, b2)),
        frac_ok(fmul(a, b)),
{
    lemma_pos_mul(a.d, b.d);
    assert((a.n * b.n) * (a2.d * b2.d) == (a.n * a2.d) * (b.n * b2.d)) by (nonlinear_arith);
    assert((a2.n * b2.n) * (a.d * b.d) == (a2.n * a.d) * (b2.n * b.d)) by (nonlinear_arith);
}

/// Equal-valued fractions have numerators of the same sign.
pub proof fn lemma_feq_sign(a: Frac, b: Frac)
    by (nonlinear_arith)
    requires
        frac_ok(a),
        frac_ok(b),
        feq(a, b),
    ensures
        a.n > 0 <==> b.n > 0,
        a.n == 0 <==> b.n == 0,
        a.n < 0 <==> b.n < 0,
{
}

/// The reciprocal respects value equality on nonzero fractions.
pub proof fn lemma_finv_congr(a: Frac, b: Frac)
    by (nonlinear_arith)
    requires
        frac_ok(a),
        frac_ok(b),
        a.n != 0,
        feq(a, b),
    ensures
        b.n != 0,
        frac_ok(finv(a)),
        frac_ok(finv(b)),
        feq(finv(a), finv(b)),
{
}

/// The reciprocal of a nonzero fraction is well-formed.
pub proof fn lemma_finv_ok(a: Frac)
    requires
        frac_ok(a),
        a.n != 0,
    ensures
        frac_ok(finv(a)),
        finv(a).n != 0,
{
}

/// An interval whose two bounds share one value is well-ordered and has
/// width at most `1/k` for every positive `k`.
pub proof fn lemma_exact_width(lo: Frac, hi: Frac, v: Frac, k: int)
    by (nonlinear_arith)
    requires
        frac_ok(lo),
        frac_ok(hi),
        frac_ok(v),
        feq(lo, v),
        feq(hi, v),
        k >= 1,
    ensures
        fle(lo, hi),
        fle(fsub(hi, lo), frac(1, k)),
{
}

/// A width computed from two bounds of one shared value is at most any
/// fraction with positive numerator.
pub proof fn lemma_exact_width_le(lo: Frac, hi: Frac, w: Frac, t: Frac)
    by (nonlinear_arith)
    requires
        frac_ok(lo),
        frac_ok(hi),
        frac_ok(w),
        frac_ok(t),
        feq(lo, hi),
        feq(w, fsub(hi, lo)),
        t.n > 0,
    ensures
        fle(w, t),
{
}

/// An interval whose bounds both equal one nonzero value cannot contain
/// zero.
pub proof fn lemma_point_not_zero(lo: Frac, hi: Frac, v: Frac)
    by (nonlinear_arith)
    requires
        frac_ok(lo),
        frac_ok(hi),
        frac_ok(v),
        feq(lo, v),
        feq(hi, v),
        v.n != 0,
    ensures
        !(fle(lo, fzero()) && fle(fzero(), hi)),
{
}

} // verus!
