use core::cmp::Ordering;
use numtower::Complex;
use numtower::Int;
use numtower::Nat;
use numtower::Rat;
use numtower::Real;

fn nat_of(n: usize) -> Nat {
    Nat::from_usize(n)
}

fn int_of(n: usize) -> Int {
    Int::from_nat(Nat::from_usize(n))
}

fn rat(num: usize, den: usize) -> Rat {
    Rat::new(int_of(num), nat_of(den)).unwrap()
}

fn neg_rat(num: usize, den: usize) -> Rat {
    Rat::new(Int::from_diff(Nat::zero(), nat_of(num)), nat_of(den)).unwrap()
}

#[test]
fn nat_add_mul_sub_div_mod() {
    let a = Nat::from_usize(7);
    let b = Nat::from_usize(3);
    assert_eq!(a.add(&b).to_usize(), 10);
    assert_eq!(b.mul(&Nat::from_usize(4)).to_usize(), 12);
    assert_eq!(a.sub(&b).unwrap().to_usize(), 4);
    assert!(b.sub(&a).is_none());
    let (q, r) = a.div_mod(&b).unwrap();
    assert_eq!(q.to_usize(), 2);
    assert_eq!(r.to_usize(), 1);
}

#[test]
fn rat_normalizes_and_adds() {
    let two = Int::from_nat(Nat::from_usize(2));
    let four = Nat::from_usize(4);
    let half = Rat::new(two, four).unwrap();
    assert_eq!(half.render(), "1/2");

    let one = Rat::new(Int::from_nat(Nat::one()), Nat::from_usize(2)).unwrap();
    let three = Rat::new(Int::from_nat(Nat::one()), Nat::from_usize(3)).unwrap();
    let s = one.add(&three);
    assert_eq!(s.render(), "5/6");
}

#[test]
fn int_add_sub_mul() {
    let three = Int::from_nat(Nat::from_usize(3));
    let five = Int::from_nat(Nat::from_usize(5));
    let neg_two = three.sub(&five);
    assert_eq!(neg_two.render(), "-2");

    let seven = Int::from_nat(Nat::from_usize(7));
    assert_eq!(neg_two.add(&seven).render(), "5");

    let neg_three = Int::from_diff(Nat::zero(), Nat::from_usize(3));
    let four = Int::from_nat(Nat::from_usize(4));
    assert_eq!(neg_three.mul(&four).render(), "-12");
}

#[test]
fn nat_gcd_euclid() {
    assert_eq!(nat_of(42).gcd(&nat_of(30)).to_usize(), 6);
    assert_eq!(nat_of(30).gcd(&nat_of(42)).to_usize(), 6);
    assert_eq!(nat_of(7).gcd(&nat_of(0)).to_usize(), 7);
    assert_eq!(nat_of(0).gcd(&nat_of(7)).to_usize(), 7);
    assert_eq!(nat_of(1).gcd(&nat_of(9)).to_usize(), 1);
}

#[test]
fn nat_sub_of_add_recovers_summand() {
    let a = nat_of(12);
    let b = nat_of(5);
    assert_eq!(a.add(&b).sub(&b).unwrap().to_usize(), 12);
    let z = Nat::zero();
    assert_eq!(z.add(&b).sub(&b).unwrap().to_usize(), 0);
    assert!(nat_of(1).sub(&nat_of(3)).is_none());
}

#[test]
fn nat_division_edges() {
    assert!(nat_of(7).div_mod(&Nat::zero()).is_none());
    assert!(nat_of(7).div_exact(&Nat::zero()).is_none());
    assert_eq!(nat_of(12).div_exact(&nat_of(4)).unwrap().to_usize(), 3);
    assert!(nat_of(7).div_exact(&nat_of(3)).is_none());
    let (q, r) = Nat::zero().div_mod(&nat_of(3)).unwrap();
    assert_eq!(q.to_usize(), 0);
    assert_eq!(r.to_usize(), 0);
}

#[test]
fn nat_succ_pred_and_render() {
    assert!(Nat::zero().pred().is_none());
    let two = Nat::one().succ();
    assert_eq!(two.to_usize(), 2);
    assert_eq!(two.pred().unwrap().to_usize(), 1);
    assert!(Nat::zero().is_zero());
    assert!(!two.is_zero());
    assert_eq!(Nat::zero().render(), "0");
    assert_eq!(nat_of(10).render(), "10");
    assert_eq!(nat_of(120).render(), "120");
}

#[test]
fn int_from_diff_canonical_signs() {
    let n = Int::from_diff(Nat::zero(), nat_of(3));
    assert!(n.is_negative());
    assert!(!n.is_zero());
    let z = Int::from_diff(nat_of(4), nat_of(4));
    assert!(z.is_zero());
    assert!(!z.is_negative());
    assert_eq!(z.render(), "0");
    let p = Int::from_diff(nat_of(5), nat_of(3));
    assert!(!p.is_negative());
    assert!(!p.is_zero());
    assert_eq!(p.render(), "2");
    assert_eq!(n.abs_nat().to_usize(), 3);
}

#[test]
fn int_neg_and_order() {
    let minus_two = int_of(2).neg();
    assert_eq!(minus_two.render(), "-2");
    assert_eq!(minus_two.neg().render(), "2");
    assert_eq!(Int::zero().neg().render(), "0");
    assert_eq!(minus_two.cmp_int(&Int::zero()), Ordering::Less);
    assert_eq!(int_of(3).cmp_int(&int_of(2)), Ordering::Greater);
    let minus_three = int_of(3).neg();
    assert_eq!(minus_three.cmp_int(&minus_two), Ordering::Less);
    assert_eq!(minus_two.cmp_int(&int_of(2).neg()), Ordering::Equal);
}

#[test]
fn rat_zero_denominator_is_rejected() {
    assert!(Rat::new(int_of(1), Nat::zero()).is_none());
    assert!(Rat::new(Int::zero(), Nat::zero()).is_none());
}

#[test]
fn rat_zero_numerator_collapses_to_canonical_zero() {
    let z = Rat::new(Int::zero(), nat_of(5)).unwrap();
    assert!(z.is_zero());
    assert_eq!(z.render(), "0");
}

#[test]
fn rat_normalization_is_idempotent() {
    let half = rat(2, 4);
    assert_eq!(half.render(), "1/2");
    let again = Rat::new(half.num.clone(), half.den.clone()).unwrap();
    assert_eq!(again.render(), "1/2");
    assert_eq!(again.cmp_rat(&half), Ordering::Equal);
    assert_eq!(again.num.cmp_int(&half.num), Ordering::Equal);
    assert_eq!(again.den.cmp_nat(&half.den), Ordering::Equal);
}

#[test]
fn rat_arithmetic() {
    let a = rat(1, 2);
    let b = rat(1, 3);
    assert_eq!(a.sub(&b).render(), "1/6");
    assert_eq!(neg_rat(2, 3).mul(&rat(3, 4)).render(), "-1/2");
    assert_eq!(a.div(&b).unwrap().render(), "3/2");
    assert!(a.div(&Rat::zero()).is_none());
    assert_eq!(a.div(&neg_rat(1, 3)).unwrap().render(), "-3/2");
    assert_eq!(Rat::one().render(), "1");
    assert_eq!(neg_rat(7, 2).abs().render(), "7/2");
    assert_eq!(neg_rat(7, 2).neg().render(), "7/2");
}

#[test]
fn rat_order() {
    assert_eq!(rat(1, 3).cmp_rat(&rat(1, 2)), Ordering::Less);
    assert_eq!(rat(2, 4).cmp_rat(&rat(1, 2)), Ordering::Equal);
    assert_eq!(rat(3, 4).cmp_rat(&rat(2, 3)), Ordering::Greater);
    assert_eq!(neg_rat(1, 2).cmp_rat(&rat(1, 3)), Ordering::Less);
}

#[test]
fn real_point_interval_has_zero_width() {
    let r = Real::from_rat(rat(1, 2));
    for k in [1usize, 2, 16, 100] {
        let i = r.interval(k);
        assert!(i.width().is_zero());
        assert_eq!(i.lo.render(), "1/2");
        assert_eq!(i.hi.render(), "1/2");
        assert!(!i.contains_zero());
    }
}

#[test]
fn real_add_collapses_to_exact_sum() {
    let r1 = Real::from_rat(rat(1, 2));
    let r2 = Real::from_rat(rat(1, 3));
    let s = r1.add(&r2);
    let i = s.interval(16);
    assert!(i.width().is_zero());
    assert_eq!(i.lo.render(), "5/6");
    assert_eq!(s.render(), "5/6");
}

#[test]
fn real_mul_collapses_to_exact_product() {
    let r1 = Real::from_rat(rat(1, 2));
    let r2 = Real::from_rat(rat(1, 3));
    let p = r1.mul(&r2);
    let i = p.interval(16);
    assert!(i.width().is_zero());
    assert_eq!(i.lo.render(), "1/6");
    assert_eq!(p.render(), "1/6");
}

#[test]
fn real_sub_and_div_converge() {
    let r1 = Real::from_rat(rat(1, 2));
    let r2 = Real::from_rat(rat(1, 3));
    assert_eq!(r1.sub(&r2).render(), "1/6");
    let q = r1.div(&r2).unwrap();
    for k in [1usize, 16, 1000] {
        let i = q.interval(k);
        assert!(i.width().is_zero());
        assert_eq!(i.lo.render(), "3/2");
    }
    let neg = Real::from_rat(neg_rat(1, 4));
    let qn = r1.div(&neg).unwrap();
    assert_eq!(qn.render(), "-2");
}

#[test]
fn complex_add_componentwise() {
    let z1 = Complex::new(Real::from_rat(rat(1, 2)), Real::from_rat(rat(1, 3)));
    let z2 = Complex::new(Real::from_rat(rat(1, 6)), Real::from_rat(neg_rat(1, 3)));
    let s = z1.add(&z2);
    assert_eq!(s.re.render(), "2/3");
    assert_eq!(s.im.render(), "0");
}

#[test]
fn complex_mul_standard_identity() {
    let z1 = Complex::new(Real::from_rat(rat(1, 2)), Real::from_rat(rat(1, 3)));
    let z2 = Complex::new(Real::from_rat(rat(1, 6)), Real::from_rat(neg_rat(1, 3)));
    let p = z1.mul(&z2);
    assert_eq!(p.re.render(), "7/36");
    assert_eq!(p.im.render(), "-1/9");
    assert_eq!(p.render(), "(7/36 + -1/9i)");
    let d = z1.sub(&z2);
    assert_eq!(d.re.render(), "1/3");
    assert_eq!(d.im.render(), "2/3");
}
