//! Complex numbers as a pair of computable reals, with the standard
//! componentwise identities. No independent algorithmic content: each
//! component is handled entirely by the real stage.

use crate::frac::fadd;
use crate::frac::feq;
use crate::frac::fmul;
use crate::frac::fsub;
use crate::rationals::Rat;
use crate::rationals::rat_str;
use crate::reals::Real;
use vstd::prelude::*;
use vstd::string::StringExecFns;

verus! {

/// The demonstration text of a complex number built from the texts of its
/// two parts.
pub open spec fn cpx_str(a: Rat, b: Rat) -> Seq<char> {
    seq!['('] + rat_str(a) + seq![' ', '+', ' '] + rat_str(b) + seq!['i', ')']
}

/// A complex number: real part and imaginary part, both computable reals.
pub struct Complex {
    pub re: Real,
    pub im: Real,
}

impl Clone for Complex {
    fn clone(&self) -> (r: Complex)
        ensures
            r == *self,
    {
        Complex { re: self.re.clone(), im: self.im.clone() }
    }
}

impl Complex {
    /// Both parts evaluable.
    pub open spec fn ok(self) -> bool {
        self.re.evaluable() && self.im.evaluable()
    }

    pub fn new(re: Real, im: Real) -> (r: Complex)
        ensures
            r.re == re,
            r.im == im,
    {
        Complex { re, im }
    }

    /// Componentwise sum.
    pub fn add(&self, other: &Complex) -> (r: Complex)
        ensures
            r.re.denote() == fadd(self.re.denote(), other.re.denote()),
            r.im.denote() == fadd(self.im.denote(), other.im.denote()),
            self.ok() && other.ok() ==> r.ok(),
    {
        Complex { re: self.re.add(&other.re), im: self.im.add(&other.im) }
    }

    /// Componentwise difference.
    pub fn sub(&self, other: &Complex) -> (r: Complex)
        ensures
            r.re.denote() == fsub(self.re.denote(), other.re.denote()),
            r.im.denote() == fsub(self.im.denote(), other.im.denote()),
            self.ok() && other.ok() ==> r.ok(),
    {
        Complex { re: self.re.sub(&other.re), im: self.im.sub(&other.im) }
    }

    /// The standard complex product identity
    /// `(a + bi)(c + di) = (ac - bd) + (ad + bc)i`, evaluated through the
    /// real layer.
    pub fn mul(&self, other: &Complex) -> (r: Complex)
        ensures
            r.re.denote() == fsub(
                fmul(self.re.denote(), other.re.denote()),
                fmul(self.im.denote(), other.im.denote()),
            ),
            r.im.denote() == fadd(
                fmul(self.re.denote(), other.im.denote()),
                fmul(self.im.denote(), other.re.denote()),
            ),
            self.ok() && other.ok() ==> r.ok(),
    {
        let ac = self.re.mul(&other.re);
        let bd = self.im.mul(&other.im);
        let ad = self.re.mul(&other.im);
        let bc = self.im.mul(&other.re);
        Complex { re: ac.sub(&bd), im: ad.add(&bc) }
    }

    /// The demonstration text `(re + imi)`, each part rendered by the real
    /// layer.
    pub fn render(&self) -> (s: String)
        requires
            self.ok(),
        ensures
            (exists|qa: Rat, qb: Rat|
                qa.ok() && qb.ok() && feq(qa@, self.re.denote()) && feq(qb@, self.im.denote())
                    && s@ == cpx_str(qa, qb)),
    {
        let re_text = self.re.render();
        let im_text = self.im.render();
        let s = String::new().concat("(").concat(re_text.as_str()).concat(" + ").concat(
            im_text.as_str(),
        ).concat("i)");
        proof {
            reveal_strlit("(");
            reveal_strlit(" + ");
            reveal_strlit("i)");
            let qa = choose|q: Rat|
                q.ok() && feq(q@, self.re.denote()) && re_text@ == rat_str(q);
            let qb = choose|q: Rat|
                q.ok() && feq(q@, self.im.denote()) && im_text@ == rat_str(q);
            assert(s@ =~= cpx_str(qa, qb));
        }
        s
    }
}

} // verus!
