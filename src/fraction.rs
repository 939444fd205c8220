use vstd::prelude::*;

verus! {

/// A non-negative rational distance `num / den` along a ray, with `den > 0`.
#[derive(Clone, Copy, Debug, PartialEq, Eq, Structural)]
pub struct Fraction {
    pub num: i128,
    pub den: i128,
}

/// Bound on the numerator and denominator of every distance the geometry
/// layer produces; products of two such values fit in an `i128`.
pub const FRACTION_LIMIT: i128 = 0x4000_0000_0000_0000;

impl Fraction {
    pub open spec fn wf(&self) -> bool {
        0 < self.den <= FRACTION_LIMIT && 0 <= self.num <= FRACTION_LIMIT
    }

    /// `self < o` as rationals.
    pub open spec fn lt(&self, o: Fraction) -> bool {
        self.num * o.den < o.num * self.den
    }

    pub fn less_than(&self, o: &Fraction) -> (r: bool)
        requires
            self.wf(),
            o.wf(),
        ensures
            r == self.lt(*o),
    {
        proof {
            crate::vector3::lemma_mul_bound(self.num as int, o.den as int, FRACTION_LIMIT as int, FRACTION_LIMIT as int);
            crate::vector3::lemma_mul_bound(o.num as int, self.den as int, FRACTION_LIMIT as int, FRACTION_LIMIT as int);
        }
        self.num * o.den < o.num * self.den
    }
}

/// `an / ad < bn / bd <= cn / cd` for positive denominators gives `an / ad < cn / cd`.
pub proof fn lemma_frac_lt_le_trans(an: int, ad: int, bn: int, bd: int, cn: int, cd: int)
    requires
        ad > 0,
        bd > 0,
        cd > 0,
        an * bd < bn * ad,
        bn * cd <= cn * bd,
    ensures
        an * cd < cn * ad,
{
    assert(an * cd < cn * ad) by (nonlinear_arith)
        requires
            ad > 0,
            bd > 0,
            cd > 0,
            an * bd < bn * ad,
            bn * cd <= cn * bd,
    ;
}

/// `an / ad <= bn / bd <= cn / cd` for positive denominators gives `an / ad <= cn / cd`.
pub proof fn lemma_frac_le_trans(an: int, ad: int, bn: int, bd: int, cn: int, cd: int)
    requires
        ad > 0,
        bd > 0,
        cd > 0,
        an * bd <= bn * ad,
        bn * cd <= cn * bd,
    ensures
        an * cd <= cn * ad,
{
    assert(an * cd <= cn * ad) by (nonlinear_arith)
        requires
            ad > 0,
            bd > 0,
            cd > 0,
            an * bd <= bn * ad,
            bn * cd <= cn * bd,
    ;
}

} // verus!
