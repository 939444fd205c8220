use vstd::prelude::*;
use crate::vector3::ONE;

verus! {

/// Largest refractive index accepted, in units of `ONE`.
pub const MAX_REFRACTIVE_INDEX: i64 = 1048576;

/// Light going from index `n1` into index `n2` at incidence cosine `cos_i`
/// (all in units of `ONE`) is totally reflected: Snell's law asks for
/// `sin^2 t = (n1 / n2)^2 (1 - cos_i^2) > 1`, that is
/// `n1^2 (ONE^2 - cos_i^2) > n2^2 ONE^2`.
pub open spec fn reflects_totally(n1: int, n2: int, cos_i: int) -> bool {
    n1 * n1 * (ONE * ONE - cos_i * cos_i) > n2 * n2 * (ONE * ONE)
}

/// Schlick's reflectance `R0 + (1 - R0) (1 - |cos_i|)^5`, with
/// `R0 = ((n1 - n2) / (n1 + n2))^2`, as `(numerator, denominator)` over the
/// common denominator `(n1 + n2)^2 ONE^5`.
pub open spec fn schlick_of(n1: int, n2: int, cos_i: int) -> (int, int) {
    let c = if cos_i < 0 { -cos_i } else { cos_i };
    let one5 = ONE * ONE * ONE * ONE * ONE;
    let m = ONE - c;
    let m5 = m * m * m * m * m;
    let sum2 = (n1 + n2) * (n1 + n2);
    let diff2 = (n1 - n2) * (n1 - n2);
    (diff2 * one5 + (sum2 - diff2) * m5, sum2 * one5)
}

pub open spec fn valid_interface(n1: int, n2: int, cos_i: int) -> bool {
    &&& 0 < n1 <= MAX_REFRACTIVE_INDEX
    &&& 0 < n2 <= MAX_REFRACTIVE_INDEX
    &&& -ONE <= cos_i <= ONE
}

/// Whether refraction from `n1` into `n2` at incidence cosine `cos_i` turns
/// into total internal reflection.
pub fn total_internal_reflection(n1: i64, n2: i64, cos_i: i64) -> (r: bool)
    requires
        valid_interface(n1 as int, n2 as int, cos_i as int),
    ensures
        r == reflects_totally(n1 as int, n2 as int, cos_i as int),
{
    let (a, b, c, one) = (n1 as i128, n2 as i128, cos_i as i128, ONE as i128);
    proof {
        assert(0 <= c * c <= one * one) by (nonlinear_arith)
            requires -one <= c <= one, one == ONE;
        assert(0 < a * a <= 0x100_0000_0000) by (nonlinear_arith)
            requires 0 < a <= 0x10_0000;
        assert(0 < b * b <= 0x100_0000_0000) by (nonlinear_arith)
            requires 0 < b <= 0x10_0000;
        assert(a * a * (one * one - c * c) <= 0x100_0000_0000 * (one * one)) by (nonlinear_arith)
            requires 0 < a * a <= 0x100_0000_0000, 0 <= one * one - c * c <= one * one;
        assert(0 <= a * a * (one * one - c * c)) by (nonlinear_arith)
            requires 0 < a * a, 0 <= one * one - c * c;
        assert(b * b * (one * one) <= 0x100_0000_0000 * (one * one)) by (nonlinear_arith)
            requires 0 < b * b <= 0x100_0000_0000, one == ONE;
    }
    a * a * (one * one - c * c) > b * b * (one * one)
}

/// Schlick's approximation of the share of light a dielectric reflects, as
/// an exact fraction `(numerator, denominator)`.
pub fn schlick_reflectance(n1: i64, n2: i64, cos_i: i64) -> (r: (i128, i128))
    requires
        valid_interface(n1 as int, n2 as int, cos_i as int),
    ensures
        (r.0 as int, r.1 as int) == schlick_of(n1 as int, n2 as int, cos_i as int),
        r.1 > 0,
{
    let one = ONE as i128;
    let c = if cos_i < 0 { -(cos_i as i128) } else { cos_i as i128 };
    let m = one - c;
    let sum = n1 as i128 + n2 as i128;
    let diff = n1 as i128 - n2 as i128;
    proof {
        assert(0 <= m <= one);
        assert(0 <= m * m <= one * one) by (nonlinear_arith) requires 0 <= m <= one;
        assert(0 <= m * m * m <= one * one * one) by (nonlinear_arith)
            requires 0 <= m * m <= one * one, 0 <= m <= one;
        assert(0 <= m * m * m * m <= one * one * one * one) by (nonlinear_arith)
            requires 0 <= m * m * m <= one * one * one, 0 <= m <= one;
        assert(0 <= m * m * m * m * m <= one * one * one * one * one) by (nonlinear_arith)
            requires 0 <= m * m * m * m <= one * one * one * one, 0 <= m <= one;
        assert(0 < sum * sum <= 0x400_0000_0000) by (nonlinear_arith)
            requires 0 < sum <= 0x20_0000;
        assert(0 <= diff * diff <= sum * sum) by (nonlinear_arith)
            requires -sum <= diff <= sum;
        assert(one * one * one * one * one == 0x1_0000_0000_0000_0000_0000);
        assert(sum * sum * (one * one * one * one * one) <= 0x400_0000_0000 * 0x1_0000_0000_0000_0000_0000)
            by (nonlinear_arith)
            requires 0 < sum * sum <= 0x400_0000_0000, one * one * one * one * one == 0x1_0000_0000_0000_0000_0000;
        assert(0 < sum * sum * (one * one * one * one * one)) by (nonlinear_arith)
            requires 0 < sum * sum, one * one * one * one * one > 0;
        assert(0 <= diff * diff * (one * one * one * one * one) <= sum * sum * (one * one * one * one * one))
            by (nonlinear_arith)
            requires 0 <= diff * diff <= sum * sum, one * one * one * one * one > 0;
        assert(0 <= (sum * sum - diff * diff) * (m * m * m * m * m) <= sum * sum * (one * one * one * one * one))
            by (nonlinear_arith)
            requires 0 <= sum * sum - diff * diff <= sum * sum, 0 <= m * m * m * m * m <= one * one * one * one * one;
    }
    let one5 = one * one * one * one * one;
    let m5 = m * m * m * m * m;
    let sum2 = sum * sum;
    let diff2 = diff * diff;
    (diff2 * one5 + (sum2 - diff2) * m5, sum2 * one5)
}

/// Beyond the critical angle refraction gives way to reflection: going into
/// a lower index (`n1 > n2`) with `cos_i^2 < 1 - (n2 / n1)^2`, that is
/// `cos_i^2 n1^2 < (n1^2 - n2^2) ONE^2`, the light is totally reflected.
pub proof fn lemma_total_internal_reflection(n1: int, n2: int, cos_i: int)
    requires
        n1 > n2 > 0,
        cos_i * cos_i * (n1 * n1) < (n1 * n1 - n2 * n2) * (ONE * ONE),
    ensures
        reflects_totally(n1, n2, cos_i),
{
    assert(n1 * n1 * (ONE * ONE - cos_i * cos_i) > n2 * n2 * (ONE * ONE)) by (nonlinear_arith)
        requires cos_i * cos_i * (n1 * n1) < (n1 * n1 - n2 * n2) * (ONE * ONE);
}

/// At normal incidence Schlick's reflectance is exactly
/// `((n1 - n2) / (n1 + n2))^2`.
pub proof fn lemma_schlick_normal_incidence(n1: int, n2: int, cos_i: int)
    requires
        n1 > 0,
        n2 > 0,
        cos_i == ONE || cos_i == -ONE,
    ensures
        ({
            let (num, den) = schlick_of(n1, n2, cos_i);
            num * ((n1 + n2) * (n1 + n2)) == ((n1 - n2) * (n1 - n2)) * den
        }),
{
    let one5 = ONE * ONE * ONE * ONE * ONE;
    let sum2 = (n1 + n2) * (n1 + n2);
    let diff2 = (n1 - n2) * (n1 - n2);
    let m: int = 0;
    assert(m * m * m * m * m == 0);
    assert((sum2 - diff2) * 0 == 0);
    assert((diff2 * one5) * sum2 == diff2 * (sum2 * one5)) by (nonlinear_arith);
}

} // verus!
