//! Proved properties of the soft-clipping curve.
//!
//! The lemmas quantify over a sample `xn / s` and a clip level `cn / s`
//! given over a common positive scale `s`; any pair of rationals can be
//! brought to such a form, so the statements cover the whole curve.
//! Inequalities between curve values are stated cross-multiplied over the
//! positive denominators.

use vstd::prelude::*;
use vstd::math::abs;
use crate::rat::Rat;
use crate::clip::clip_num;
use crate::clip::clip_den;
use crate::clip::clip_result_num;
use crate::clip::clip_result_den;
use crate::clip::in_linear_region;

verus! {

/// The curve is total: its denominator is positive for every sample and
/// clip level over a positive scale.  In particular the degenerate clip
/// level 1, where the analytic formula divides by `1 - clip_level == 0`,
/// still yields a well-formed rational here.
pub proof fn lemma_clip_den_pos(xn: int, cn: int, s: int)
    requires
        s > 0,
    ensures
        clip_den(xn, cn, s) > 0,
{
    if xn > cn {
        let dn: int = xn - cn;
        let kn: int = s - cn;
        assert(kn * kn >= 0 && dn * dn >= 1) by (nonlinear_arith)
            requires
                dn >= 1;
        assert(s * (kn * kn + dn * dn) >= 1) by (nonlinear_arith)
            requires
                s >= 1,
                kn * kn + dn * dn >= 1;
    } else if xn < -cn {
        let en: int = xn + cn;
        let kn: int = s - cn;
        assert(kn * kn >= 0 && en * en >= 1) by (nonlinear_arith)
            requires
                en <= -1;
        assert(s * (kn * kn + en * en) >= 1) by (nonlinear_arith)
            requires
                s >= 1,
                kn * kn + en * en >= 1;
    }
}

/// Identity in the linear region: a sample with `-clip_level <= x <=
/// clip_level` passes through completely unchanged.
pub proof fn lemma_linear_region_identity(x: Rat, c: Rat)
    requires
        in_linear_region(x, c),
    ensures
        clip_result_num(x, c) == x.num,
        clip_result_den(x, c) == x.den,
{
}

/// Odd symmetry: clipping `-x` yields exactly the negation of clipping `x`,
/// with the same denominator, for any positive clip level.
pub proof fn lemma_odd_symmetry(xn: int, cn: int, s: int)
    requires
        s > 0,
        cn > 0,
    ensures
        clip_num(-xn, cn, s) == -clip_num(xn, cn, s),
        clip_den(-xn, cn, s) == clip_den(xn, cn, s),
{
    let kn: int = s - cn;
    if xn > cn {
        let dn: int = xn - cn;
        assert(clip_num(xn, cn, s) == cn * (kn * kn + dn * dn) + dn * (kn * kn));
        assert(clip_num(-xn, cn, s) == (-cn) * (kn * kn + (-dn) * (-dn)) + (-dn) * (kn * kn));
        assert(clip_den(-xn, cn, s) == s * (kn * kn + (-dn) * (-dn)));
        assert((-cn) * (kn * kn + (-dn) * (-dn)) + (-dn) * (kn * kn)
            == -(cn * (kn * kn + dn * dn) + dn * (kn * kn))) by (nonlinear_arith);
        assert(s * (kn * kn + (-dn) * (-dn)) == s * (kn * kn + dn * dn)) by (nonlinear_arith);
    } else if xn < -cn {
        let en: int = xn + cn;
        assert(clip_num(xn, cn, s) == (-cn) * (kn * kn + en * en) + en * (kn * kn));
        assert(clip_num(-xn, cn, s) == cn * (kn * kn + (-en) * (-en)) + (-en) * (kn * kn));
        assert(clip_den(-xn, cn, s) == s * (kn * kn + (-en) * (-en)));
        assert(cn * (kn * kn + (-en) * (-en)) + (-en) * (kn * kn)
            == -((-cn) * (kn * kn + en * en) + en * (kn * kn))) by (nonlinear_arith);
        assert(s * (kn * kn + (-en) * (-en)) == s * (kn * kn + en * en)) by (nonlinear_arith);
    }
}

/// Odd symmetry at the level of clipped samples: for a positive clip level,
/// a sample and its negation (same denominator, negated numerator) come out
/// as exact negations of one another.
pub proof fn lemma_odd_symmetry_result(x: Rat, nx: Rat, c: Rat)
    requires
        x.wf(),
        c.wf(),
        c.num > 0,
        nx.den == x.den,
        nx.num == -x.num,
    ensures
        clip_result_num(nx, c) == -clip_result_num(x, c),
        clip_result_den(nx, c) == clip_result_den(x, c),
{
    let xn: int = x.num * c.den;
    let cn: int = c.num * x.den;
    let s: int = x.den * c.den;
    assert(nx.num * c.den == -xn) by (nonlinear_arith)
        requires
            nx.num == -x.num,
            xn == x.num * c.den;
    assert(s >= 1) by (nonlinear_arith)
        requires
            x.den >= 1,
            c.den >= 1,
            s == x.den * c.den;
    assert(cn > 0) by (nonlinear_arith)
        requires
            c.num >= 1,
            x.den >= 1,
            cn == c.num * x.den;
    lemma_odd_symmetry(xn, cn, s);
}

/// Compression above the threshold: for a clip level strictly between 0 and
/// 1 and a sample `x` strictly above it, the output `y` satisfies
/// `clip_level < y < x` and `y < 1`.
pub proof fn lemma_compression_above(xn: int, cn: int, s: int)
    requires
        s > 0,
        0 < cn < s,
        xn > cn,
    ensures
        cn * clip_den(xn, cn, s) < clip_num(xn, cn, s) * s,
        clip_num(xn, cn, s) < clip_den(xn, cn, s),
        clip_num(xn, cn, s) * s < xn * clip_den(xn, cn, s),
{
    let dn: int = xn - cn;
    let kn: int = s - cn;
    let a: int = kn * kn + dn * dn;
    let yn: int = cn * a + dn * (kn * kn);
    let yd: int = s * a;
    assert(clip_num(xn, cn, s) == yn);
    assert(clip_den(xn, cn, s) == yd);
    // y - c has the sign of dn * kn^2.
    assert(yn * s - cn * yd == s * (dn * (kn * kn))) by (nonlinear_arith)
        requires
            yn == cn * a + dn * (kn * kn),
            yd == s * a,
            a == kn * kn + dn * dn;
    assert(s * (dn * (kn * kn)) > 0) by (nonlinear_arith)
        requires
            s > 0,
            dn > 0,
            kn > 0;
    // 1 - y has the sign of kn * (kn^2 - dn*kn + dn^2).
    assert(yd - yn == kn * (kn * kn - dn * kn + dn * dn)) by (nonlinear_arith)
        requires
            yn == cn * a + dn * (kn * kn),
            yd == s * a,
            a == kn * kn + dn * dn,
            kn == s - cn;
    assert(kn * kn - dn * kn + dn * dn > 0) by (nonlinear_arith)
        requires
            kn > 0,
            dn > 0;
    assert(kn * (kn * kn - dn * kn + dn * dn) > 0) by (nonlinear_arith)
        requires
            kn > 0,
            kn * kn - dn * kn + dn * dn > 0;
    // x - y has the sign of s * dn^3.
    assert(xn * yd - yn * s == s * (dn * (dn * dn))) by (nonlinear_arith)
        requires
            yn == cn * a + dn * (kn * kn),
            yd == s * a,
            a == kn * kn + dn * dn,
            dn == xn - cn;
    assert(s * (dn * (dn * dn)) > 0) by (nonlinear_arith)
        requires
            s > 0,
            dn > 0;
}

/// Monotonicity on the rising stretch of the compressed region: two samples
/// above the threshold with `(x1 - c) * (x2 - c) < (1 - c)^2` keep their
/// order.  (Beyond that stretch the rational curve bends back toward the
/// clip level, so the restriction is exact.)
pub proof fn lemma_monotone_above(x1: int, x2: int, cn: int, s: int)
    requires
        s > 0,
        0 < cn < s,
        cn < x1 < x2,
        (x1 - cn) * (x2 - cn) < (s - cn) * (s - cn),
    ensures
        clip_num(x1, cn, s) * clip_den(x2, cn, s) < clip_num(x2, cn, s) * clip_den(x1, cn, s),
{
    let kn: int = s - cn;
    let k2: int = kn * kn;
    let d1: int = x1 - cn;
    let d2: int = x2 - cn;
    let a1: int = k2 + d1 * d1;
    let a2: int = k2 + d2 * d2;
    let yn1: int = cn * a1 + d1 * k2;
    let yd1: int = s * a1;
    let yn2: int = cn * a2 + d2 * k2;
    let yd2: int = s * a2;
    assert(clip_num(x1, cn, s) == yn1 && clip_den(x1, cn, s) == yd1);
    assert(clip_num(x2, cn, s) == yn2 && clip_den(x2, cn, s) == yd2);
    assert(d2 * a1 - d1 * a2 == (d2 - d1) * (k2 - d1 * d2)) by (nonlinear_arith)
        requires
            a1 == k2 + d1 * d1,
            a2 == k2 + d2 * d2;
    assert(yn2 * yd1 - yn1 * yd2 == s * (yn2 * a1 - yn1 * a2)) by (nonlinear_arith)
        requires
            yd1 == s * a1,
            yd2 == s * a2;
    assert(yn2 * a1 - yn1 * a2 == k2 * (d2 * a1 - d1 * a2)) by (nonlinear_arith)
        requires
            yn1 == cn * a1 + d1 * k2,
            yn2 == cn * a2 + d2 * k2;
    assert(k2 - d1 * d2 > 0) by (nonlinear_arith)
        requires
            k2 == kn * kn,
            d1 * d2 < kn * kn;
    assert(s * (k2 * ((d2 - d1) * (k2 - d1 * d2))) > 0) by (nonlinear_arith)
        requires
            s > 0,
            kn > 0,
            k2 == kn * kn,
            d2 - d1 > 0,
            k2 - d1 * d2 > 0;
}

/// Continuity at the knees: for any sample, the output differs from each
/// knee value (`clip_level` and `-clip_level`) by no more than the input's
/// own distance to that knee, so the curve has no jump at either knee.
pub proof fn lemma_knee_continuity(xn: int, cn: int, s: int)
    requires
        s > 0,
        0 < cn < s,
    ensures
        abs(clip_num(xn, cn, s) * s - cn * clip_den(xn, cn, s))
            <= abs(xn - cn) * clip_den(xn, cn, s),
        abs(clip_num(xn, cn, s) * s + cn * clip_den(xn, cn, s))
            <= abs(xn + cn) * clip_den(xn, cn, s),
{
    let kn: int = s - cn;
    if xn > cn {
        let dn: int = xn - cn;
        let a: int = kn * kn + dn * dn;
        let yn: int = cn * a + dn * (kn * kn);
        let yd: int = s * a;
        assert(clip_num(xn, cn, s) == yn && clip_den(xn, cn, s) == yd);
        assert(kn * kn >= 1 && dn * dn >= 1) by (nonlinear_arith)
            requires
                kn >= 1,
                dn >= 1;
        assert(yd >= 1) by (nonlinear_arith)
            requires
                yd == s * a,
                s >= 1,
                a >= 1;
        // Distance to the upper knee: |y - c| = dn*kn^2 / (s*a) <= dn / s.
        assert(yn * s - cn * yd == s * (dn * (kn * kn))) by (nonlinear_arith)
            requires
                yn == cn * a + dn * (kn * kn),
                yd == s * a,
                a == kn * kn + dn * dn;
        assert(0 <= s * (dn * (kn * kn))) by (nonlinear_arith)
            requires
                s > 0,
                dn > 0,
                kn * kn >= 0;
        assert(dn * yd - s * (dn * (kn * kn)) == s * (dn * (dn * dn))) by (nonlinear_arith)
            requires
                yd == s * a,
                a == kn * kn + dn * dn;
        assert(s * (dn * (dn * dn)) >= 0) by (nonlinear_arith)
            requires
                s > 0,
                dn > 0;
        assert(abs(yn * s - cn * yd) <= abs(dn) * yd);
        // Distance to the lower knee: 0 <= y + c and y + c <= x + c.
        assert(yn * s + cn * yd == s * (2 * cn * a + dn * (kn * kn))) by (nonlinear_arith)
            requires
                yn == cn * a + dn * (kn * kn),
                yd == s * a;
        assert(s * (2 * cn * a + dn * (kn * kn)) >= 0) by (nonlinear_arith)
            requires
                s > 0,
                cn > 0,
                a >= 1,
                dn > 0,
                kn * kn >= 0;
        assert((xn + cn) * yd - (yn * s + cn * yd) == s * (dn * (dn * dn))) by (nonlinear_arith)
            requires
                yn == cn * a + dn * (kn * kn),
                yd == s * a,
                a == kn * kn + dn * dn,
                dn == xn - cn;
        assert(abs(yn * s + cn * yd) <= abs(xn + cn) * yd) by {
            assert(xn + cn > 0);
            assert((xn + cn) * yd >= 0) by (nonlinear_arith)
                requires
                    xn + cn > 0,
                    yd >= 1;
        }
    } else if xn < -cn {
        let en: int = xn + cn;
        let a: int = kn * kn + en * en;
        let yn: int = (-cn) * a + en * (kn * kn);
        let yd: int = s * a;
        assert(clip_num(xn, cn, s) == yn && clip_den(xn, cn, s) == yd);
        assert(kn * kn >= 1 && en * en >= 1) by (nonlinear_arith)
            requires
                kn >= 1,
                en <= -1;
        assert(yd >= 1) by (nonlinear_arith)
            requires
                yd == s * a,
                s >= 1,
                a >= 1;
        // Distance to the lower knee: |y + c| = |en|*kn^2 / (s*a) <= |en| / s.
        assert(yn * s + cn * yd == s * (en * (kn * kn))) by (nonlinear_arith)
            requires
                yn == (-cn) * a + en * (kn * kn),
                yd == s * a,
                a == kn * kn + en * en;
        assert(s * (en * (kn * kn)) <= 0) by (nonlinear_arith)
            requires
                s > 0,
                en < 0,
                kn * kn >= 0;
        assert((-en) * yd + s * (en * (kn * kn)) == s * ((-en) * (en * en))) by (nonlinear_arith)
            requires
                yd == s * a,
                a == kn * kn + en * en;
        assert(s * ((-en) * (en * en)) >= 0) by (nonlinear_arith)
            requires
                s > 0,
                en < 0;
        assert(abs(yn * s + cn * yd) <= abs(xn + cn) * yd);
        // Distance to the upper knee: y - c <= 0 and c - y <= c - x.
        assert(yn * s - cn * yd == s * ((-(2 * cn)) * a + en * (kn * kn))) by (nonlinear_arith)
            requires
                yn == (-cn) * a + en * (kn * kn),
                yd == s * a;
        assert(s * ((-(2 * cn)) * a + en * (kn * kn)) <= 0) by (nonlinear_arith)
            requires
                s > 0,
                cn > 0,
                a >= 1,
                en < 0,
                kn * kn >= 0;
        assert((cn * yd - yn * s) - (cn - xn) * yd == s * (en * (en * en))) by (nonlinear_arith)
            requires
                yn == (-cn) * a + en * (kn * kn),
                yd == s * a,
                a == kn * kn + en * en,
                en == xn + cn;
        assert(s * (en * (en * en)) <= 0) by (nonlinear_arith)
            requires
                s > 0,
                en < 0;
        assert(abs(yn * s - cn * yd) <= abs(xn - cn) * yd) by {
            assert(cn - xn > 0);
            assert((cn - xn) * yd >= 0) by (nonlinear_arith)
                requires
                    cn - xn > 0,
                    yd >= 1;
        }
    } else {
        // Linear region: the bound holds with equality at both knees.
        assert(clip_num(xn, cn, s) == xn && clip_den(xn, cn, s) == s);
        if xn >= cn {
            assert(xn * s - cn * s == (xn - cn) * s) by (nonlinear_arith);
            assert((xn - cn) * s >= 0) by (nonlinear_arith)
                requires
                    xn - cn >= 0,
                    s > 0;
        } else {
            assert(cn * s - xn * s == (cn - xn) * s) by (nonlinear_arith);
            assert((cn - xn) * s >= 0) by (nonlinear_arith)
                requires
                    cn - xn >= 0,
                    s > 0;
        }
        if xn >= -cn {
            assert(xn * s + cn * s == (xn + cn) * s) by (nonlinear_arith);
            assert((xn + cn) * s >= 0) by (nonlinear_arith)
                requires
                    xn + cn >= 0,
                    s > 0;
        } else {
            assert((-(xn * s + cn * s)) == (-(xn + cn)) * s) by (nonlinear_arith);
            assert((-(xn + cn)) * s >= 0) by (nonlinear_arith)
                requires
                    xn + cn <= 0,
                    s > 0;
        }
    }
}

/// The in-place result agrees with the curve as a rational value: in the
/// linear region the kept representation and the curve pair are equivalent,
/// and beyond it they are the same pair.
pub proof fn lemma_result_matches_curve(x: Rat, c: Rat)
    requires
        x.wf(),
        c.wf(),
    ensures
        clip_result_num(x, c) * clip_den(x.num * c.den, c.num * x.den, x.den * c.den)
            == clip_num(x.num * c.den, c.num * x.den, x.den * c.den) * clip_result_den(x, c),
{
    if in_linear_region(x, c) {
        assert(x.num * (x.den * c.den) == (x.num * c.den) * x.den) by (nonlinear_arith);
    }
}

} // verus!
