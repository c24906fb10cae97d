//! The soft-clipping transfer curve and its in-place application.
//!
//! For a sample `x` and a clip level `c` (conceptually `0 < c < 1`) the curve
//! is:
//!
//! * `x > c`:   `c + (x - c) / (1 + ((x - c) / (1 - c))^2)`
//! * `x < -c`:  `-c + (x + c) / (1 + ((x + c) / (1 - c))^2)`
//! * otherwise: `x`, unchanged.
//!
//! Samples and the clip level are exact rationals.  Bringing `x = xn/s` and
//! `c = cn/s` to a common positive scale `s` and clearing denominators turns
//! the branch above the threshold into the pair
//!
//! `( cn*(kn^2 + dn^2) + dn*kn^2 ) / ( s*(kn^2 + dn^2) )`
//!
//! with `dn = xn - cn` and `kn = s - cn`, and mirrors it below the threshold.

use vstd::prelude::*;
use crate::rat::Rat;

verus! {

/// Numerator of the curve value for input `xn / s` and clip level `cn / s`,
/// both over the common positive scale `s`.
pub open spec fn clip_num(xn: int, cn: int, s: int) -> int {
    if xn > cn {
        let dn: int = xn - cn;
        let kn: int = s - cn;
        cn * (kn * kn + dn * dn) + dn * (kn * kn)
    } else if xn < -cn {
        let en: int = xn + cn;
        let kn: int = s - cn;
        (-cn) * (kn * kn + en * en) + en * (kn * kn)
    } else {
        xn
    }
}

/// Denominator of the curve value for input `xn / s` and clip level `cn / s`.
pub open spec fn clip_den(xn: int, cn: int, s: int) -> int {
    if xn > cn {
        let dn: int = xn - cn;
        let kn: int = s - cn;
        s * (kn * kn + dn * dn)
    } else if xn < -cn {
        let en: int = xn + cn;
        let kn: int = s - cn;
        s * (kn * kn + en * en)
    } else {
        s
    }
}

/// `x` lies in the linear region for clip level `c`: `-c <= x <= c`,
/// cross-multiplied over the positive denominators.
pub open spec fn in_linear_region(x: Rat, c: Rat) -> bool {
    -(c.num * x.den) <= x.num * c.den <= c.num * x.den
}

/// Numerator of the clipped sample.  In the linear region the sample keeps
/// its own representation; beyond it, the curve pair over the common scale
/// `x.den * c.den` is taken as it stands.
pub open spec fn clip_result_num(x: Rat, c: Rat) -> int {
    if in_linear_region(x, c) {
        x.num as int
    } else {
        clip_num(x.num * c.den, c.num * x.den, x.den * c.den)
    }
}

/// Denominator of the clipped sample.
pub open spec fn clip_result_den(x: Rat, c: Rat) -> int {
    if in_linear_region(x, c) {
        x.den as int
    } else {
        clip_den(x.num * c.den, c.num * x.den, x.den * c.den)
    }
}

/// `post` is `pre` with the curve applied to every sample, position by
/// position.
pub open spec fn clipped_seq(post: Seq<Rat>, pre: Seq<Rat>, c: Rat) -> bool {
    &&& post.len() == pre.len()
    &&& forall|i: int|
        0 <= i < pre.len() ==> (#[trigger] post[i]).num == clip_result_num(pre[i], c)
            && post[i].den == clip_result_den(pre[i], c)
}

proof fn lemma_mul_bounds(a: int, b: int, m: int, n: int) by (nonlinear_arith)
    requires
        -m <= a <= m,
        -n <= b <= n,
        0 <= m,
        0 <= n,
    ensures
        -(m * n) <= a * b <= m * n,
{
}

proof fn lemma_mul_pos(a: int, b: int) by (nonlinear_arith)
    requires
        a >= 1,
        b >= 1,
    ensures
        a * b >= 1,
{
}

proof fn lemma_square_pos(a: int) by (nonlinear_arith)
    requires
        a != 0,
    ensures
        a * a >= 1,
{
}

proof fn lemma_square_nonneg(a: int) by (nonlinear_arith)
    ensures
        a * a >= 0,
{
}

/// Clip one sample.  The result is exactly the curve value; a sample in the
/// linear region comes back unchanged, representation included.
pub fn clip_sample(x: Rat, c: Rat) -> (r: Rat)
    requires
        x.bounded(),
        c.bounded(),
    ensures
        r.num == clip_result_num(x, c),
        r.den == clip_result_den(x, c),
        r.wf(),
        in_linear_region(x, c) ==> r == x,
{
    proof {
        lemma_mul_bounds(x.num as int, c.den as int, 1_000_000, 1_000_000);
        lemma_mul_bounds(c.num as int, x.den as int, 1_000_000, 1_000_000);
        lemma_mul_bounds(x.den as int, c.den as int, 1_000_000, 1_000_000);
        lemma_mul_pos(x.den as int, c.den as int);
    }
    let xn: i128 = x.num * c.den;
    let cn: i128 = c.num * x.den;
    let s: i128 = x.den * c.den;
    if xn > cn {
        let dn: i128 = xn - cn;
        let kn: i128 = s - cn;
        proof {
            lemma_mul_bounds(kn as int, kn as int, 2_000_000_000_000, 2_000_000_000_000);
            lemma_mul_bounds(dn as int, dn as int, 2_000_000_000_000, 2_000_000_000_000);
            lemma_square_nonneg(kn as int);
            lemma_square_pos(dn as int);
        }
        let a: i128 = kn * kn + dn * dn;
        proof {
            lemma_mul_bounds(cn as int, a as int, 1_000_000_000_000, 8_000_000_000_000_000_000_000_000);
            lemma_mul_bounds(dn as int, (kn * kn) as int, 2_000_000_000_000, 4_000_000_000_000_000_000_000_000);
            lemma_mul_bounds(s as int, a as int, 1_000_000_000_000, 8_000_000_000_000_000_000_000_000);
            lemma_mul_pos(s as int, a as int);
        }
        Rat { num: cn * a + dn * (kn * kn), den: s * a }
    } else if xn < -cn {
        let en: i128 = xn + cn;
        let kn: i128 = s - cn;
        proof {
            lemma_mul_bounds(kn as int, kn as int, 2_000_000_000_000, 2_000_000_000_000);
            lemma_mul_bounds(en as int, en as int, 2_000_000_000_000, 2_000_000_000_000);
            lemma_square_nonneg(kn as int);
            lemma_square_pos(en as int);
        }
        let a: i128 = kn * kn + en * en;
        proof {
            lemma_mul_bounds(cn as int, a as int, 1_000_000_000_000, 8_000_000_000_000_000_000_000_000);
            lemma_mul_bounds(-(cn as int), a as int, 1_000_000_000_000, 8_000_000_000_000_000_000_000_000);
            lemma_mul_bounds(en as int, (kn * kn) as int, 2_000_000_000_000, 4_000_000_000_000_000_000_000_000);
            lemma_mul_bounds(s as int, a as int, 1_000_000_000_000, 8_000_000_000_000_000_000_000_000);
            lemma_mul_pos(s as int, a as int);
        }
        Rat { num: (-cn) * a + en * (kn * kn), den: s * a }
    } else {
        x
    }
}

/// Apply the soft-clipping curve to every sample of the buffer, in place.
/// Samples in the linear region are left untouched; an empty buffer is a
/// no-op.
pub fn soft_clip(buffer: &mut Vec<Rat>, clip_level: Rat)
    requires
        clip_level.bounded(),
        forall|i: int| 0 <= i < old(buffer)@.len() ==> (#[trigger] old(buffer)@[i]).bounded(),
    ensures
        clipped_seq(final(buffer)@, old(buffer)@, clip_level),
        forall|i: int|
            0 <= i < old(buffer)@.len() && in_linear_region(#[trigger] old(buffer)@[i], clip_level)
                ==> final(buffer)@[i] == old(buffer)@[i],
        old(buffer)@.len() == 0 ==> final(buffer)@ == old(buffer)@,
{
    let n: usize = buffer.len();
    let mut i: usize = 0;
    while i < n
        invariant
            i <= n,
            n == buffer@.len(),
            buffer@.len() == old(buffer)@.len(),
            clip_level.bounded(),
            forall|j: int| 0 <= j < n ==> (#[trigger] old(buffer)@[j]).bounded(),
            forall|j: int| i <= j < n ==> #[trigger] buffer@[j] == old(buffer)@[j],
            forall|j: int|
                0 <= j < i ==> (#[trigger] buffer@[j]).num == clip_result_num(old(buffer)@[j], clip_level)
                    && buffer@[j].den == clip_result_den(old(buffer)@[j], clip_level),
            forall|j: int|
                0 <= j < i && in_linear_region(#[trigger] old(buffer)@[j], clip_level)
                    ==> buffer@[j] == old(buffer)@[j],
        decreases n - i,
    {
        let x: Rat = buffer[i];
        let y: Rat = clip_sample(x, clip_level);
        buffer.set(i, y);
        i = i + 1;
    }
    proof {
        if old(buffer)@.len() == 0 {
            assert(buffer@ =~= old(buffer)@);
        }
    }
}

/// Total entry point: applies the curve when the clip level and every sample
/// are within `RAT_BOUND`, and otherwise leaves the buffer untouched and
/// reports so.
pub fn try_soft_clip(buffer: &mut Vec<Rat>, clip_level: Rat) -> (applied: bool)
    ensures
        applied == (clip_level.bounded() && forall|i: int|
            0 <= i < old(buffer)@.len() ==> (#[trigger] old(buffer)@[i]).bounded()),
        applied ==> clipped_seq(final(buffer)@, old(buffer)@, clip_level),
        !applied ==> final(buffer)@ == old(buffer)@,
{
    if !clip_level.is_bounded() {
        return false;
    }
    let n: usize = buffer.len();
    let mut i: usize = 0;
    while i < n
        invariant
            i <= n,
            n == buffer@.len(),
            buffer@ == old(buffer)@,
            forall|j: int| 0 <= j < i ==> (#[trigger] buffer@[j]).bounded(),
        decreases n - i,
    {
        if !buffer[i].is_bounded() {
            proof {
                assert(!old(buffer)@[i as int].bounded());
            }
            return false;
        }
        i = i + 1;
    }
    soft_clip(buffer, clip_level);
    true
}

} // verus!
