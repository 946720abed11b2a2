//! When an axis has moved.

use crate::ieee;
use crate::ieee::Single;
use vstd::arithmetic::power2::*;
use vstd::prelude::*;

verus! {

/// How much an axis must move before it counts as motion: the encoding of
/// 1/512. A browser reports full precision and a resting stick jitters in the
/// last digits, which would otherwise be an event on every single poll.
pub const AXIS_EPSILON: u32 = 0x3b00_0000;

/// Halfway between 1/512 and the binary32 number below it, in steps of 2^-34.
const HALFWAY: u64 = 0x1ff_ffff;

/// How far apart two axis values are, in steps of 2^-149.
pub open spec fn distance(a: Single, b: Single) -> nat {
    let d = a.steps() - b.steps();
    (if d < 0 {
        -d
    } else {
        d
    }) as nat
}

/// Whether the binary32 difference of two axis values counts as motion. What is
/// not a number is at no distance from anything.
pub open spec fn moved(a: Single, b: Single) -> bool {
    !a.is_nan() && !b.is_nan() && ieee::rounded(distance(a, b), 1) >= AXIS_EPSILON
}

/// The rounded difference reaches 1/512 from halfway below it on: halfway
/// rounds up, because the encoding of 1/512 is even.
pub proof fn lemma_moved_from_halfway(a: Single, b: Single)
    requires
        a.within_one(),
        b.within_one(),
    ensures
        moved(a, b) <==> distance(a, b) >= 0x1ff_ffff * pow2(115),
{
    ieee::lemma_at_most_one(a.encoded());
    ieee::lemma_at_most_one(b.encoded());
    let e = AXIS_EPSILON as nat;
    let below = (AXIS_EPSILON - 1) as nat;
    let d = distance(a, b);
    let r = ieee::rounded(d, 1);
    let u = pow2(115);
    lemma_pow2_pos(115);
    lemma2_to64();
    ieee::lemma_scaled(117, 0x80_0000);
    ieee::lemma_scaled(116, 0xff_ffff);
    lemma_pow2_adds(115, 1);
    lemma_pow2_adds(115, 2);
    assert(ieee::magnitude(e) == 0x200_0000 * u);
    assert(ieee::magnitude(below) == 0x1ff_fffe * u);
    // The distance is at most two, which is a finite magnitude.
    ieee::lemma_scaled(127, 0x80_0000);
    lemma_pow2_adds(23, 127);
    lemma_pow2_adds(149, 1);
    ieee::lemma_rounded_exists(0x4000_0000, d, 1);
    if r >= e {
        if r > e {
            ieee::lemma_magnitude_ordered(e, r);
        }
        assert(ieee::gap(below, d, 1) >= ieee::gap(r, d, 1));
    } else {
        if r < below {
            ieee::lemma_magnitude_ordered(r, below);
        }
        assert(ieee::gap(e, d, 1) >= ieee::gap(r, d, 1));
    }
}

/// An encoded magnitude in steps of 2^-34, rounded down, and whether that is exact.
fn coarse(b: u32) -> (r: (u64, bool))
    requires
        b <= ieee::SINGLE_ONE,
    ensures
        r.0 * pow2(115) <= ieee::magnitude(b as nat) < (r.0 + 1) * pow2(115),
        r.1 <==> ieee::magnitude(b as nat) == r.0 * pow2(115),
        r.0 <= 0x8_0000_0000,
        b >= 116 * 0x80_0000 ==> r.1,
{
    let (s, e): (u64, u64) = if b < 0x80_0000 {
        (b as u64, 1)
    } else {
        ((0x80_0000 + b % 0x80_0000) as u64, (b / 0x80_0000) as u64)
    };
    let ghost m = ieee::magnitude(b as nat);
    let ghost u = pow2(115);
    let ghost p = pow2((e - 1) as nat);
    proof {
        lemma2_to64();
        lemma_pow2_pos(115);
        lemma_pow2_pos((e - 1) as nat);
        assert(m == s * p) by {
            if b < 0x80_0000 {
                assert(s * p == s) by (nonlinear_arith)
                    requires
                        p == 1,
                ;
            }
        }
    }
    if e >= 116 {
        let k: u64 = e - 116;
        let unit: u64 = 1u64 << k;
        proof {
            lemma_pow2_adds(115, k as nat);
            if k < 11 {
                lemma_pow2_strictly_increases(k as nat, 11);
            }
            vstd::bits::lemma_u64_shl_is_mul(1, k);
            assert(s * unit <= 0x100_0000 * 2048) by (nonlinear_arith)
                requires
                    s <= 0x100_0000,
                    unit <= 2048,
            ;
            assert((s * unit) * u == s * p) by (nonlinear_arith)
                requires
                    p == u * unit,
            ;
            assert((s * unit + 1) * u == (s * unit) * u + u) by (nonlinear_arith);
        }
        (s * unit, true)
    } else {
        let k: u64 = 116 - e;
        proof {
            lemma_pow2_adds((e - 1) as nat, k as nat);
        }
        if k > 23 {
            proof {
                if k > 24 {
                    lemma_pow2_strictly_increases(24, k as nat);
                }
                assert(s * p < u) by (nonlinear_arith)
                    requires
                        u == p * pow2(k as nat),
                        s < pow2(k as nat),
                        p > 0,
                ;
                assert(0 * u == 0 && (0 + 1) * u == u) by (nonlinear_arith);
                assert(s == 0 <==> s * p == 0) by (nonlinear_arith)
                    requires
                        p > 0,
                        s >= 0,
                ;
            }
            (0, s == 0)
        } else {
            let unit: u64 = 1u64 << k;
            proof {
                lemma_pow2_strictly_increases(0, k as nat);
                if k < 23 {
                    lemma_pow2_strictly_increases(k as nat, 23);
                }
                vstd::bits::lemma_u64_shl_is_mul(1, k);
                vstd::arithmetic::div_mod::lemma_fundamental_div_mod(s as int, unit as int);
            }
            let q: u64 = s / unit;
            let rest: u64 = s % unit;
            proof {
                assert(m == q * u + rest * p) by (nonlinear_arith)
                    requires
                        m == s * p,
                        s == unit * q + rest,
                        u == p * unit,
                ;
                assert(0 <= rest * p < u) by (nonlinear_arith)
                    requires
                        0 <= rest < unit,
                        u == p * unit,
                        p > 0,
                ;
                assert(rest == 0 <==> rest * p == 0) by (nonlinear_arith)
                    requires
                        p > 0,
                        rest >= 0,
                ;
                assert((q + 1) * u == q * u + u) by (nonlinear_arith);
            }
            (q, rest == 0)
        }
    }
}

/// Magnitudes from 2^-11 on, which is where the coarse steps are exact, are at
/// least 2^23 coarse steps.
proof fn lemma_exact_from(b: nat)
    ensures
        b < 116 * 0x80_0000 ==> ieee::magnitude(b) < 0x80_0000 * pow2(115),
{
    ieee::lemma_scaled(115, 0x80_0000);
    if b < 116 * 0x80_0000 {
        ieee::lemma_magnitude_ordered(b, 116 * 0x80_0000);
    }
}

/// Scaling down an inequality between multiples of the same step.
proof fn lemma_steps(x: int, y: int, u: int)
    requires
        u > 0,
    ensures
        x <= y <==> x * u <= y * u,
        x < y <==> x * u < y * u,
        (x + y) * u == x * u + y * u,
        (x - y) * u == x * u - y * u,
{
    assert(x <= y <==> x * u <= y * u) by (nonlinear_arith)
        requires
            u > 0,
    ;
    assert(x < y <==> x * u < y * u) by (nonlinear_arith)
        requires
            u > 0,
    ;
    assert((x + y) * u == x * u + y * u) by (nonlinear_arith);
    assert((x - y) * u == x * u - y * u) by (nonlinear_arith);
}

/// Whether an axis that was at `b` and is now at `a` has moved.
pub fn has_moved(a: Single, b: Single) -> (r: bool)
    requires
        a.within_one() || a.is_nan(),
        b.within_one() || b.is_nan(),
    ensures
        r == moved(a, b),
{
    let (x, y): (u32, u32) = (a.bits % ieee::SINGLE_SIGN, b.bits % ieee::SINGLE_SIGN);
    if x > ieee::SINGLE_INFINITY || y > ieee::SINGLE_INFINITY {
        return false;
    }
    proof {
        ieee::lemma_at_most_one(x as nat);
        ieee::lemma_at_most_one(y as nat);
        lemma_moved_from_halfway(a, b);
        lemma_pow2_pos(115);
        lemma_exact_from(x as nat);
        lemma_exact_from(y as nat);
    }
    let ghost u = pow2(115) as int;
    let ghost (mx, my) = (
        ieee::magnitude(x as nat) as int,
        ieee::magnitude(y as nat) as int,
    );
    let (p, p_exact): (u64, bool) = coarse(x);
    let (q, q_exact): (u64, bool) = coarse(y);
    if (a.bits >= ieee::SINGLE_SIGN) != (b.bits >= ieee::SINGLE_SIGN) {
        proof {
            assert(distance(a, b) == mx + my);
            lemma_steps(p as int, q as int, u);
            lemma_steps(0x1ff_ffff, p + q, u);
            lemma_steps(0x1ff_ffff, p as int, u);
            lemma_steps(0x1ff_ffff, q as int, u);
            lemma_steps(0x1ff_ffff - p, q + 1, u);
            lemma_steps(0x1ff_ffff - q, p + 1, u);
        }
        p + q >= HALFWAY
    } else {
        let (hi, lo, lo_exact): (u64, u64, bool) = if x >= y {
            (p, q, q_exact)
        } else {
            (q, p, p_exact)
        };
        proof {
            if x > y {
                ieee::lemma_magnitude_ordered(y as nat, x as nat);
            } else if x < y {
                ieee::lemma_magnitude_ordered(x as nat, y as nat);
            }
            let (big, small) = if x >= y {
                (mx, my)
            } else {
                (my, mx)
            };
            assert(distance(a, b) == big - small);
            let up = if lo_exact {
                lo as int
            } else {
                lo + 1
            };
            lemma_steps(hi as int, up, u);
            lemma_steps(0x1ff_ffff, hi - up, u);
            lemma_steps(0x1ff_ffff, 0x80_0000, u);
            lemma_steps(hi - 0x1ff_ffff, lo as int, u);
            lemma_steps(hi as int, 0x1ff_ffff, u);
        }
        let up: u64 = if lo_exact {
            lo
        } else {
            lo + 1
        };
        hi >= up + HALFWAY
    }
}

} // verus!
