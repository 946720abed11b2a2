//! What holds of axis values.

use crate::ieee;
use crate::ieee::{Double, Single};
use crate::motion;
use vstd::arithmetic::power2::*;
use vstd::prelude::*;

verus! {

/// A larger value rounds to no smaller one.
pub proof fn law_rounding_keeps_order(x: nat, y: nat, den: nat)
    requires
        den > 0,
        x <= y,
        y <= ieee::magnitude(ieee::SINGLE_ONE as nat) * den,
    ensures
        ieee::rounded(x, den) <= ieee::rounded(y, den),
{
    ieee::lemma_rounded_exists(ieee::SINGLE_ONE as nat, x, den);
    ieee::lemma_rounded_exists(ieee::SINGLE_ONE as nat, y, den);
    let (a, b) = (ieee::rounded(x, den), ieee::rounded(y, den));
    if a > b {
        ieee::lemma_magnitude_ordered(b, a);
        assert(ieee::magnitude(b) * den < ieee::magnitude(a) * den) by (nonlinear_arith)
            requires
                ieee::magnitude(b) < ieee::magnitude(a),
                den > 0,
        ;
        assert(ieee::gap(a, x, den) <= ieee::gap(b, x, den));
        assert(ieee::gap(b, y, den) <= ieee::gap(a, y, den));
        assert(x == y);
    }
}

/// The parts of a normalized raw reading.
proof fn lemma_normal(raw: i16, n: nat)
    requires
        raw >= 0 ==> n == raw,
        -0x8000 < raw < 0 ==> n == -raw,
        raw == -0x8000 ==> n == 0x7fff,
    ensures
        ieee::rounded(n * pow2(149), 0x7fff) <= ieee::SINGLE_ONE,
        ieee::normal_of(raw).steps() == if raw < 0 {
            -ieee::magnitude(ieee::rounded(n * pow2(149), 0x7fff))
        } else {
            ieee::magnitude(ieee::rounded(n * pow2(149), 0x7fff)) as int
        },
{
    ieee::lemma_one();
    assert(n * pow2(149) <= pow2(149) * 0x7fff) by (nonlinear_arith)
        requires
            n <= 0x7fff,
    ;
    assert(0x7fff * pow2(149) == pow2(149) * 0x7fff);
    law_rounding_keeps_order(n * pow2(149), 0x7fff * pow2(149), 0x7fff);
    ieee::lemma_rounded_exact(ieee::SINGLE_ONE as nat, 0x7fff * pow2(149), 0x7fff);
    ieee::lemma_single(raw < 0, ieee::rounded(n * pow2(149), 0x7fff));
}

/// Dividing a raw reading by 0x7fff and clamping it leaves it between minus one
/// and one, and between zero and one where it is not negative.
pub proof fn law_normal_in_range(raw: i16)
    ensures
        ieee::normal_of(raw).within_one(),
        raw >= 0 ==> ieee::normal_of(raw).within_unit(),
{
    let n: nat = if raw >= 0 {
        raw as nat
    } else if raw > -0x8000 {
        (-raw) as nat
    } else {
        0x7fff
    };
    lemma_normal(raw, n);
    ieee::lemma_at_most_one(ieee::rounded(n * pow2(149), 0x7fff));
}

/// The order of raw readings is kept, and so the sign convention of the
/// device: a reading further up or left never gives a larger value.
pub proof fn law_raw_order_is_kept(a: i16, b: i16)
    requires
        a <= b,
    ensures
        ieee::normal_of(a).steps() <= ieee::normal_of(b).steps(),
{
    let m: nat = if a >= 0 {
        a as nat
    } else if a > -0x8000 {
        (-a) as nat
    } else {
        0x7fff
    };
    let n: nat = if b >= 0 {
        b as nat
    } else if b > -0x8000 {
        (-b) as nat
    } else {
        0x7fff
    };
    lemma_normal(a, m);
    lemma_normal(b, n);
    let (lo, hi) = if m <= n {
        (m, n)
    } else {
        (n, m)
    };
    ieee::lemma_one();
    assert(lo * pow2(149) <= hi * pow2(149) <= pow2(149) * 0x7fff) by (nonlinear_arith)
        requires
            lo <= hi <= 0x7fff,
    ;
    law_rounding_keeps_order(lo * pow2(149), hi * pow2(149), 0x7fff);
    let (x, y) = (
        ieee::rounded(lo * pow2(149), 0x7fff),
        ieee::rounded(hi * pow2(149), 0x7fff),
    );
    if x < y {
        ieee::lemma_magnitude_ordered(x, y);
    }
}

/// Opposite raw readings give opposite values.
pub proof fn law_raw_readings_are_symmetric(a: i16)
    requires
        a != -0x8000,
    ensures
        ieee::normal_of((-a) as i16).steps() == -ieee::normal_of(a).steps(),
{
    let n: nat = if a >= 0 {
        a as nat
    } else {
        (-a) as nat
    };
    lemma_normal(a, n);
    lemma_normal((-a) as i16, n);
    if a == 0 {
        assert(0 * pow2(149) == 0);
        ieee::lemma_rounded_exact(0, 0, 0x7fff);
    }
}

/// Clamping a reading from a browser and rounding it leaves it between minus
/// one and one, if it is a number.
pub proof fn law_sticks_in_range(d: Double)
    ensures
        ieee::stick_of(d).is_nan() == d.is_nan(),
        !d.is_nan() ==> ieee::stick_of(d).within_one(),
{
    lemma_narrowed_at_most_one(d);
    ieee::lemma_single(d.negative(), ieee::narrowed(d));
}

/// Clamping a trigger's reading from a browser and rounding it leaves it
/// between zero and one, if it is a number.
pub proof fn law_triggers_in_range(d: Double)
    ensures
        ieee::trigger_of(d).is_nan() == d.is_nan(),
        !d.is_nan() ==> ieee::trigger_of(d).within_unit(),
{
    lemma_narrowed_at_most_one(d);
    ieee::lemma_single(d.negative(), ieee::narrowed(d));
    ieee::lemma_single(false, 0);
}

pub proof fn lemma_narrowed_at_most_one(d: Double)
    ensures
        ieee::narrowed(d) <= ieee::SINGLE_ONE,
        d.encoded() == 0 ==> ieee::narrowed(d) == 0,
{
    let m = ieee::double_magnitude(d.encoded());
    let num = if m < pow2(1074) {
        m
    } else {
        pow2(1074)
    };
    ieee::lemma_one();
    lemma_pow2_pos(925);
    lemma_pow2_pos(1074);
    lemma_pow2_adds(149, 925);
    law_rounding_keeps_order(num, pow2(1074), pow2(925));
    ieee::lemma_rounded_exact(ieee::SINGLE_ONE as nat, pow2(1074), pow2(925));
    if d.encoded() == 0 {
        assert(ieee::magnitude(0) * pow2(925) == 0) by (nonlinear_arith)
            requires
                ieee::magnitude(0) == 0,
        ;
        ieee::lemma_rounded_exact(0, 0, pow2(925));
    }
}

/// An axis has not moved from where it is.
pub proof fn law_rest_is_no_motion(a: Single)
    ensures
        !motion::moved(a, a),
{
    ieee::lemma_rounded_exact(0, 0, 1);
}

/// What is not a number is never a motion, and nothing moves from it.
pub proof fn law_no_number_is_no_motion(a: Single, b: Single)
    requires
        a.is_nan() || b.is_nan(),
    ensures
        !motion::moved(a, b),
{
}

/// Moving there is as far as moving back.
pub proof fn law_motion_is_symmetric(a: Single, b: Single)
    ensures
        motion::moved(a, b) == motion::moved(b, a),
{
    assert(motion::distance(a, b) == motion::distance(b, a));
}

/// An axis that moves by 1/512 or more has moved, and one that moves by less
/// has not, but for what rounds up to 1/512: less than that by 2^-34 at most.
pub proof fn law_motion_threshold(a: Single, b: Single)
    requires
        a.within_one(),
        b.within_one(),
    ensures
        motion::moved(a, b) <==> motion::distance(a, b) + pow2(115) >= pow2(140),
{
    motion::lemma_moved_from_halfway(a, b);
    lemma2_to64();
    lemma_pow2_adds(25, 115);
}

} // verus!
