//! What axis values are, over bit patterns and exact values alone.

use crate::ieee;
use crate::ieee::{Double, Single};
use crate::laws::values;
use crate::motion;
use vstd::arithmetic::power2::*;
use vstd::prelude::*;

verus! {

/// The exact value of a double, in steps of 2^-1074.
pub open spec fn exact(d: Double) -> int {
    if d.bits >= 0x8000_0000_0000_0000 {
        -ieee::double_magnitude(d.encoded())
    } else {
        ieee::double_magnitude(d.encoded()) as int
    }
}

/// Encodings of binary32 numbers count in steps of 2^-149 up to 2^24 of them,
/// and from there on each stands for twice what the one 2^23 below stands for.
/// The highest bit is the sign, and what is above infinity is no number.
pub proof fn law_single_encoding(b: u32)
    requires
        b < 0x8000_0000,
    ensures
        b < 0x100_0000 ==> (Single { bits: b }).steps() == b,
        b >= 0x100_0000 ==> (Single { bits: b }).steps() == 2 * (Single {
            bits: (b - 0x80_0000) as u32,
        }).steps(),
        (Single { bits: (b + 0x8000_0000) as u32 }).steps() == -(Single { bits: b }).steps(),
        (Single { bits: b }).is_nan() <==> b > 0x7f80_0000,
        (Single { bits: (b + 0x8000_0000) as u32 }).is_nan() <==> b > 0x7f80_0000,
{
    let e = b as nat / 0x80_0000;
    lemma2_to64();
    if b >= 0x100_0000 {
        let c = (b - 0x80_0000) as nat;
        assert(c / 0x80_0000 == e - 1 && c % 0x80_0000 == b as nat % 0x80_0000);
        lemma_pow2_unfold((e - 1) as nat);
        let s = 0x80_0000 + b as nat % 0x80_0000;
        assert(s * (2 * pow2((e - 2) as nat)) == 2 * (s * pow2((e - 2) as nat)))
            by (nonlinear_arith);
    } else if b >= 0x80_0000 {
        assert(e == 1);
        assert(b * pow2(0) == b) by (nonlinear_arith)
            requires
                pow2(0) == 1,
        ;
    }
}

/// Encodings of binary64 numbers count in steps of 2^-1074 up to 2^53 of them,
/// and from there on each stands for twice what the one 2^52 below stands for.
/// The highest bit is the sign, and what is above infinity is no number.
pub proof fn law_double_encoding(b: u64)
    requires
        b < 0x8000_0000_0000_0000,
    ensures
        b < 0x20_0000_0000_0000 ==> exact(Double { bits: b }) == b,
        b >= 0x20_0000_0000_0000 ==> exact(Double { bits: b }) == 2 * exact(
            Double { bits: (b - 0x10_0000_0000_0000) as u64 },
        ),
        exact(Double { bits: (b + 0x8000_0000_0000_0000) as u64 }) == -exact(Double { bits: b }),
        (Double { bits: b }).is_nan() <==> b > 0x7ff0_0000_0000_0000,
        (Double { bits: (b + 0x8000_0000_0000_0000) as u64 }).is_nan() <==> b
            > 0x7ff0_0000_0000_0000,
{
    let e = b as nat / 0x10_0000_0000_0000;
    lemma2_to64();
    if b >= 0x20_0000_0000_0000 {
        let c = (b - 0x10_0000_0000_0000) as nat;
        assert(c / 0x10_0000_0000_0000 == e - 1 && c % 0x10_0000_0000_0000 == b as nat
            % 0x10_0000_0000_0000);
        lemma_pow2_unfold((e - 1) as nat);
        let s = 0x10_0000_0000_0000 + b as nat % 0x10_0000_0000_0000;
        assert(s * (2 * pow2((e - 2) as nat)) == 2 * (s * pow2((e - 2) as nat)))
            by (nonlinear_arith);
    } else if b >= 0x10_0000_0000_0000 {
        assert(e == 1);
        assert(b * pow2(0) == b) by (nonlinear_arith)
            requires
                pow2(0) == 1,
        ;
    }
}

/// Whether a binary32 number is neither infinite nor no number.
pub open spec fn finite(v: Single) -> bool {
    v.bits % 0x8000_0000 < 0x7f80_0000
}

/// How far a binary32 number is from `num / den` steps of 2^-149, in parts of
/// `den`.
pub open spec fn off(v: Single, num: int, den: int) -> int {
    let d = v.steps() * den - num;
    if d < 0 {
        -d
    } else {
        d
    }
}

/// Whether no binary32 number is closer to `num / den` steps of 2^-149, and an
/// even one was taken where another is as close.
pub open spec fn closest(v: Single, num: int, den: int) -> bool {
    &&& finite(v)
    &&& forall|c: Single| #[trigger]
        finite(c) ==> off(v, num, den) < off(c, num, den) || (off(v, num, den) == off(c, num, den)
            && (c.steps() == v.steps() || v.bits % 2 == 0))
}

/// A number between two bounds.
pub open spec fn clamped(x: int, lo: int, hi: int) -> int {
    if x < lo {
        lo
    } else if x > hi {
        hi
    } else {
        x
    }
}

proof fn lemma_closest(negative: bool, b: nat, num: nat, den: nat)
    requires
        den > 0,
        b <= ieee::SINGLE_ONE,
        ieee::nearest(b, num, den),
    ensures
        closest(
            ieee::single(negative, b),
            if negative {
                -num
            } else {
                num as int
            },
            den as int,
        ),
{
    let v = ieee::single(negative, b);
    let x = if negative {
        -num
    } else {
        num as int
    };
    let m = ieee::magnitude(b);
    ieee::lemma_single(negative, b);
    assert(-m * den == -(m * den)) by (nonlinear_arith);
    assert(off(v, x, den as int) == ieee::gap(b, num, den));
    assert forall|c: Single| #[trigger] finite(c) implies off(v, x, den as int) < off(
        c,
        x,
        den as int,
    ) || (off(v, x, den as int) == off(c, x, den as int) && (c.steps() == v.steps() || v.bits % 2
        == 0)) by {
        let e = c.encoded();
        let n = ieee::magnitude(e);
        assert(-n * den == -(n * den)) by (nonlinear_arith);
        assert(n * den >= 0) by (nonlinear_arith);
        assert(off(c, x, den as int) >= ieee::gap(e, num, den));
        assert(ieee::gap(e, num, den) >= ieee::gap(b, num, den));
        if e == b && c.negative() != negative && off(c, x, den as int) == ieee::gap(b, num, den) {
            assert(ieee::magnitude(0) * den == 0) by (nonlinear_arith)
                requires
                    ieee::magnitude(0) == 0,
            ;
            assert(ieee::gap(0, num, den) == num);
            assert(n == 0) by (nonlinear_arith)
                requires
                    n * den == 0,
                    den > 0,
            ;
        }
    }
}

/// A stick reading gives the binary32 number closest to its exact value clamped
/// to [-1, 1], with its own sign.
pub proof fn law_stick_is_closest(d: Double)
    requires
        !d.is_nan(),
    ensures
        closest(
            ieee::stick_of(d),
            clamped(exact(d), -pow2(1074), pow2(1074) as int),
            pow2(925) as int,
        ),
        ieee::stick_of(d).bits >= 0x8000_0000 <==> d.bits >= 0x8000_0000_0000_0000,
{
    lemma_narrowed_nearest(d);
    lemma_closest(d.negative(), ieee::narrowed(d), lesser(d), pow2(925));
    ieee::lemma_single(d.negative(), ieee::narrowed(d));
}

/// The magnitude of a double, or one if that is less.
spec fn lesser(d: Double) -> nat {
    if ieee::double_magnitude(d.encoded()) < pow2(1074) {
        ieee::double_magnitude(d.encoded())
    } else {
        pow2(1074)
    }
}

proof fn lemma_narrowed_nearest(d: Double)
    ensures
        ieee::nearest(ieee::narrowed(d), lesser(d), pow2(925)),
        ieee::narrowed(d) <= ieee::SINGLE_ONE,
        ieee::magnitude(ieee::SINGLE_ONE as nat) * pow2(925) == pow2(1074),
        pow2(925) > 0,
        d.encoded() == 0 ==> ieee::narrowed(d) == 0,
{
    ieee::lemma_one();
    lemma_pow2_pos(925);
    lemma_pow2_adds(149, 925);
    ieee::lemma_rounded_exists(ieee::SINGLE_ONE as nat, lesser(d), pow2(925));
    values::lemma_narrowed_at_most_one(d);
}

/// A trigger reading gives the binary32 number closest to its exact value
/// clamped to [0, 1]. It is positive, but for a negative zero.
pub proof fn law_trigger_is_closest(d: Double)
    requires
        !d.is_nan(),
    ensures
        closest(
            ieee::trigger_of(d),
            clamped(exact(d), 0, pow2(1074) as int),
            pow2(925) as int,
        ),
        ieee::trigger_of(d).bits >= 0x8000_0000 <==> d.bits == 0x8000_0000_0000_0000,
{
    lemma_narrowed_nearest(d);
    let zero = Double { bits: 0 };
    lemma_narrowed_nearest(zero);
    law_double_encoding(0);
    lemma_pow2_pos(1074);
    if d.negative() && d.encoded() > 0 {
        lemma_double_positive(d.encoded());
        lemma_closest(false, 0, 0, pow2(925));
        ieee::lemma_single(false, 0);
    } else {
        lemma_closest(d.negative(), ieee::narrowed(d), lesser(d), pow2(925));
        ieee::lemma_single(d.negative(), ieee::narrowed(d));
    }
}

proof fn lemma_double_positive(b: nat)
    requires
        b > 0,
    ensures
        ieee::double_magnitude(b) > 0,
{
    if b >= 0x10_0000_0000_0000 {
        let p = pow2((b / 0x10_0000_0000_0000 - 1) as nat);
        lemma_pow2_pos((b / 0x10_0000_0000_0000 - 1) as nat);
        assert((0x10_0000_0000_0000 + b % 0x10_0000_0000_0000) * p > 0) by (nonlinear_arith)
            requires
                p > 0,
        ;
    }
}

/// A stick or trigger reading that is no number gives no number.
pub proof fn law_no_number_gives_none(d: Double)
    requires
        d.is_nan(),
    ensures
        ieee::stick_of(d).is_nan(),
        ieee::trigger_of(d).is_nan(),
{
}

/// A raw 16-bit reading gives the binary32 number closest to its quotient by
/// 0x7fff clamped to [-1, 1], with its own sign.
pub proof fn law_normal_is_closest(raw: i16)
    ensures
        closest(ieee::normal_of(raw), clamped(raw as int, -0x7fff, 0x7fff) * pow2(149), 0x7fff),
        ieee::normal_of(raw).bits >= 0x8000_0000 <==> raw < 0,
{
    let n: nat = if raw >= 0 {
        raw as nat
    } else if raw > -0x8000 {
        (-raw) as nat
    } else {
        0x7fff
    };
    ieee::lemma_one();
    assert(n * pow2(149) <= pow2(149) * 0x7fff) by (nonlinear_arith)
        requires
            n <= 0x7fff,
    ;
    ieee::lemma_rounded_exists(ieee::SINGLE_ONE as nat, n * pow2(149), 0x7fff);
    values::law_rounding_keeps_order(n * pow2(149), pow2(149) * 0x7fff, 0x7fff);
    ieee::lemma_rounded_exact(ieee::SINGLE_ONE as nat, pow2(149) * 0x7fff, 0x7fff);
    let b = ieee::rounded(n * pow2(149), 0x7fff);
    lemma_closest(raw < 0, b, n * pow2(149), 0x7fff);
    ieee::lemma_single(raw < 0, b);
    assert(-n * pow2(149) == -(n * pow2(149))) by (nonlinear_arith);
}

/// A larger stick reading gives no smaller value.
pub proof fn law_sticks_keep_order(d: Double, e: Double)
    requires
        !d.is_nan(),
        !e.is_nan(),
        exact(d) <= exact(e),
    ensures
        ieee::stick_of(d).steps() <= ieee::stick_of(e).steps(),
{
    lemma_narrowed_nearest(d);
    lemma_narrowed_nearest(e);
    ieee::lemma_single(d.negative(), ieee::narrowed(d));
    ieee::lemma_single(e.negative(), ieee::narrowed(e));
    if d.negative() && e.negative() {
        lemma_narrowed_ordered(e, d);
    } else if !d.negative() && !e.negative() {
        lemma_narrowed_ordered(d, e);
    } else if e.negative() {
        if d.encoded() > 0 {
            lemma_double_positive(d.encoded());
        }
        if e.encoded() > 0 {
            lemma_double_positive(e.encoded());
        }
    }
}

/// A larger trigger reading gives no smaller value.
pub proof fn law_triggers_keep_order(d: Double, e: Double)
    requires
        !d.is_nan(),
        !e.is_nan(),
        exact(d) <= exact(e),
    ensures
        ieee::trigger_of(d).steps() <= ieee::trigger_of(e).steps(),
{
    values::law_triggers_in_range(d);
    values::law_triggers_in_range(e);
    lemma_narrowed_nearest(d);
    lemma_narrowed_nearest(e);
    ieee::lemma_single(d.negative(), ieee::narrowed(d));
    ieee::lemma_single(e.negative(), ieee::narrowed(e));
    ieee::lemma_single(false, 0);
    if !d.negative() && !e.negative() {
        lemma_narrowed_ordered(d, e);
    } else if !d.negative() && e.encoded() > 0 {
        lemma_double_positive(e.encoded());
    } else if !d.negative() && d.encoded() > 0 {
        lemma_double_positive(d.encoded());
    }
}

/// Zero reads as zero.
pub proof fn lemma_zero_reads_zero()
    ensures
        ieee::stick_of(Double { bits: 0 }).steps() == 0,
        ieee::trigger_of(Double { bits: 0 }).steps() == 0,
        !(Double { bits: 0 }).is_nan(),
{
    lemma_narrowed_nearest(Double { bits: 0 });
    ieee::lemma_single(false, 0);
}

proof fn lemma_narrowed_ordered(d: Double, e: Double)
    requires
        ieee::double_magnitude(d.encoded()) <= ieee::double_magnitude(e.encoded()),
    ensures
        ieee::magnitude(ieee::narrowed(d)) <= ieee::magnitude(ieee::narrowed(e)),
{
    lemma_narrowed_nearest(d);
    values::law_rounding_keeps_order(lesser(d), lesser(e), pow2(925));
    if ieee::narrowed(d) < ieee::narrowed(e) {
        ieee::lemma_magnitude_ordered(ieee::narrowed(d), ieee::narrowed(e));
    }
}

/// A short count of steps of a power of two is a binary32 magnitude: its
/// significand is the count, doubled until it is full.
proof fn lemma_dyadic(k: nat, t: nat, n: nat) -> (c: nat)
    requires
        n <= 23,
        t >= 23,
        0 < k < 0x80_0000,
        k * pow2(n) < 0x100_0000,
        k * pow2(t) <= pow2(149),
        pow2(23) == 0x80_0000,
    ensures
        ieee::magnitude(c) == k * pow2(t),
        c <= ieee::SINGLE_ONE,
    decreases 24 - n,
{
    let q = k * pow2(n);
    let u = (t - n) as nat;
    lemma_pow2_adds(n, u);
    assert(q * pow2(u) == k * pow2(t)) by (nonlinear_arith)
        requires
            q == k * pow2(n),
            pow2(t) == pow2(n) * pow2(u),
    ;
    if q >= 0x80_0000 {
        ieee::lemma_scaled(u, q);
        ieee::lemma_at_most_one(u * 0x80_0000 + q);
        u * 0x80_0000 + q
    } else {
        if n == 23 {
            assert(k * pow2(n) >= 0x80_0000) by (nonlinear_arith)
                requires
                    k >= 1,
                    pow2(n) == 0x80_0000,
            ;
        }
        lemma_pow2_unfold(n + 1);
        assert(k * (2 * pow2(n)) == 2 * q) by (nonlinear_arith)
            requires
                q == k * pow2(n),
        ;
        lemma_dyadic(k, t, n + 1)
    }
}

/// Quotients of successive counts by 0x7fff are further apart than binary32
/// numbers are: one of them lies on either side of a count of 2^-16.
proof fn lemma_quotients_apart(n: nat)
    requires
        n < 0x7fff,
    ensures
        ieee::rounded(n * pow2(149), 0x7fff) < ieee::rounded((n + 1) * pow2(149), 0x7fff),
        ieee::rounded((n + 1) * pow2(149), 0x7fff) <= ieee::SINGLE_ONE,
{
    let p = pow2(133);
    lemma2_to64();
    lemma_pow2_pos(133);
    lemma_pow2_adds(16, 133);
    ieee::lemma_one();
    assert(pow2(149) == 65536 * p);
    let (x, y) = (n * pow2(149), (n + 1) * pow2(149));
    assert(x == 65536 * n * p && y == 65536 * (n + 1) * p) by (nonlinear_arith)
        requires
            x == n * pow2(149),
            y == (n + 1) * pow2(149),
            pow2(149) == 65536 * p,
    ;
    let k: nat = if n < 16384 {
        2 * n + 1
    } else {
        2 * n + 2
    };
    assert(k * p < (k + 1) * p && (k + 1) * p <= pow2(149) && k * p <= pow2(149))
        by (nonlinear_arith)
        requires
            p > 0,
            k + 1 <= 65536,
            pow2(149) == 65536 * p,
    ;
    assert(k * pow2(0) == k && (k + 1) * pow2(0) == k + 1) by (nonlinear_arith)
        requires
            pow2(0) == 1,
    ;
    let c = lemma_dyadic(k, 133, 0);
    let d = lemma_dyadic(k + 1, 133, 0);
    assert(x <= (k * p) * 0x7fff) by (nonlinear_arith)
        requires
            x == 65536 * n * p,
            65536 * n <= k * 0x7fff,
            p > 0,
    ;
    assert((((k + 1) * p) * 0x7fff) <= y) by (nonlinear_arith)
        requires
            y == 65536 * (n + 1) * p,
            (k + 1) * 0x7fff <= 65536 * (n + 1),
            p > 0,
    ;
    assert(y <= pow2(149) * 0x7fff) by (nonlinear_arith)
        requires
            y == (n + 1) * pow2(149),
            n + 1 <= 0x7fff,
    ;
    ieee::lemma_at_most_one(c);
    ieee::lemma_at_most_one(d);
    assert(ieee::magnitude(c) * 0x7fff <= pow2(149) * 0x7fff);
    values::law_rounding_keeps_order(x, ieee::magnitude(c) * 0x7fff, 0x7fff);
    values::law_rounding_keeps_order(ieee::magnitude(d) * 0x7fff, y, 0x7fff);
    values::law_rounding_keeps_order(y, pow2(149) * 0x7fff, 0x7fff);
    ieee::lemma_rounded_exact(c, ieee::magnitude(c) * 0x7fff, 0x7fff);
    ieee::lemma_rounded_exact(d, ieee::magnitude(d) * 0x7fff, 0x7fff);
    ieee::lemma_rounded_exact(ieee::SINGLE_ONE as nat, pow2(149) * 0x7fff, 0x7fff);
    if d <= c {
        if d < c {
            ieee::lemma_magnitude_ordered(d, c);
        }
    }
}

/// Different raw readings give different values in the same order, but for the
/// lowest one, which is clamped to the one above it. So only zero gives zero.
pub proof fn law_raw_order_is_strict(a: i16, b: i16)
    requires
        -0x8000 < a < b,
    ensures
        ieee::normal_of(a).steps() < ieee::normal_of(b).steps(),
        ieee::normal_of(0).steps() == 0,
{
    lemma_strict_from_next(a);
    values::law_raw_order_is_kept((a + 1) as i16, b);
    assert(0 * pow2(149) == 0);
    ieee::lemma_rounded_exact(0, 0, 0x7fff);
    ieee::lemma_single(false, 0);
}

proof fn lemma_strict_from_next(a: i16)
    requires
        -0x8000 < a < 0x7fff,
    ensures
        ieee::normal_of(a).steps() < ieee::normal_of((a + 1) as i16).steps(),
{
    let b = (a + 1) as i16;
    let (m, n): (nat, nat) = if a >= 0 {
        (a as nat, b as nat)
    } else {
        ((-a) as nat, (-b) as nat)
    };
    let (x, y) = (
        ieee::rounded(m * pow2(149), 0x7fff),
        ieee::rounded(n * pow2(149), 0x7fff),
    );
    if a >= 0 {
        lemma_quotients_apart(m);
        ieee::lemma_magnitude_ordered(x, y);
    } else {
        lemma_quotients_apart(n);
        ieee::lemma_magnitude_ordered(y, x);
    }
    ieee::lemma_single(a < 0, x);
    ieee::lemma_single(b < 0, y);
    if b == 0 {
        assert(0 * pow2(149) == 0);
        ieee::lemma_rounded_exact(0, 0, 0x7fff);
    }
}

/// An axis has moved if its values are 1/512 apart or more, or less than that
/// by no more than 2^-34, and not otherwise.
pub proof fn law_motion_is_distance(a: Single, b: Single)
    requires
        -pow2(149) <= a.steps() <= pow2(149),
        -pow2(149) <= b.steps() <= pow2(149),
    ensures
        motion::moved(a, b) <==> {
            ||| a.steps() - b.steps() >= pow2(140) - pow2(115)
            ||| b.steps() - a.steps() >= pow2(140) - pow2(115)
        },
{
    values::law_motion_threshold(a, b);
}

} // verus!
