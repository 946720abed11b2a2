//! Axis values as IEEE 754 bit patterns.
//!
//! An axis value is a binary32 number between -1 and 1, and a browser reports
//! it as a binary64 number. Both are held here as the integers that encode
//! them, so that clamping, rounding and comparing are integer functions whose
//! results are stated over exact multiples of the smallest number of each
//! format.

use vstd::arithmetic::power2::*;
use vstd::prelude::*;

verus! {

/// A binary32 number, by its encoding.
#[derive(Clone, Copy, Debug, PartialEq, Eq, Structural, Hash)]
pub struct Single {
    pub bits: u32,
}

/// A binary64 number, by its encoding.
#[derive(Clone, Copy, Debug, PartialEq, Eq, Structural, Hash)]
pub struct Double {
    pub bits: u64,
}

/// The encoding of the binary32 infinity: every finite magnitude is encoded
/// below it, and the magnitudes above it are not numbers.
pub const SINGLE_INFINITY: u32 = 0x7f80_0000;

/// The encoding that stands for what is not a number. There are many, and which
/// of them comes of one that is rounded to binary32 makes no difference.
pub const SINGLE_NAN: u32 = 0x7fc0_0000;

/// The encoding of the binary32 number 1.
pub const SINGLE_ONE: u32 = 0x3f80_0000;

/// The bit that makes a binary32 number negative.
pub const SINGLE_SIGN: u32 = 0x8000_0000;

/// The encoding of the binary64 infinity: the magnitudes above it are not numbers.
pub const DOUBLE_INFINITY: u64 = 0x7ff0_0000_0000_0000;

/// The encoding of the binary64 number 1.
pub const DOUBLE_ONE: u64 = 0x3ff0_0000_0000_0000;

/// The bit that makes a binary64 number negative.
pub const DOUBLE_SIGN: u64 = 0x8000_0000_0000_0000;

/// The absolute value that the binary32 encoding `b` (without its sign) stands
/// for, in steps of 2^-149.
pub open spec fn magnitude(b: nat) -> nat {
    if b < 0x80_0000 {
        b
    } else {
        (0x80_0000 + b % 0x80_0000) * pow2((b / 0x80_0000 - 1) as nat)
    }
}

/// The absolute value that the binary64 encoding `b` (without its sign) stands
/// for, in steps of 2^-1074.
pub open spec fn double_magnitude(b: nat) -> nat {
    if b < 0x10_0000_0000_0000 {
        b
    } else {
        (0x10_0000_0000_0000 + b % 0x10_0000_0000_0000) * pow2(
            (b / 0x10_0000_0000_0000 - 1) as nat,
        )
    }
}

/// How far the binary32 encoding `b` is from `num / den`, in steps of 2^-149 / `den`.
pub open spec fn gap(b: nat, num: nat, den: nat) -> int {
    let d = magnitude(b) * den - num;
    if d < 0 {
        -d
    } else {
        d
    }
}

/// Whether `b` encodes the finite binary32 magnitude that `num / den` steps of
/// 2^-149 round to: the nearest one, and of two equally near ones the even one.
pub open spec fn nearest(b: nat, num: nat, den: nat) -> bool {
    &&& b < SINGLE_INFINITY
    &&& forall|c: nat|
        #![trigger gap(c, num, den)]
        c < SINGLE_INFINITY && c != b ==> gap(b, num, den) < gap(c, num, den) || (gap(b, num, den)
            == gap(c, num, den) && b % 2 == 0)
}

/// The encoding of the binary32 magnitude that `num / den` steps of 2^-149 round to.
pub open spec fn rounded(num: nat, den: nat) -> nat {
    choose|b: nat| nearest(b, num, den)
}

/// The binary32 number of a sign and an encoded magnitude.
pub open spec fn single(negative: bool, b: nat) -> Single {
    Single {
        bits: (if negative {
            SINGLE_SIGN + b
        } else {
            b as int
        }) as u32,
    }
}

/// An encoding whose significand is `q` steps of 2^(t - 149) stands for that many.
pub proof fn lemma_scaled(t: nat, q: nat)
    requires
        q <= 0x100_0000,
        t == 0 || q >= 0x80_0000,
    ensures
        magnitude(t * 0x80_0000 + q) == q * pow2(t),
{
    let b = t * 0x80_0000 + q;
    lemma_pow2_adds(t, 1);
    assert(pow2(0) == 1 && pow2(1) == 2) by {
        lemma2_to64();
    }
    if q < 0x80_0000 {
        assert(b == q);
        assert(q * pow2(t) == q) by (nonlinear_arith)
            requires
                pow2(t) == 1,
        ;
    } else if q < 0x100_0000 {
        assert(b / 0x80_0000 == t + 1);
        assert(b % 0x80_0000 == q - 0x80_0000);
    } else {
        assert(b / 0x80_0000 == t + 2);
        assert(b % 0x80_0000 == 0);
        assert(0x80_0000 * (pow2(t) * 2) == q * pow2(t)) by (nonlinear_arith)
            requires
                q == 0x100_0000,
        ;
    }
}

/// Successive encodings stand for increasing magnitudes.
proof fn lemma_magnitude_step(b: nat)
    ensures
        magnitude(b) < magnitude(b + 1),
{
    let t: nat = if b < 0x100_0000 {
        0
    } else {
        (b / 0x80_0000 - 1) as nat
    };
    let q = (b - t * 0x80_0000) as nat;
    lemma_scaled(t, q);
    lemma_scaled(t, q + 1);
    lemma_pow2_pos(t);
    assert(q * pow2(t) < (q + 1) * pow2(t)) by (nonlinear_arith)
        requires
            pow2(t) > 0,
    ;
}

/// Encodings are ordered as the magnitudes that they stand for.
pub proof fn lemma_magnitude_ordered(a: nat, b: nat)
    requires
        a < b,
    ensures
        magnitude(a) < magnitude(b),
    decreases b,
{
    lemma_magnitude_step((b - 1) as nat);
    if a + 1 < b {
        lemma_magnitude_ordered(a, (b - 1) as nat);
    }
}

/// A value between two successive magnitudes rounds to the nearer one, and to
/// the even one from halfway.
proof fn lemma_nearest_between(c: nat, num: nat, den: nat)
    requires
        c + 1 < SINGLE_INFINITY,
        den > 0,
        magnitude(c) * den <= num <= magnitude(c + 1) * den,
    ensures
        ({
            let halfway = (magnitude(c) + magnitude(c + 1)) * den;
            &&& 2 * num < halfway ==> nearest(c, num, den)
            &&& 2 * num > halfway ==> nearest(c + 1, num, den)
            &&& 2 * num == halfway ==> nearest(
                if c % 2 == 0 {
                    c
                } else {
                    c + 1
                },
                num,
                den,
            )
        }),
{
    lemma_magnitude_step(c);
    let (lo, hi) = (magnitude(c) * den, magnitude(c + 1) * den);
    assert((magnitude(c) + magnitude(c + 1)) * den == lo + hi) by (nonlinear_arith)
        requires
            lo == magnitude(c) * den,
            hi == magnitude(c + 1) * den,
    ;
    assert forall|x: nat| x < c implies #[trigger] gap(x, num, den) > gap(c, num, den) by {
        lemma_magnitude_ordered(x, c);
        assert(magnitude(x) * den < lo) by (nonlinear_arith)
            requires
                magnitude(x) < magnitude(c),
                lo == magnitude(c) * den,
                den > 0,
        ;
    }
    assert forall|x: nat| x > c + 1 implies #[trigger] gap(x, num, den) > gap(c + 1, num, den) by {
        lemma_magnitude_ordered(c + 1, x);
        assert(magnitude(x) * den > hi) by (nonlinear_arith)
            requires
                magnitude(x) > magnitude(c + 1),
                hi == magnitude(c + 1) * den,
                den > 0,
        ;
    }
}

/// At most one encoding is nearest.
proof fn lemma_nearest_unique(a: nat, b: nat, num: nat, den: nat)
    requires
        den > 0,
        nearest(a, num, den),
        nearest(b, num, den),
    ensures
        a == b,
{
    if a < b {
        lemma_nearest_alone(a, b, num, den);
    } else if b < a {
        lemma_nearest_alone(b, a, num, den);
    }
}

/// Above a nearest encoding there is no other one.
proof fn lemma_nearest_alone(a: nat, b: nat, num: nat, den: nat)
    requires
        den > 0,
        a < b,
        nearest(a, num, den),
    ensures
        !nearest(b, num, den),
{
    if nearest(b, num, den) {
        assert(gap(a, num, den) == gap(b, num, den));
        let m = a + 1;
        assert(m < b);
        lemma_magnitude_ordered(a, m);
        lemma_magnitude_ordered(m, b);
        assert(magnitude(a) * den < magnitude(m) * den < magnitude(b) * den) by (nonlinear_arith)
            requires
                magnitude(a) < magnitude(m) < magnitude(b),
                den > 0,
        ;
        assert(gap(m, num, den) < gap(a, num, den));
    }
}

/// What an encoding shown to be nearest is.
pub proof fn lemma_rounded_is(b: nat, num: nat, den: nat)
    requires
        den > 0,
        nearest(b, num, den),
    ensures
        rounded(num, den) == b,
{
    lemma_nearest_unique(b, rounded(num, den), num, den);
}

/// Rounding never passes a magnitude that bounds the value from above.
proof fn lemma_rounded_at_most(b: nat, k: nat, num: nat, den: nat)
    requires
        den > 0,
        nearest(b, num, den),
        k < SINGLE_INFINITY,
        num <= magnitude(k) * den,
    ensures
        b <= k,
{
    if b > k {
        lemma_magnitude_ordered(k, b);
        assert(magnitude(b) * den > magnitude(k) * den) by (nonlinear_arith)
            requires
                magnitude(b) > magnitude(k),
                den > 0,
        ;
        assert(gap(k, num, den) < gap(b, num, den));
    }
}

/// A value that is itself a finite binary32 magnitude rounds to itself.
pub proof fn lemma_rounded_exact(b: nat, num: nat, den: nat)
    requires
        b < SINGLE_INFINITY,
        den > 0,
        num == magnitude(b) * den,
    ensures
        nearest(b, num, den),
        rounded(num, den) == b,
{
    assert forall|c: nat| c < SINGLE_INFINITY && c != b implies gap(b, num, den) < #[trigger] gap(
        c,
        num,
        den,
    ) by {
        if c < b {
            lemma_magnitude_ordered(c, b);
        } else {
            lemma_magnitude_ordered(b, c);
        }
        assert(magnitude(c) * den != magnitude(b) * den) by (nonlinear_arith)
            requires
                magnitude(c) != magnitude(b),
                den > 0,
        ;
    }
    lemma_rounded_is(b, num, den);
}

/// Every value up to the largest finite magnitude rounds to one.
pub proof fn lemma_rounded_exists(k: nat, num: nat, den: nat)
    requires
        k < SINGLE_INFINITY,
        den > 0,
        num <= magnitude(k) * den,
    ensures
        nearest(rounded(num, den), num, den),
    decreases k,
{
    if k == 0 {
        assert(magnitude(0) * den == 0) by (nonlinear_arith)
            requires
                magnitude(0) == 0,
        ;
        lemma_rounded_exact(0, num, den);
    } else {
        let c = (k - 1) as nat;
        if num >= magnitude(c) * den {
            lemma_nearest_between(c, num, den);
        } else {
            lemma_rounded_exists(c, num, den);
        }
    }
}

impl Single {
    /// Whether the sign bit is set.
    pub open spec fn negative(self) -> bool {
        self.bits >= SINGLE_SIGN
    }

    /// The encoding without its sign.
    pub open spec fn encoded(self) -> nat {
        (self.bits % SINGLE_SIGN) as nat
    }

    /// Whether the encoding stands for no number.
    pub open spec fn is_nan(self) -> bool {
        self.encoded() > SINGLE_INFINITY
    }

    /// The exact value, in steps of 2^-149.
    pub open spec fn steps(self) -> int {
        if self.negative() {
            -magnitude(self.encoded())
        } else {
            magnitude(self.encoded()) as int
        }
    }

    /// Whether the value lies in [-1, 1].
    pub open spec fn within_one(self) -> bool {
        -pow2(149) <= self.steps() <= pow2(149)
    }

    /// Whether the value lies in [0, 1].
    pub open spec fn within_unit(self) -> bool {
        0 <= self.steps() <= pow2(149)
    }
}

impl Double {
    /// Whether the sign bit is set.
    pub open spec fn negative(self) -> bool {
        self.bits >= DOUBLE_SIGN
    }

    /// The encoding without its sign.
    pub open spec fn encoded(self) -> nat {
        (self.bits % DOUBLE_SIGN) as nat
    }

    /// Whether the encoding stands for no number.
    pub open spec fn is_nan(self) -> bool {
        self.encoded() > DOUBLE_INFINITY
    }
}

/// One is 2^149 steps of 2^-149.
pub proof fn lemma_one()
    ensures
        magnitude(SINGLE_ONE as nat) == pow2(149),
        pow2(149) > 0,
{
    lemma_scaled(126, 0x80_0000);
    assert(pow2(23) == 0x80_0000) by {
        lemma2_to64();
    }
    lemma_pow2_adds(23, 126);
    lemma_pow2_pos(149);
}

/// A magnitude is at most one exactly when its encoding is at most that of one.
pub proof fn lemma_at_most_one(b: nat)
    ensures
        b <= SINGLE_ONE <==> magnitude(b) <= pow2(149),
{
    lemma_one();
    if b < SINGLE_ONE {
        lemma_magnitude_ordered(b, SINGLE_ONE as nat);
    } else if b > SINGLE_ONE {
        lemma_magnitude_ordered(SINGLE_ONE as nat, b);
    }
}

/// What putting a sign on an encoded magnitude gives.
pub proof fn lemma_single(negative: bool, b: nat)
    requires
        b <= SINGLE_ONE,
    ensures
        single(negative, b).negative() == negative,
        single(negative, b).encoded() == b,
        single(negative, b).within_one(),
        !negative || b == 0 ==> single(negative, b).within_unit(),
{
    lemma_at_most_one(b);
}

/// Puts a sign on an encoded magnitude.
fn with_sign(negative: bool, b: u32) -> (r: Single)
    requires
        b <= SINGLE_ONE,
    ensures
        r == single(negative, b as nat),
        r.negative() == negative,
        r.encoded() == b,
{
    if negative {
        Single { bits: SINGLE_SIGN + b }
    } else {
        Single { bits: b }
    }
}

/// The encoding `b` of a double stands for a significand `s` at the exponent `e`.
proof fn lemma_double_parts(b: nat, s: nat, e: nat)
    requires
        e >= 1,
        b < 0x10_0000_0000_0000 ==> e == 1 && s == b,
        b >= 0x10_0000_0000_0000 ==> e == b / 0x10_0000_0000_0000 && s == 0x10_0000_0000_0000 + b
            % 0x10_0000_0000_0000,
    ensures
        double_magnitude(b) == s * pow2((e - 1) as nat),
{
    if b < 0x10_0000_0000_0000 {
        assert(pow2(0) == 1) by {
            lemma2_to64();
        }
        assert(s * pow2(0) == s) by (nonlinear_arith)
            requires
                pow2(0) == 1,
        ;
    }
}

/// Rounding `q * d + r` steps, each a `d`-th of one at the scale `t`, by what
/// `r` is of `d`.
proof fn lemma_narrowed(t: nat, q: nat, r: nat, d: nat, p: nat, num: nat, den: nat)
    requires
        q < 0x100_0000,
        t == 0 || q >= 0x80_0000,
        t < 253,
        r < d,
        p > 0,
        den > 0,
        pow2(t) * den == d * p,
        num == (q * d + r) * p,
    ensures
        ({
            let up = 2 * r > d || (2 * r == d && q % 2 == 1);
            nearest(
                t * 0x80_0000 + q + if up {
                    1nat
                } else {
                    0nat
                },
                num,
                den,
            )
        }),
{
    let c = t * 0x80_0000 + q;
    lemma_scaled(t, q);
    lemma_scaled(t, q + 1);
    let w = d * p;
    assert((q * pow2(t)) * den == q * w) by (nonlinear_arith)
        requires
            w == pow2(t) * den,
    ;
    assert(((q + 1) * pow2(t)) * den == q * w + w) by (nonlinear_arith)
        requires
            w == pow2(t) * den,
    ;
    assert(num == q * w + r * p) by (nonlinear_arith)
        requires
            w == d * p,
            num == (q * d + r) * p,
    ;
    assert(0 <= r * p <= w) by (nonlinear_arith)
        requires
            w == d * p,
            0 <= r < d,
            p > 0,
    ;
    assert((magnitude(c) + magnitude(c + 1)) * den == 2 * (q * w) + w) by (nonlinear_arith)
        requires
            magnitude(c) * den == q * w,
            magnitude(c + 1) * den == q * w + w,
    ;
    assert(2 * r < d ==> 2 * (r * p) < w) by (nonlinear_arith)
        requires
            w == d * p,
            p > 0,
    ;
    assert(2 * r > d ==> 2 * (r * p) > w) by (nonlinear_arith)
        requires
            w == d * p,
            p > 0,
    ;
    assert(2 * r == d ==> 2 * (r * p) == w) by (nonlinear_arith)
        requires
            w == d * p,
    ;
    lemma_nearest_between(c, num, den);
    assert(c % 2 == q % 2);
}

/// How many bits dropping the low ones of a binary64 significand leaves.
proof fn lemma_significand(s: nat, drop: nat, q: nat)
    requires
        s < 0x20_0000_0000_0000,
        29 <= drop <= 53,
        q == s / pow2(drop),
    ensures
        q < 0x100_0000,
        drop == 29 && s >= 0x10_0000_0000_0000 ==> q >= 0x80_0000,
{
    lemma2_to64();
    if drop > 29 {
        lemma_pow2_strictly_increases(29, drop);
    }
    let d = pow2(drop);
    vstd::arithmetic::div_mod::lemma_fundamental_div_mod(s as int, d as int);
    assert(q < 0x100_0000) by (nonlinear_arith)
        requires
            d * q <= s < 0x20_0000_0000_0000,
            d >= 0x2000_0000,
    ;
}

/// A double encoded at most as one is has at most its magnitude.
proof fn lemma_double_at_most_one(b: nat)
    requires
        b <= DOUBLE_ONE,
    ensures
        double_magnitude(b) <= pow2(1074),
{
    lemma2_to64_rest();
    if b < 0x10_0000_0000_0000 {
        lemma_pow2_strictly_increases(52, 1074);
    } else {
        let e = b / 0x10_0000_0000_0000;
        let s = 0x10_0000_0000_0000 + b % 0x10_0000_0000_0000;
        if e == 1023 {
            lemma_pow2_adds(52, 1022);
        } else {
            lemma_pow2_adds(53, (e - 1) as nat);
            if e < 1022 {
                lemma_pow2_strictly_increases((52 + e) as nat, 1074);
            }
            let p = pow2((e - 1) as nat);
            assert(s * p <= 0x20_0000_0000_0000 * p) by (nonlinear_arith)
                requires
                    s <= 0x20_0000_0000_0000,
            ;
        }
    }
}

/// Rounds an encoded binary64 magnitude of at most one to binary32.
fn narrow(b: u64) -> (r: u32)
    requires
        b <= DOUBLE_ONE,
    ensures
        nearest(r as nat, double_magnitude(b as nat), pow2(925)),
        r == rounded(double_magnitude(b as nat), pow2(925)),
        r <= SINGLE_ONE,
{
    let (s, e): (u64, u64) = if b < 0x10_0000_0000_0000 {
        (b, 1)
    } else {
        (0x10_0000_0000_0000 + b % 0x10_0000_0000_0000, b / 0x10_0000_0000_0000)
    };
    let (t, drop): (u64, u64) = if e >= 897 {
        (e - 897, 29)
    } else {
        (0, 926 - e)
    };
    let ghost num = double_magnitude(b as nat);
    let ghost p = pow2((e - 1) as nat);
    let ghost d = pow2(drop as nat);
    proof {
        lemma_double_parts(b as nat, s as nat, e as nat);
        lemma_pow2_pos((e - 1) as nat);
        lemma_pow2_pos(925);
        lemma_pow2_adds(t as nat, 925);
        lemma_pow2_adds(drop as nat, (e - 1) as nat);
        assert(pow2(t as nat) * pow2(925) == d * p);
        lemma2_to64();
        lemma2_to64_rest();
    }
    let r: u32 = if drop > 53 {
        proof {
            if drop > 54 {
                lemma_pow2_strictly_increases(54, drop as nat);
            }
            assert(num == (0 * d + s) * p) by (nonlinear_arith)
                requires
                    num == s * p,
            ;
            lemma_narrowed(0, 0, s as nat, d, p, num, pow2(925));
        }
        0
    } else {
        let unit: u64 = 1u64 << drop;
        proof {
            vstd::bits::lemma_u64_pow2_no_overflow(drop as nat);
            vstd::bits::lemma_u64_shl_is_mul(1, drop);
            assert(unit == d);
        }
        let q: u64 = s / unit;
        let rest: u64 = s % unit;
        let up: bool = rest > unit - rest || (rest == unit - rest && q % 2 == 1);
        proof {
            lemma_significand(s as nat, drop as nat, q as nat);
            vstd::arithmetic::div_mod::lemma_fundamental_div_mod(s as int, unit as int);
            assert(num == (q * d + rest) * p) by {
                assert(unit * q == q * d) by (nonlinear_arith)
                    requires
                        unit == d,
                ;
            }
            lemma_narrowed(t as nat, q as nat, rest as nat, d, p, num, pow2(925));
        }
        let c: u32 = (t * 0x80_0000 + q) as u32;
        if up {
            c + 1
        } else {
            c
        }
    };
    proof {
        lemma_double_at_most_one(b as nat);
        lemma_one();
        lemma_pow2_adds(149, 925);
        lemma_rounded_at_most(r as nat, SINGLE_ONE as nat, num, pow2(925));
        lemma_rounded_is(r as nat, num, pow2(925));
    }
    r
}

/// The magnitude of a double clamped to one and rounded to binary32, encoded.
pub open spec fn narrowed(d: Double) -> nat {
    let m = double_magnitude(d.encoded());
    rounded(
        if m < pow2(1074) {
            m
        } else {
            pow2(1074)
        },
        pow2(925),
    )
}

/// The binary32 number that a double is once it is clamped to [-1, 1]. What is
/// not a number stays so.
pub open spec fn stick_of(d: Double) -> Single {
    if d.is_nan() {
        Single { bits: SINGLE_NAN }
    } else {
        single(d.negative(), narrowed(d))
    }
}

/// The binary32 number that a double is once it is clamped to [0, 1]. What is
/// not a number stays so. The clamp puts zero for what is below zero, and a
/// negative zero is not.
pub open spec fn trigger_of(d: Double) -> Single {
    if d.is_nan() {
        Single { bits: SINGLE_NAN }
    } else if d.negative() && d.encoded() > 0 {
        single(false, 0)
    } else {
        single(d.negative(), narrowed(d))
    }
}

/// A double encoded above one has more than its magnitude.
proof fn lemma_double_above_one(b: nat)
    requires
        b > DOUBLE_ONE,
    ensures
        double_magnitude(b) > pow2(1074),
{
    lemma2_to64_rest();
    let e = b / 0x10_0000_0000_0000;
    let s = 0x10_0000_0000_0000 + b % 0x10_0000_0000_0000;
    let p = pow2((e - 1) as nat);
    lemma_pow2_pos((e - 1) as nat);
    lemma_pow2_adds(52, (e - 1) as nat);
    if e == 1023 {
        assert(s * p > 0x10_0000_0000_0000 * p) by (nonlinear_arith)
            requires
                s > 0x10_0000_0000_0000,
                p > 0,
        ;
    } else {
        lemma_pow2_strictly_increases(1074, (51 + e) as nat);
        assert(s * p >= 0x10_0000_0000_0000 * p) by (nonlinear_arith)
            requires
                s >= 0x10_0000_0000_0000,
        ;
    }
}

/// Clamps an encoded binary64 magnitude to one and rounds it to binary32.
fn clamp_narrow(d: Double) -> (r: u32)
    ensures
        r == narrowed(d),
        r <= SINGLE_ONE,
        d.encoded() == 0 ==> r == 0,
{
    let b: u64 = d.bits % DOUBLE_SIGN;
    proof {
        if b <= DOUBLE_ONE {
            lemma_double_at_most_one(b as nat);
        } else {
            lemma_double_above_one(b as nat);
        }
        if b == 0 {
            lemma_pow2_pos(925);
            assert(magnitude(0) * pow2(925) == 0) by (nonlinear_arith)
                requires
                    magnitude(0) == 0,
            ;
            lemma_rounded_exact(0, 0, pow2(925));
        }
    }
    if b <= DOUBLE_ONE {
        narrow(b)
    } else {
        proof {
            lemma_one();
            lemma_pow2_pos(925);
            lemma_pow2_adds(149, 925);
            lemma_rounded_exact(SINGLE_ONE as nat, pow2(1074), pow2(925));
        }
        SINGLE_ONE
    }
}

/// Clamps a stick reading to [-1, 1] and rounds it to binary32.
pub fn stick_value(d: Double) -> (r: Single)
    ensures
        r == stick_of(d),
        d.is_nan() ==> r.is_nan(),
        !d.is_nan() ==> r.within_one(),
{
    if d.bits % DOUBLE_SIGN > DOUBLE_INFINITY {
        return Single { bits: SINGLE_NAN };
    }
    let b: u32 = clamp_narrow(d);
    proof {
        lemma_single(d.negative(), b as nat);
    }
    with_sign(d.bits >= DOUBLE_SIGN, b)
}

/// Clamps a trigger reading to [0, 1] and rounds it to binary32.
pub fn trigger_value(d: Double) -> (r: Single)
    ensures
        r == trigger_of(d),
        d.is_nan() ==> r.is_nan(),
        !d.is_nan() ==> r.within_unit(),
{
    let m: u64 = d.bits % DOUBLE_SIGN;
    if m > DOUBLE_INFINITY {
        return Single { bits: SINGLE_NAN };
    }
    if d.bits >= DOUBLE_SIGN && m > 0 {
        proof {
            lemma_single(false, 0);
        }
        return Single { bits: 0 };
    }
    let b: u32 = clamp_narrow(d);
    proof {
        lemma_single(d.negative(), b as nat);
    }
    with_sign(d.bits >= DOUBLE_SIGN, b)
}

/// Divides by 0x7fff in binary32.
fn divide(n: u64) -> (r: u32)
    requires
        n <= 0x7fff,
    ensures
        r == rounded(n as nat * pow2(149), 0x7fff),
        r <= SINGLE_ONE,
        n == 0 <==> r == 0,
{
    let ghost num = n as nat * pow2(149);
    if n == 0 {
        proof {
            assert(num == 0 && magnitude(0) * 0x7fff == 0) by (nonlinear_arith)
                requires
                    num == n * pow2(149),
                    n == 0,
                    magnitude(0) == 0,
            ;
            lemma_rounded_exact(0, 0, 0x7fff);
        }
        return 0;
    }
    let mut p: u64 = n * 0x80_0000;
    let mut s: u64 = 23;
    proof {
        lemma2_to64();
    }
    while p < 0x80_0000 * 0x7fff
        invariant
            0 < n <= 0x7fff,
            23 <= s <= 38,
            p == n * pow2(s as nat),
            p < 0x100_0000 * 0x7fff,
        decreases 38 - s,
    {
        proof {
            lemma_pow2_unfold((s + 1) as nat);
            lemma2_to64();
            lemma2_to64_rest();
            assert(n * (2 * pow2(s as nat)) == 2 * p) by (nonlinear_arith)
                requires
                    p == n * pow2(s as nat),
            ;
            assert(s < 38) by {
                assert(n * pow2(38) >= pow2(38)) by (nonlinear_arith)
                    requires
                        n >= 1,
                ;
            }
        }
        p = p * 2;
        s = s + 1;
    }
    let q: u64 = p / 0x7fff;
    let rest: u64 = p % 0x7fff;
    let t: u64 = 149 - s;
    let ghost k = pow2(t as nat);
    proof {
        lemma_pow2_pos(t as nat);
        lemma_pow2_adds(s as nat, t as nat);
        assert(num == (q * 0x7fff + rest) * k) by (nonlinear_arith)
            requires
                num == n * (pow2(s as nat) * k),
                p == n * pow2(s as nat),
                p == q * 0x7fff + rest,
        ;
        assert(k * 0x7fff == 0x7fff * k);
        lemma_narrowed(t as nat, q as nat, rest as nat, 0x7fff, k, num, 0x7fff);
    }
    let c: u32 = (t * 0x80_0000 + q) as u32;
    let r: u32 = if rest > 0x7fff - rest {
        c + 1
    } else {
        c
    };
    proof {
        lemma_one();
        assert(num <= pow2(149) * 0x7fff) by (nonlinear_arith)
            requires
                num == n * pow2(149),
                n <= 0x7fff,
        ;
        lemma_rounded_at_most(r as nat, SINGLE_ONE as nat, num, 0x7fff);
        lemma_rounded_is(r as nat, num, 0x7fff);
    }
    r
}

/// The binary32 number that a raw 16-bit reading is once it is divided by
/// 0x7fff and clamped to [-1, 1].
pub open spec fn normal_of(raw: i16) -> Single {
    let n: nat = if raw >= 0 {
        raw as nat
    } else if raw > -0x8000 {
        (-raw) as nat
    } else {
        0x7fff
    };
    single(raw < 0, rounded(n * pow2(149), 0x7fff))
}

/// Divides a raw 16-bit reading by 0x7fff and clamps it to [-1, 1].
pub fn normalize(raw: i16) -> (r: Single)
    ensures
        r == normal_of(raw),
        r.within_one(),
        raw >= 0 ==> r.within_unit(),
{
    let n: u64 = if raw >= 0 {
        raw as u64
    } else if raw > -0x8000 {
        (-raw) as u64
    } else {
        0x7fff
    };
    let b: u32 = divide(n);
    proof {
        lemma_single(raw < 0, b as nat);
    }
    with_sign(raw < 0, b)
}

} // verus!
