//! Double-precision numbers by their bit patterns.
//!
//! Scores, coordinates and range bounds are IEEE 754 doubles on the wire. The library holds
//! such a number as its 64-bit pattern, orders it by that pattern, and computes the few sums
//! and quotients that it needs with correct rounding (to nearest, ties to even).

use vstd::arithmetic::power2::*;
use vstd::prelude::*;

verus! {

/// The weight of the exponent field: two to the power of fifty-two.
pub const FRACTION_RANGE: u64 = 0x0010_0000_0000_0000;

/// The sign bit.
pub const SIGN_BIT: u64 = 0x8000_0000_0000_0000;

/// The bit pattern of positive infinity.
pub const INFINITY_BITS: u64 = 0x7ff0_0000_0000_0000;

/// A double-precision number, held as its bit pattern.
#[derive(Clone, Copy, Debug, PartialEq, Eq, Structural)]
pub struct Double {
    pub bits: u64,
}

/// The bit pattern of one.
pub const ONE_BITS: u64 = 0x3ff0_0000_0000_0000;

/// A bit pattern that stands for "not a number".
pub const NAN_BITS: u64 = 0x7ff8_0000_0000_0000;

impl Double {
    /// The bit pattern without the sign.
    pub open spec fn magnitude(self) -> int {
        self.bits as int % SIGN_BIT as int
    }

    /// Whether this is "not a number", which is unordered.
    pub open spec fn spec_is_nan(self) -> bool {
        self.magnitude() > INFINITY_BITS
    }

    /// The place of a number among the ordered doubles: negative numbers below zero, both
    /// zeros at the same place, infinities at the ends.
    pub open spec fn place(self) -> int {
        if self.bits >= SIGN_BIT {
            -self.magnitude()
        } else {
            self.magnitude()
        }
    }

    /// IEEE "less than": false whenever either side is not a number.
    pub open spec fn spec_less(self, other: Double) -> bool {
        !self.spec_is_nan() && !other.spec_is_nan() && self.place() < other.place()
    }

    /// IEEE "less than or equal": false whenever either side is not a number.
    pub open spec fn spec_at_most(self, other: Double) -> bool {
        !self.spec_is_nan() && !other.spec_is_nan() && self.place() <= other.place()
    }

    /// Whether this is "not a number".
    pub fn is_nan(self) -> (result: bool)
        ensures
            result == self.spec_is_nan(),
    {
        self.bits % SIGN_BIT > INFINITY_BITS
    }

    fn ordinal(self) -> (result: i128)
        ensures
            result == self.place(),
    {
        let magnitude: u64 = self.bits % SIGN_BIT;
        if self.bits >= SIGN_BIT {
            -(magnitude as i128)
        } else {
            magnitude as i128
        }
    }

    /// Whether `self < other`.
    pub fn less(self, other: Double) -> (result: bool)
        ensures
            result == self.spec_less(other),
    {
        !self.is_nan() && !other.is_nan() && self.ordinal() < other.ordinal()
    }

    /// Whether `self <= other`.
    pub fn at_most(self, other: Double) -> (result: bool)
        ensures
            result == self.spec_at_most(other),
    {
        !self.is_nan() && !other.is_nan() && self.ordinal() <= other.ordinal()
    }
}

/// The integer nearest to `num / den`; of two equally near, the even one.
pub open spec fn nearest_integer(num: nat, den: nat) -> nat {
    let quotient = num / den;
    let remainder = num % den;
    if 2 * remainder < den || (2 * remainder == den && quotient % 2 == 0) {
        quotient
    } else {
        quotient + 1
    }
}

/// `n` times two to the power of `k` for a positive `k`, and `n` otherwise.
pub open spec fn raised(n: nat, k: int) -> nat {
    if k > 0 {
        n * pow2(k as nat)
    } else {
        n
    }
}

/// Whether `num / den` over two to the power of `k` lies between the smallest and the largest
/// fifty-three-bit integer.
pub open spec fn in_binade(num: nat, den: nat, k: int) -> bool {
    pow2(52) * raised(den, k) <= raised(num, -k) < pow2(53) * raised(den, k)
}

/// The pattern of `significand` times two to the power of `exponent`, for a significand of
/// fifty-three bits (or the power of two just above): infinity where the exponent is too large.
pub open spec fn pattern(significand: nat, exponent: int) -> int {
    if exponent + 1075 >= 2047 {
        INFINITY_BITS as int
    } else {
        (exponent + 1075) * FRACTION_RANGE + (significand - FRACTION_RANGE)
    }
}

/// The pattern of the double nearest to `num / den` times two to the power of `scale`, ties to
/// even, for positive numbers in the normal range.
pub open spec fn nearest(num: nat, den: nat, scale: int) -> int {
    let k = choose|k: int| in_binade(num, den, k);
    pattern(nearest_integer(raised(num, -k), raised(den, k)), k + scale)
}

/// The significand of a positive normal double.
pub open spec fn significand_of(bits: u64) -> nat {
    (FRACTION_RANGE + bits % FRACTION_RANGE) as nat
}

/// The exponent of a positive normal double, whose value is the significand times two to it.
pub open spec fn exponent_of(bits: u64) -> int {
    bits as int / FRACTION_RANGE as int - 1075
}

/// Positive normal doubles.
pub open spec fn is_positive_normal(bits: u64) -> bool {
    FRACTION_RANGE <= bits < INFINITY_BITS
}

/// Zero, the positive normal doubles and positive infinity.
pub open spec fn is_sum_operand(bits: u64) -> bool {
    bits == 0 || FRACTION_RANGE <= bits <= INFINITY_BITS
}

/// The correctly rounded sum of two numbers that are zero, positive normal or infinite.
pub open spec fn sum_bits(a: u64, b: u64) -> int {
    if a == 0 {
        b as int
    } else if b == 0 {
        a as int
    } else if a >= INFINITY_BITS || b >= INFINITY_BITS {
        INFINITY_BITS as int
    } else {
        let low = if exponent_of(a) <= exponent_of(b) {
            exponent_of(a)
        } else {
            exponent_of(b)
        };
        nearest(
            raised(significand_of(a), exponent_of(a) - low) + raised(
                significand_of(b),
                exponent_of(b) - low,
            ),
            1,
            low,
        )
    }
}

/// The correctly rounded quotient of one and a positive normal number.
pub open spec fn reciprocal_bits(d: u64) -> int {
    nearest(1, significand_of(d), -exponent_of(d))
}

/// The double nearest to a natural number.
pub open spec fn natural_bits(n: nat) -> int {
    if n == 0 {
        0
    } else {
        nearest(n, 1, 0)
    }
}

/// The double nearest to an integer.
pub open spec fn integer_bits(n: int) -> int {
    if n < 0 {
        SIGN_BIT + natural_bits((-n) as nat)
    } else {
        natural_bits(n as nat)
    }
}

proof fn lemma_raised_shift(num: nat, den: nat, k: int, t: nat)
    ensures
        raised(num, -k) * raised(den, k + t) == raised(num, -(k + t)) * raised(den, k) * pow2(t),
{
    lemma_pow2_adds(0, 0);
    lemma2_to64();
    if k >= 0 {
        lemma_pow2_adds(k as nat, t);
        assert(raised(num, -k) == num);
        assert(raised(num, -(k + t)) == num);
        assert(raised(den, k) == den * pow2(k as nat)) by {
            assert(den * 1 == den) by (nonlinear_arith);
        }
        assert(raised(den, k + t) == den * pow2((k + t) as nat)) by {
            assert(den * 1 == den) by (nonlinear_arith);
        }
        let p = pow2(k as nat);
        let q = pow2(t);
        assert(num * (den * (p * q)) == num * (den * p) * q) by (nonlinear_arith);
    } else if k + t >= 0 {
        let u = (-k) as nat;
        let v = (k + t) as nat;
        lemma_pow2_adds(u, v);
        assert(raised(num, -(k + t)) == num);
        assert(raised(den, k) == den);
        assert(raised(num, -k) == num * pow2(u));
        assert(raised(den, k + t) == den * pow2(v)) by {
            assert(den * 1 == den) by (nonlinear_arith);
        }
        let p = pow2(u);
        let q = pow2(v);
        assert((num * p) * (den * q) == num * den * (p * q)) by (nonlinear_arith);
    } else {
        let u = (-(k + t)) as nat;
        lemma_pow2_adds(u, t);
        assert(raised(den, k + t) == den);
        assert(raised(den, k) == den);
        assert(raised(num, -k) == num * pow2(u + t));
        assert(raised(num, -(k + t)) == num * pow2(u));
        let p = pow2(u);
        let q = pow2(t);
        assert((num * (p * q)) * den == (num * p) * den * q) by (nonlinear_arith);
    }
}

proof fn lemma_raised_positive(n: nat, k: int)
    requires
        n > 0,
    ensures
        raised(n, k) > 0,
{
    if k > 0 {
        lemma_pow2_pos(k as nat);
        let p = pow2(k as nat);
        assert(n * p > 0) by (nonlinear_arith)
            requires
                n > 0,
                p > 0,
        ;
    }
}

proof fn lemma_binade_ordered(num: nat, den: nat, k: int, t: nat)
    requires
        den > 0,
        t > 0,
        in_binade(num, den, k),
    ensures
        !in_binade(num, den, k + t),
{
    lemma_raised_shift(num, den, k, t);
    lemma_raised_positive(den, k);
    lemma_raised_positive(den, k + t);
    lemma_pow2_unfold(t);
    lemma_pow2_pos((t - 1) as nat);
    lemma_pow2_unfold(53);
    let x1 = raised(num, -k);
    let y1 = raised(den, k);
    let x2 = raised(num, -(k + t));
    let y2 = raised(den, k + t);
    let p = pow2(52);
    let q = pow2(t);
    assert(x1 * y2 < 2 * p * y1 * y2) by (nonlinear_arith)
        requires
            x1 < 2 * p * y1,
            y2 > 0,
    ;
    if in_binade(num, den, k + t) {
        assert(x2 * y1 >= p * y2 * y1) by (nonlinear_arith)
            requires
                x2 >= p * y2,
                y1 > 0,
        ;
        assert(x2 * y1 * q >= p * y2 * y1 * 2) by (nonlinear_arith)
            requires
                x2 * y1 >= p * y2 * y1,
                p * y2 * y1 >= 0,
                q >= 2,
        ;
        assert(p * y2 * y1 * 2 == 2 * p * y1 * y2) by (nonlinear_arith);
    }
}

/// The scale of a positive number is unique, so `nearest` is determined by it.
proof fn lemma_nearest(num: nat, den: nat, scale: int, k: int)
    requires
        den > 0,
        in_binade(num, den, k),
    ensures
        nearest(num, den, scale) == pattern(
            nearest_integer(raised(num, -k), raised(den, k)),
            k + scale,
        ),
{
    let chosen = choose|k: int| in_binade(num, den, k);
    assert(in_binade(num, den, chosen));
    if chosen < k {
        lemma_binade_ordered(num, den, chosen, (k - chosen) as nat);
    } else if k < chosen {
        lemma_binade_ordered(num, den, k, (chosen - k) as nat);
    }
}

fn power_of_two(e: u32) -> (p: u128)
    requires
        e < 128,
    ensures
        p == pow2(e as nat),
{
    let mut p: u128 = 1;
    let mut i: u32 = 0;
    proof {
        lemma2_to64();
    }
    while i < e
        invariant
            i <= e < 128,
            p == pow2(i as nat),
        decreases e - i,
    {
        proof {
            lemma_pow2_unfold((i + 1) as nat);
            lemma_pow2_bound((i + 1) as nat);
        }
        p = p * 2;
        i = i + 1;
    }
    p
}

proof fn lemma_pow2_bound(e: nat)
    requires
        e < 128,
    ensures
        pow2(e) <= 0x8000_0000_0000_0000_0000_0000_0000_0000,
{
    lemma2_to64();
    lemma2_to64_rest();
    lemma_pow2_adds(63, 64);
    if e < 127 {
        lemma_pow2_strictly_increases(e, 127);
    }
    assert(pow2(63) * pow2(64) == 0x8000_0000_0000_0000_0000_0000_0000_0000) by (nonlinear_arith)
        requires
            pow2(63) == 0x8000_0000_0000_0000,
            pow2(64) == 0x1_0000_0000_0000_0000,
    ;
}

fn round_quotient(num: u128, den: u128) -> (q: u128)
    requires
        0 < den <= 0x4000_0000_0000_0000_0000_0000_0000_0000,
        num <= 0x8000_0000_0000_0000_0000_0000_0000_0000,
    ensures
        q == nearest_integer(num as nat, den as nat),
{
    let quotient: u128 = num / den;
    let remainder: u128 = num % den;
    if 2 * remainder < den || (2 * remainder == den && quotient % 2 == 0) {
        quotient
    } else {
        assert(quotient <= num) by (nonlinear_arith)
            requires
                quotient == num / den,
                den > 0,
        ;
        quotient + 1
    }
}

/// The place of the highest set bit.
fn highest_bit(n: u64) -> (j: u32)
    requires
        n > 0,
    ensures
        j < 64,
        pow2(j as nat) <= n < pow2((j + 1) as nat),
{
    let mut j: u32 = 0;
    let mut p: u128 = 1;
    proof {
        lemma2_to64();
    }
    while p * 2 <= n as u128
        invariant
            j < 64,
            p == pow2(j as nat),
            p <= n,
        decreases 64 - j,
    {
        proof {
            lemma_pow2_unfold((j + 1) as nat);
            lemma2_to64();
            if j == 63 {
                lemma2_to64_rest();
            }
        }
        p = p * 2;
        j = j + 1;
    }
    proof {
        lemma_pow2_unfold((j + 1) as nat);
    }
    j
}

proof fn lemma_scale_down(n: nat, j: nat)
    requires
        pow2(j) <= n < pow2(j + 1),
        j <= 52,
    ensures
        pow2(52) <= n * pow2((52 - j) as nat) < pow2(53),
{
    lemma_pow2_adds(j, (52 - j) as nat);
    lemma_pow2_adds(j + 1, (52 - j) as nat);
    lemma_pow2_pos((52 - j) as nat);
    let p = pow2((52 - j) as nat);
    let low = pow2(j);
    let high = pow2(j + 1);
    assert(low * p <= n * p < high * p) by (nonlinear_arith)
        requires
            low <= n < high,
            p > 0,
    ;
}

proof fn lemma_scale_up(n: nat, j: nat)
    requires
        pow2(j) <= n < pow2(j + 1),
        j >= 52,
    ensures
        pow2(52) * pow2((j - 52) as nat) <= n < pow2(53) * pow2((j - 52) as nat),
{
    lemma_pow2_adds(52, (j - 52) as nat);
    lemma_pow2_adds(53, (j - 52) as nat);
}

proof fn lemma_rounding_range(num: nat, den: nat, low: nat, high: nat)
    requires
        den > 0,
        low * den <= num <= high * den,
    ensures
        low <= nearest_integer(num, den) <= high,
{
    let q = num / den;
    let r = num % den;
    assert(num == q * den + r && 0 <= r < den) by (nonlinear_arith)
        requires
            q == num / den,
            r == num % den,
            den > 0,
    ;
    assert(low <= q) by (nonlinear_arith)
        requires
            low * den <= q * den + r,
            r < den,
            den > 0,
    ;
    assert(q <= high) by (nonlinear_arith)
        requires
            q * den + r <= high * den,
            0 <= r,
            den > 0,
    ;
    if q == high {
        assert(r == 0) by (nonlinear_arith)
            requires
                q * den + r <= high * den,
                q == high,
                0 <= r,
        ;
    }
}

/// The double nearest to `n`.
pub fn from_natural(n: u64) -> (d: Double)
    ensures
        d.bits == natural_bits(n as nat),
        is_sum_operand(d.bits),
        d.bits <= 1087 * FRACTION_RANGE,
        n > 0 ==> d.bits >= ONE_BITS,
{
    if n == 0 {
        return Double { bits: 0 };
    }
    let j: u32 = highest_bit(n);
    proof {
        lemma2_to64();
        lemma2_to64_rest();
    }
    if j <= 52 {
        let p: u128 = power_of_two(52 - j);
        proof {
            lemma_scale_down(n as nat, j as nat);
            let k = j as int - 52;
            let scaled = n * pow2((52 - j) as nat);
            assert(n * 1 == n) by (nonlinear_arith);
            assert(raised(n as nat, -k) == scaled);
            assert(raised(1, k) == 1);
            assert(in_binade(n as nat, 1, k));
            lemma_nearest(n as nat, 1, 0, k);
            assert(nearest_integer(scaled as nat, 1) == scaled);
        }
        let significand: u128 = (n as u128) * p;
        Double {
            bits: (1023 + j as u64) * FRACTION_RANGE + (significand as u64 - FRACTION_RANGE),
        }
    } else {
        let p: u128 = power_of_two(j - 52);
        proof {
            lemma_scale_up(n as nat, j as nat);
            let k = j as int - 52;
            assert(raised(n as nat, -k) == n);
            assert(raised(1, k) == pow2(k as nat));
            assert(in_binade(n as nat, 1, k));
            lemma_nearest(n as nat, 1, 0, k);
            lemma_pow2_pos(k as nat);
            lemma_pow2_strictly_increases(k as nat, 12);
            lemma_rounding_range(n as nat, p as nat, pow2(52), pow2(53));
        }
        let significand: u128 = round_quotient(n as u128, p);
        Double {
            bits: (1023 + j as u64) * FRACTION_RANGE + (significand as u64 - FRACTION_RANGE),
        }
    }
}

/// The double nearest to `n`.
pub fn from_integer(n: i64) -> (d: Double)
    ensures
        d.bits == integer_bits(n as int),
        !d.spec_is_nan(),
{
    if n < 0 {
        let magnitude: u64 = (-(n as i128)) as u64;
        let d = from_natural(magnitude);
        Double { bits: SIGN_BIT + d.bits }
    } else {
        from_natural(n as u64)
    }
}

proof fn lemma_pattern_of_normal(bits: u64)
    requires
        is_positive_normal(bits),
    ensures
        pattern(significand_of(bits), exponent_of(bits)) == bits,
        pow2(52) <= significand_of(bits) < pow2(53),
        1 <= exponent_of(bits) + 1075 < 2047,
{
    lemma2_to64();
    lemma2_to64_rest();
}

proof fn lemma_sum_far(high: nat, low: nat, gap: nat)
    requires
        pow2(52) <= high < pow2(53),
        low < pow2(53),
        gap >= 54,
    ensures
        in_binade(high * pow2(gap) + low, 1, gap as int),
        nearest_integer(high * pow2(gap) + low, pow2(gap)) == high,
{
    let p = pow2(gap);
    let s = high * p + low;
    lemma_pow2_unfold(54);
    if gap > 54 {
        lemma_pow2_strictly_increases(54, gap);
    }
    assert(2 * low < p);
    assert(pow2(52) * p <= s) by (nonlinear_arith)
        requires
            pow2(52) <= high,
            s == high * p + low,
            low >= 0,
            p >= 0,
    ;
    assert(s < pow2(53) * p) by (nonlinear_arith)
        requires
            high + 1 <= pow2(53),
            s == high * p + low,
            low < p,
    ;
    assert(raised(1, gap as int) == p);
    assert(s / p == high && s % p == low) by {
        vstd::arithmetic::div_mod::lemma_fundamental_div_mod_converse(
            s as int,
            p as int,
            high as int,
            low as int,
        );
    }
}

proof fn lemma_sum_near(high: nat, low: nat, gap: nat) -> (k: nat)
    requires
        pow2(52) <= high < pow2(53),
        pow2(52) <= low < pow2(53),
        gap < 54,
        gap == 0 ==> low <= high,
    ensures
        k == if high * pow2(gap) + low < pow2(53) * pow2(gap) {
            gap
        } else {
            gap + 1
        },
        in_binade(high * pow2(gap) + low, 1, k as int),
        high * pow2(gap) + low < 0x8000_0000_0000_0000_0000_0000_0000_0000,
        pow2(k) <= pow2(54),
        k == gap ==> high <= nearest_integer(high * pow2(gap) + low, pow2(k)) <= pow2(53),
        k == gap + 1 ==> pow2(52) <= nearest_integer(high * pow2(gap) + low, pow2(k)) <= high,
{
    let p = pow2(gap);
    let s = high * p + low;
    lemma2_to64();
    lemma2_to64_rest();
    lemma_pow2_pos(gap);
    lemma_pow2_unfold(gap + 1);
    lemma_pow2_unfold(53);
    lemma_pow2_unfold(54);
    lemma_pow2_strictly_increases(gap, 54);
    if gap < 53 {
        lemma_pow2_strictly_increases((gap + 1) as nat, 54);
    }
    let p52 = pow2(52);
    let p53 = pow2(53);
    assert(p52 * p <= s) by (nonlinear_arith)
        requires
            p52 <= high,
            s == high * p + low,
            low >= 0,
            p >= 0,
    ;
    assert(s < 2 * p53 * p) by (nonlinear_arith)
        requires
            high < p53,
            low < p53,
            p >= 1,
            s == high * p + low,
    ;
    assert(s <= high * p + p53);
    assert(high * p < p53 * p53) by (nonlinear_arith)
        requires
            high < p53,
            p <= p53,
            p >= 1,
    ;
    assert(p53 * p53 + p53 < 0x8000_0000_0000_0000_0000_0000_0000_0000) by (nonlinear_arith)
        requires
            p53 == 0x20_0000_0000_0000,
    ;
    assert(raised(1, gap as int) == p);
    assert(raised(1, (gap + 1) as int) == 2 * p);
    assert(low <= high * p) by {
        if gap > 0 {
            lemma_pow2_unfold(gap);
            lemma_pow2_pos((gap - 1) as nat);
            assert(low <= high * p) by (nonlinear_arith)
                requires
                    low < 2 * p52,
                    p52 <= high,
                    p >= 2,
            ;
        } else {
            assert(high * 1 == high) by (nonlinear_arith);
        }
    }
    if s < p53 * p {
        lemma_rounding_range(s, p, high, p53);
        gap
    } else {
        assert(p52 * (2 * p) == p53 * p) by (nonlinear_arith)
            requires
                p53 == 2 * p52,
        ;
        assert(p53 * (2 * p) == 2 * p53 * p) by (nonlinear_arith);
        assert(s <= high * (2 * p)) by (nonlinear_arith)
            requires
                s == high * p + low,
                low <= high * p,
        ;
        lemma_rounding_range(s, 2 * p, p52, high);
        gap + 1
    }
}

/// `a + b`, correctly rounded, for operands that are zero, positive normal or infinite. The sum
/// is never below either operand and at most doubles the larger one.
pub fn plus(a: Double, b: Double) -> (sum: Double)
    requires
        is_sum_operand(a.bits),
        is_sum_operand(b.bits),
    ensures
        sum.bits == sum_bits(a.bits, b.bits),
        is_sum_operand(sum.bits),
        sum.bits >= a.bits,
        sum.bits >= b.bits,
        sum.bits <= a.bits + FRACTION_RANGE || sum.bits <= b.bits + FRACTION_RANGE,
{
    if a.bits == 0 {
        return b;
    }
    if b.bits == 0 {
        return a;
    }
    if a.bits >= INFINITY_BITS || b.bits >= INFINITY_BITS {
        return Double { bits: INFINITY_BITS };
    }
    let (high, low) = if a.bits >= b.bits {
        (a, b)
    } else {
        (b, a)
    };
    let high_exponent: u64 = high.bits / FRACTION_RANGE;
    let low_exponent: u64 = low.bits / FRACTION_RANGE;
    let gap: u64 = high_exponent - low_exponent;
    let high_significand: u64 = FRACTION_RANGE + high.bits % FRACTION_RANGE;
    let low_significand: u64 = FRACTION_RANGE + low.bits % FRACTION_RANGE;
    proof {
        lemma_pattern_of_normal(high.bits);
        lemma_pattern_of_normal(low.bits);
        lemma2_to64();
        lemma2_to64_rest();
        assert(high_significand * 1 == high_significand) by (nonlinear_arith);
        assert(raised(significand_of(high.bits), gap as int) == high_significand * pow2(gap as nat));
        assert(raised(significand_of(low.bits), 0) == low_significand);
        let total = high_significand * pow2(gap as nat) + low_significand;
        assert(sum_bits(a.bits, b.bits) == nearest(total as nat, 1, exponent_of(low.bits)));
    }
    if gap >= 54 {
        proof {
            lemma_sum_far(high_significand as nat, low_significand as nat, gap as nat);
            lemma_nearest(
                (high_significand * pow2(gap as nat) + low_significand) as nat,
                1,
                exponent_of(low.bits),
                gap as int,
            );
            assert(raised(1, gap as int) == pow2(gap as nat));
        }
        return high;
    }
    let p: u128 = power_of_two(gap as u32);
    let ghost k = lemma_sum_near(high_significand as nat, low_significand as nat, gap as nat);
    let total: u128 = (high_significand as u128) * p + low_significand as u128;
    proof {
        lemma_nearest(total as nat, 1, exponent_of(low.bits), k as int);
        assert(raised(1, k as int) == pow2(k));
        lemma_pow2_unfold((gap + 1) as nat);
        lemma_pow2_pos(k);
    }
    if total < (2 * FRACTION_RANGE) as u128 * p {
        let significand: u128 = round_quotient(total, p);
        Double {
            bits: high_exponent * FRACTION_RANGE + (significand as u64 - FRACTION_RANGE),
        }
    } else {
        let significand: u128 = round_quotient(total, 2 * p);
        if high_exponent + 1 >= 2047 {
            Double { bits: INFINITY_BITS }
        } else {
            Double {
                bits: (high_exponent + 1) * FRACTION_RANGE + (significand as u64 - FRACTION_RANGE),
            }
        }
    }
}

/// `1 / d`, correctly rounded, for a positive number whose reciprocal is a normal number.
pub fn reciprocal(d: Double) -> (quotient: Double)
    requires
        is_positive_normal(d.bits),
        d.bits <= 2044 * FRACTION_RANGE,
    ensures
        quotient.bits == reciprocal_bits(d.bits),
        is_positive_normal(quotient.bits),
{
    let exponent: u64 = d.bits / FRACTION_RANGE;
    let significand: u64 = FRACTION_RANGE + d.bits % FRACTION_RANGE;
    let ghost m = significand as nat;
    proof {
        lemma_pattern_of_normal(d.bits);
        lemma2_to64();
        lemma2_to64_rest();
        lemma_pow2_adds(52, 52);
        lemma_pow2_adds(52, 53);
        lemma_pow2_bound(105);
    }
    let p52: u64 = FRACTION_RANGE;
    if significand == p52 {
        proof {
            let square = pow2(104);
            assert(1 * square == square) by (nonlinear_arith);
            assert(raised(1, 104) == square);
            assert(raised(m, -104) == m);
            assert(pow2(52) * m <= square < pow2(53) * m) by (nonlinear_arith)
                requires
                    square == pow2(52) * pow2(52),
                    m == pow2(52),
                    pow2(53) == 2 * pow2(52),
                    pow2(52) > 0,
            ;
            lemma_nearest(1, m, -exponent_of(d.bits), -104);
            lemma_rounding_range(square, m, m, m);
        }
        Double { bits: (2046 - exponent) * FRACTION_RANGE }
    } else {
        let p: u128 = power_of_two(105);
        proof {
            assert(1 * p == p) by (nonlinear_arith);
            assert(raised(1, 105) == p);
            assert(raised(m, -105) == m);
            assert(pow2(52) * m <= p < pow2(53) * m) by (nonlinear_arith)
                requires
                    p == pow2(52) * pow2(53),
                    pow2(52) < m < pow2(53),
                    pow2(52) > 0,
                    pow2(53) > 0,
            ;
            lemma_nearest(1, m, -exponent_of(d.bits), -105);
            lemma_rounding_range(p as nat, m, pow2(52), pow2(53));
        }
        let rounded: u128 = round_quotient(p, significand as u128);
        Double { bits: (2045 - exponent) * FRACTION_RANGE + (rounded as u64 - FRACTION_RANGE) }
    }
}

proof fn lemma_highest_bit(n: nat) -> (j: nat)
    requires
        0 < n <= u64::MAX,
    ensures
        j < 64,
        pow2(j) <= n < pow2(j + 1),
    decreases n,
{
    lemma2_to64();
    lemma2_to64_rest();
    if n == 1 {
        0
    } else {
        let j = lemma_highest_bit(n / 2);
        lemma_pow2_unfold(j + 1);
        lemma_pow2_unfold(j + 2);
        if j + 1 >= 64 {
            assert(pow2(64) <= n);
        }
        j + 1
    }
}

/// The range of the double nearest to a 64-bit natural number.
pub proof fn lemma_natural_bits(n: nat)
    requires
        n <= u64::MAX,
    ensures
        n == 0 ==> natural_bits(n) == 0,
        n > 0 ==> ONE_BITS <= natural_bits(n) <= 1087 * FRACTION_RANGE,
{
    if n > 0 {
        lemma2_to64();
        lemma2_to64_rest();
        let j = lemma_highest_bit(n);
        let k = j as int - 52;
        if j <= 52 {
            lemma_scale_down(n, j);
            let scaled = n * pow2((52 - j) as nat);
            assert(n * 1 == n) by (nonlinear_arith);
            assert(raised(n, -k) == scaled);
            assert(raised(1, k) == 1);
            assert(in_binade(n, 1, k));
            lemma_nearest(n, 1, 0, k);
            assert(nearest_integer(scaled as nat, 1) == scaled);
        } else {
            lemma_scale_up(n, j);
            assert(raised(n, -k) == n);
            assert(raised(1, k) == pow2(k as nat));
            assert(in_binade(n, 1, k));
            lemma_nearest(n, 1, 0, k);
            lemma_pow2_pos(k as nat);
            lemma_rounding_range(n, pow2(k as nat), pow2(52), pow2(53));
        }
    }
}

/// A sum is never below either operand and at most doubles the larger one.
pub proof fn lemma_sum_bits(a: u64, b: u64)
    requires
        is_sum_operand(a),
        is_sum_operand(b),
    ensures
        sum_bits(a, b) >= a,
        sum_bits(a, b) >= b,
        sum_bits(a, b) <= INFINITY_BITS,
        sum_bits(a, b) <= a + FRACTION_RANGE || sum_bits(a, b) <= b + FRACTION_RANGE,
{
    if a != 0 && b != 0 && a < INFINITY_BITS && b < INFINITY_BITS {
        let (high, low) = if a >= b {
            (a, b)
        } else {
            (b, a)
        };
        let gap = (exponent_of(high) - exponent_of(low)) as nat;
        let m = significand_of(high);
        let l = significand_of(low);
        lemma_pattern_of_normal(high);
        lemma_pattern_of_normal(low);
        lemma2_to64();
        lemma2_to64_rest();
        assert(m * 1 == m) by (nonlinear_arith);
        assert(raised(m, gap as int) == m * pow2(gap));
        assert(raised(l, 0) == l);
        let total = m * pow2(gap) + l;
        assert(sum_bits(a, b) == nearest(total, 1, exponent_of(low)));
        if gap >= 54 {
            lemma_sum_far(m, l, gap);
            lemma_nearest(total, 1, exponent_of(low), gap as int);
            assert(raised(1, gap as int) == pow2(gap));
        } else {
            let k = lemma_sum_near(m, l, gap);
            lemma_nearest(total, 1, exponent_of(low), k as int);
            assert(raised(1, k as int) == pow2(k));
        }
    }
}

/// The range of a reciprocal.
pub proof fn lemma_reciprocal_bits(d: u64)
    requires
        is_positive_normal(d),
        d <= 2044 * FRACTION_RANGE,
    ensures
        FRACTION_RANGE <= reciprocal_bits(d) < INFINITY_BITS,
{
    let m = significand_of(d);
    lemma_pattern_of_normal(d);
    lemma2_to64();
    lemma2_to64_rest();
    lemma_pow2_adds(52, 52);
    lemma_pow2_adds(52, 53);
    if m == pow2(52) {
        let square = pow2(104);
        assert(1 * square == square) by (nonlinear_arith);
        assert(raised(1, 104) == square);
        assert(raised(m, -104) == m);
        assert(pow2(52) * m <= square < pow2(53) * m) by (nonlinear_arith)
            requires
                square == pow2(52) * pow2(52),
                m == pow2(52),
                pow2(53) == 2 * pow2(52),
                pow2(52) > 0,
        ;
        lemma_nearest(1, m, -exponent_of(d), -104);
        lemma_rounding_range(square, m, m, m);
    } else {
        let p = pow2(105);
        assert(1 * p == p) by (nonlinear_arith);
        assert(raised(1, 105) == p);
        assert(raised(m, -105) == m);
        assert(pow2(52) * m <= p < pow2(53) * m) by (nonlinear_arith)
            requires
                p == pow2(52) * pow2(53),
                pow2(52) < m < pow2(53),
                pow2(52) > 0,
                pow2(53) > 0,
        ;
        lemma_nearest(1, m, -exponent_of(d), -105);
        lemma_rounding_range(p, m, pow2(52), pow2(53));
    }
}

/// Doubles are ordered by the numbers that they stand for: of two positive patterns the larger
/// stands for more, of two negative ones for less, a negative number is below a positive one, the
/// two zeros are equal, and what is not a number is neither below nor above anything.
pub proof fn law_order_follows_the_pattern(a: Double, b: Double)
    ensures
        a.bits < b.bits <= 0x7ff0_0000_0000_0000 ==> a.spec_less(b) && !b.spec_less(a),
        0x8000_0000_0000_0000 <= a.bits < b.bits <= 0xfff0_0000_0000_0000 ==> b.spec_less(a)
            && !a.spec_less(b),
        0x8000_0000_0000_0000 <= a.bits <= 0xfff0_0000_0000_0000 && b.bits
            <= 0x7ff0_0000_0000_0000 ==> !b.spec_less(a) && (a.spec_less(b) <==> !(a.bits
            == 0x8000_0000_0000_0000 && b.bits == 0)),
        !a.spec_less(a),
        a.spec_is_nan() <==> 0x7ff0_0000_0000_0000 < a.bits < 0x8000_0000_0000_0000 || a.bits
            > 0xfff0_0000_0000_0000,
        a.spec_is_nan() || b.spec_is_nan() ==> !a.spec_less(b) && !a.spec_at_most(b),
        !a.spec_is_nan() && !b.spec_is_nan() ==> (a.spec_at_most(b) <==> !b.spec_less(a)),
{
}

/// The order of doubles is transitive.
pub proof fn law_order_is_transitive(a: Double, b: Double, c: Double)
    ensures
        a.spec_less(b) && b.spec_less(c) ==> a.spec_less(c),
        a.spec_at_most(b) && b.spec_at_most(c) ==> a.spec_at_most(c),
        a.spec_less(b) && b.spec_at_most(c) ==> a.spec_less(c),
        a.spec_at_most(b) && b.spec_less(c) ==> a.spec_less(c),
{
}

/// A quotient is rounded to an integer no other integer is nearer to; of two equally near, to the
/// even one.
pub proof fn law_rounding_is_to_the_nearest(num: nat, den: nat)
    requires
        den > 0,
    ensures
        -(den as int) <= 2 * (nearest_integer(num, den) * den - num) <= den,
        2 * (nearest_integer(num, den) * den - num) == den || 2 * (nearest_integer(num, den) * den
            - num) == -(den as int) ==> nearest_integer(num, den) % 2 == 0,
{
    let q = num / den;
    let r = num % den;
    assert(num == q * den + r && 0 <= r < den) by (nonlinear_arith)
        requires
            den > 0,
            q == num / den,
            r == num % den,
    ;
    assert((q + 1) * den == q * den + den) by (nonlinear_arith);
}

proof fn lemma_small_natural(n: nat) -> (j: nat)
    requires
        0 < n < pow2(53),
    ensures
        j <= 52,
        pow2(j) <= n < pow2(j + 1),
        pow2(52) <= n * pow2((52 - j) as nat) < pow2(53),
        natural_bits(n) == (1023 + j) * FRACTION_RANGE + (n * pow2((52 - j) as nat)
            - FRACTION_RANGE),
{
    lemma2_to64();
    lemma2_to64_rest();
    let j = lemma_highest_bit(n);
    if j > 52 {
        lemma_pow2_strictly_increases(52, j);
        if j > 53 {
            lemma_pow2_strictly_increases(53, j);
        }
    }
    let k = j as int - 52;
    lemma_scale_down(n, j);
    let scaled = n * pow2((52 - j) as nat);
    assert(n * 1 == n) by (nonlinear_arith);
    assert(raised(n, -k) == scaled);
    assert(raised(1, k) == 1);
    assert(in_binade(n, 1, k));
    lemma_nearest(n, 1, 0, k);
    assert(nearest_integer(scaled as nat, 1) == scaled);
    j
}

/// A natural number below two to the power of fifty-three has a double of its own: the
/// significand and the exponent of the pattern give back the number, and a larger number has a
/// larger pattern.
pub proof fn law_small_naturals_are_exact(n: nat, m: nat)
    requires
        0 < n < pow2(53),
        m < n,
    ensures
        natural_bits(n) >= 1023 * pow2(52),
        n * pow2(52) == (pow2(52) + natural_bits(n) % pow2(52) as int) * pow2(
            (natural_bits(n) / pow2(52) as int - 1023) as nat,
        ),
        natural_bits(m) < natural_bits(n),
        natural_bits(0) == 0,
{
    lemma2_to64();
    lemma2_to64_rest();
    let j = lemma_small_natural(n);
    let f = FRACTION_RANGE as int;
    let scaled = n * pow2((52 - j) as nat);
    let b = natural_bits(n);
    assert(b == (1023 + j) * f + (scaled - f));
    assert(b / f == 1023 + j && b % f == scaled - f) by (nonlinear_arith)
        requires
            b == (1023 + j) * f + (scaled - f),
            0 <= scaled - f < f,
    ;
    lemma_pow2_adds((52 - j) as nat, j);
    let p = pow2((52 - j) as nat);
    let q = pow2(j);
    assert(n * (p * q) == (n * p) * q) by (nonlinear_arith);
    assert(b >= 1023 * f) by (nonlinear_arith)
        requires
            b == (1023 + j) * f + (scaled - f),
            scaled >= f,
            f > 0,
            j >= 0,
    ;
    if m > 0 {
        let i = lemma_small_natural(m);
        let less = m * pow2((52 - i) as nat);
        if i > j {
            if i > j + 1 {
                lemma_pow2_strictly_increases(j + 1, i);
            }
        }
        if i == j {
            assert(m * p < n * p) by (nonlinear_arith)
                requires
                    m < n,
                    p > 0,
            ;
        } else {
            assert((1023 + i) * f + (less - f) < (1023 + j) * f + (scaled - f))
                by (nonlinear_arith)
                requires
                    i + 1 <= j,
                    less < 2 * f,
                    scaled >= f,
                    f > 0,
            ;
        }
    }
}

/// The doubles of two integers within fifty-three bits are ordered as the integers are.
pub proof fn law_integers_keep_their_order(a: int, b: int)
    requires
        -pow2(53) < a < pow2(53),
        -pow2(53) < b < pow2(53),
    ensures
        0 <= integer_bits(a) <= u64::MAX,
        (Double { bits: integer_bits(a) as u64 }).spec_less(
            Double { bits: integer_bits(b) as u64 },
        ) <==> a < b,
        (Double { bits: integer_bits(a) as u64 }).spec_at_most(
            Double { bits: integer_bits(b) as u64 },
        ) <==> a <= b,
{
    lemma2_to64();
    lemma2_to64_rest();
    let m = (if a < 0 { -a } else { a }) as nat;
    let n = (if b < 0 { -b } else { b }) as nat;
    lemma_natural_bits(m);
    lemma_natural_bits(n);
    if m < n {
        law_small_naturals_are_exact(n, m);
    } else if n < m {
        law_small_naturals_are_exact(m, n);
    }
}

/// A sum does not depend on the order of its terms, zero adds nothing, and no sum is below one of
/// its terms.
pub proof fn law_sums_commute(a: u64, b: u64)
    requires
        is_sum_operand(a),
        is_sum_operand(b),
    ensures
        sum_bits(a, b) == sum_bits(b, a),
        sum_bits(a, 0) == a,
        sum_bits(0, b) == b,
        (Double { bits: a }).spec_at_most(Double { bits: sum_bits(a, b) as u64 }),
{
    lemma_sum_bits(a, b);
    if a != 0 && b != 0 && a < INFINITY_BITS && b < INFINITY_BITS && exponent_of(a) == exponent_of(
        b,
    ) {
        assert(significand_of(a) + significand_of(b) == significand_of(b) + significand_of(a));
    }
}

proof fn lemma_nearest_integer_scaled(num: nat, den: nat, c: nat)
    requires
        den > 0,
        c > 0,
    ensures
        nearest_integer(num * c, den * c) == nearest_integer(num, den),
{
    let q = num / den;
    let r = num % den;
    assert(num == q * den + r && 0 <= r < den) by (nonlinear_arith)
        requires
            den > 0,
            q == num / den,
            r == num % den,
    ;
    assert(num * c == q * (den * c) + r * c) by (nonlinear_arith)
        requires
            num == q * den + r,
    ;
    assert(0 <= r * c < den * c) by (nonlinear_arith)
        requires
            0 <= r < den,
            c > 0,
    ;
    vstd::arithmetic::div_mod::lemma_fundamental_div_mod_converse(
        (num * c) as int,
        (den * c) as int,
        q as int,
        (r * c) as int,
    );
    assert(2 * (r * c) < den * c <==> 2 * r < den) by (nonlinear_arith)
        requires
            c > 0,
    ;
    assert(2 * (r * c) == den * c <==> 2 * r == den) by (nonlinear_arith)
        requires
            c > 0,
    ;
}

/// Sums of natural numbers within fifty-three bits are exact.
pub proof fn law_sums_of_naturals_are_exact(a: nat, b: nat)
    requires
        a + b < pow2(53),
    ensures
        sum_bits(natural_bits(a) as u64, natural_bits(b) as u64) == natural_bits(a + b),
{
    lemma2_to64();
    lemma2_to64_rest();
    lemma_natural_bits(a);
    lemma_natural_bits(b);
    if a > 0 && b > 0 {
        let ja = lemma_small_natural(a);
        let jb = lemma_small_natural(b);
        let c = a + b;
        let jc = lemma_small_natural(c);
        let x = natural_bits(a) as u64;
        let y = natural_bits(b) as u64;
        lemma_pattern_fields(a, ja, x);
        lemma_pattern_fields(b, jb, y);
        let m = if ja <= jb { ja } else { jb };
        let t = (52 - m) as nat;
        if jc < m {
            lemma_pow2_strictly_increases(jc, m);
            if jc + 1 < m {
                lemma_pow2_strictly_increases(jc + 1, m);
            }
        }
        lemma_raised_term(a, ja, m);
        lemma_raised_term(b, jb, m);
        let total = c * pow2(t);
        assert(a * pow2(t) + b * pow2(t) == total) by (nonlinear_arith)
            requires
                total == (a + b) * pow2(t),
        ;
        assert(sum_bits(x, y) == nearest(total, 1, m as int - 52));
        let k = (jc - m) as nat;
        let p = pow2(k);
        let s = c * pow2((52 - jc) as nat);
        lemma_pow2_pos(k);
        lemma_pow2_adds((52 - jc) as nat, k);
        assert(total == s * p) by (nonlinear_arith)
            requires
                total == c * (pow2((52 - jc) as nat) * p),
                s == c * pow2((52 - jc) as nat),
        ;
        assert(p * 1 == p && 1 * p == p) by (nonlinear_arith);
        assert(raised(1, k as int) == p) by {
            if k == 0 {
                assert(pow2(0) == 1);
            }
        }
        assert(raised(total, -(k as int)) == total);
        assert(pow2(52) * p <= s * p < pow2(53) * p) by (nonlinear_arith)
            requires
                pow2(52) <= s < pow2(53),
                p > 0,
        ;
        assert(in_binade(total, 1, k as int));
        lemma_nearest(total, 1, m as int - 52, k as int);
        assert(nearest_integer(s * p, 1 * p) == nearest_integer(s, 1)) by {
            lemma_nearest_integer_scaled(s, 1, p);
        }
        assert(nearest_integer(s, 1) == s);
    }
}

proof fn lemma_pattern_fields(n: nat, j: nat, bits: u64)
    requires
        j <= 52,
        pow2(52) <= n * pow2((52 - j) as nat) < pow2(53),
        bits == (1023 + j) * FRACTION_RANGE + (n * pow2((52 - j) as nat) - FRACTION_RANGE),
    ensures
        exponent_of(bits) == j as int - 52,
        significand_of(bits) == n * pow2((52 - j) as nat),
        0 < bits < INFINITY_BITS,
{
    lemma2_to64();
    lemma2_to64_rest();
    let f = FRACTION_RANGE as int;
    let b = bits as int;
    let s = (n * pow2((52 - j) as nat)) as int;
    assert(b / f == 1023 + j && b % f == s - f) by (nonlinear_arith)
        requires
            b == (1023 + j) * f + (s - f),
            0 <= s - f < f,
    ;
    assert((1023 + j) * f <= b < (1024 + j) * f) by (nonlinear_arith)
        requires
            b == (1023 + j) * f + (s - f),
            0 <= s - f < f,
    ;
    assert((1024 + j) * f <= 1076 * f) by (nonlinear_arith)
        requires
            j <= 52,
            f > 0,
    ;
    assert((1023 + j) * f >= f) by (nonlinear_arith)
        requires
            j >= 0,
            f > 0,
    ;
}

proof fn lemma_raised_term(n: nat, j: nat, m: nat)
    requires
        m <= j <= 52,
    ensures
        raised(n * pow2((52 - j) as nat), j - m) == n * pow2((52 - m) as nat),
{
    if j > m {
        lemma_pow2_adds((52 - j) as nat, (j - m) as nat);
        let p = pow2((52 - j) as nat);
        let q = pow2((j - m) as nat);
        assert((n * p) * q == n * (p * q)) by (nonlinear_arith);
    }
}

/// The reciprocal of a natural number within fifty-three bits is the double nearest to the
/// fraction itself.
pub proof fn law_reciprocals_of_naturals_are_nearest(n: nat)
    requires
        0 < n < pow2(53),
    ensures
        reciprocal_bits(natural_bits(n) as u64) == nearest(1, n, 0),
{
    lemma2_to64();
    lemma2_to64_rest();
    lemma_natural_bits(n);
    let j = lemma_small_natural(n);
    let d = natural_bits(n) as u64;
    lemma_pattern_fields(n, j, d);
    let u = (52 - j) as nat;
    let c = pow2(u);
    let m = n * c;
    lemma_pow2_pos(u);
    lemma_pow2_adds(52, 52);
    lemma_pow2_adds(52, 53);
    let size: nat = if m == pow2(52) { 104 } else { 105 };
    let p = pow2(size);
    assert(1 * p == p) by (nonlinear_arith);
    assert(pow2(52) * m <= p < pow2(53) * m) by (nonlinear_arith)
        requires
            pow2(52) <= m < pow2(53),
            pow2(53) == 2 * pow2(52),
            pow2(52) > 0,
            (m == pow2(52) && p == pow2(52) * pow2(52)) || (m > pow2(52) && p == pow2(52) * pow2(
                53,
            )),
    ;
    assert(raised(1, size as int) == p);
    assert(raised(m, -(size as int)) == m);
    assert(in_binade(1, m, -(size as int)));
    lemma_nearest(1, m, u as int, -(size as int));
    let rest = (size - u) as nat;
    let q = pow2(rest);
    lemma_pow2_adds(rest, u);
    assert(1 * q == q) by (nonlinear_arith);
    assert(raised(1, rest as int) == q);
    assert(raised(n, -(rest as int)) == n);
    assert(pow2(52) * n <= q < pow2(53) * n) by (nonlinear_arith)
        requires
            pow2(52) * (n * c) <= q * c < pow2(53) * (n * c),
            c > 0,
    ;
    assert(in_binade(1, n, -(rest as int)));
    lemma_nearest(1, n, 0, -(rest as int));
    lemma_nearest_integer_scaled(q, n, c);
}

/// The pattern of a natural number below two to the power of fifty-three, by its highest bit.
pub proof fn lemma_natural_at(n: nat, j: nat)
    requires
        j <= 52,
        pow2(j) <= n < pow2(j + 1),
    ensures
        natural_bits(n) == (1023 + j) * FRACTION_RANGE + (n * pow2((52 - j) as nat)
            - FRACTION_RANGE),
{
    lemma2_to64();
    lemma2_to64_rest();
    lemma_pow2_pos(j);
    if j < 52 {
        lemma_pow2_strictly_increases(j + 1, 53);
    }
    let i = lemma_small_natural(n);
    if i < j {
        if i + 1 < j {
            lemma_pow2_strictly_increases(i + 1, j);
        }
    } else if j < i {
        if j + 1 < i {
            lemma_pow2_strictly_increases(j + 1, i);
        }
    }
}

/// A natural number beyond fifty-three bits has a double next to it: the number that the pattern
/// stands for is no further from it than half a unit in the last place.
pub proof fn law_large_naturals_are_nearest(n: nat)
    requires
        pow2(53) <= n <= u64::MAX,
    ensures
        ({
            let b = natural_bits(n);
            let e = (b / pow2(52) as int - 1075) as nat;
            let value = (pow2(52) + b % pow2(52) as int) * pow2(e);
            &&& b >= 1076 * pow2(52)
            &&& -(pow2(e) as int) <= 2 * (value - n) <= pow2(e)
        }),
{
    lemma2_to64();
    lemma2_to64_rest();
    let j = lemma_highest_bit(n);
    if j < 53 {
        if j < 52 {
            lemma_pow2_strictly_increases(j + 1, 53);
        }
    }
    let k = (j - 52) as nat;
    let d = pow2(k);
    lemma_scale_up(n, j);
    lemma_pow2_pos(k);
    assert(1 * d == d) by (nonlinear_arith);
    assert(raised(n, -(k as int)) == n);
    assert(raised(1, k as int) == d);
    assert(in_binade(n, 1, k as int));
    lemma_nearest(n, 1, 0, k as int);
    lemma_rounding_range(n, d, pow2(52), pow2(53));
    law_rounding_is_to_the_nearest(n, d);
    let r = nearest_integer(n, d) as int;
    let f = FRACTION_RANGE as int;
    let b = natural_bits(n);
    assert(b == (k + 1075) * f + (r - f));
    if r < 2 * f {
        assert(b / f == k + 1075 && b % f == r - f) by (nonlinear_arith)
            requires
                b == (k + 1075) * f + (r - f),
                0 <= r - f < f,
        ;
    } else {
        assert(b / f == k + 1076 && b % f == 0) by (nonlinear_arith)
            requires
                b == (k + 1075) * f + (r - f),
                r == 2 * f,
                f > 0,
        ;
        lemma_pow2_unfold(k + 1);
        assert(f * (2 * d) == r * d) by (nonlinear_arith)
            requires
                r == 2 * f,
        ;
    }
    assert(b >= 1076 * f) by (nonlinear_arith)
        requires
            b == (k + 1075) * f + (r - f),
            k >= 1,
            r >= f,
            f > 0,
    ;
}

/// Doubling both terms doubles the sum: the sum of two numbers one step of the exponent higher is
/// their sum one step higher.
pub proof fn law_sums_scale_with_their_terms(a: u64, b: u64)
    requires
        is_positive_normal(a),
        is_positive_normal(b),
        a < 2044 * FRACTION_RANGE,
        b < 2044 * FRACTION_RANGE,
    ensures
        sum_bits((a + FRACTION_RANGE) as u64, (b + FRACTION_RANGE) as u64) == sum_bits(a, b)
            + FRACTION_RANGE,
{
    lemma2_to64();
    lemma2_to64_rest();
    let f = FRACTION_RANGE as int;
    let x = (a + FRACTION_RANGE) as u64;
    let y = (b + FRACTION_RANGE) as u64;
    lemma_one_step_up(a);
    lemma_one_step_up(b);
    lemma_sum_bits(a, b);
    let low = if exponent_of(a) <= exponent_of(b) {
        exponent_of(a)
    } else {
        exponent_of(b)
    };
    let total = raised(significand_of(a), exponent_of(a) - low) + raised(
        significand_of(b),
        exponent_of(b) - low,
    );
    assert(sum_bits(a, b) == nearest(total, 1, low));
    assert(sum_bits(x, y) == nearest(total, 1, low + 1));
    let k = lemma_sum_binade(a, b, total, low);
    let s = nearest_integer(raised(total, -k), raised(1, k));
    lemma_nearest(total, 1, low, k);
    lemma_nearest(total, 1, low + 1, k);
    assert(sum_bits(a, b) <= 2045 * f);
    let e = k + low + 1075;
    if e + 1 >= 2047 && e < 2047 {
        assert(e * f + (s - f) > 2045 * f) by (nonlinear_arith)
            requires
                e >= 2046,
                s >= f,
                f > 0,
        ;
    }
    assert((e + 1) * f == e * f + f) by (nonlinear_arith);
}

proof fn lemma_sum_binade(a: u64, b: u64, total: nat, low: int) -> (k: int)
    requires
        is_positive_normal(a),
        is_positive_normal(b),
        low == if exponent_of(a) <= exponent_of(b) {
            exponent_of(a)
        } else {
            exponent_of(b)
        },
        total == raised(significand_of(a), exponent_of(a) - low) + raised(
            significand_of(b),
            exponent_of(b) - low,
        ),
    ensures
        in_binade(total, 1, k),
        nearest_integer(raised(total, -k), raised(1, k)) >= pow2(52),
{
    lemma2_to64();
    lemma2_to64_rest();
    let (high, small) = if a >= b {
        (a, b)
    } else {
        (b, a)
    };
    let gap = (exponent_of(high) - exponent_of(small)) as nat;
    let m = significand_of(high);
    let l = significand_of(small);
    lemma_pattern_of_normal(high);
    lemma_pattern_of_normal(small);
    assert(m * 1 == m) by (nonlinear_arith);
    assert(raised(m, gap as int) == m * pow2(gap));
    assert(raised(l, 0) == l);
    assert(total == m * pow2(gap) + l);
    if gap >= 54 {
        lemma_sum_far(m, l, gap);
        assert(raised(1, gap as int) == pow2(gap)) by {
            assert(1 * pow2(gap) == pow2(gap)) by (nonlinear_arith);
        }
        gap as int
    } else {
        let k = lemma_sum_near(m, l, gap);
        assert(raised(1, k as int) == pow2(k)) by {
            assert(1 * pow2(k) == pow2(k)) by (nonlinear_arith);
        }
        k as int
    }
}

proof fn lemma_one_step_up(a: u64)
    requires
        is_positive_normal(a),
        a < 2044 * FRACTION_RANGE,
    ensures
        exponent_of((a + FRACTION_RANGE) as u64) == exponent_of(a) + 1,
        significand_of((a + FRACTION_RANGE) as u64) == significand_of(a),
        is_positive_normal((a + FRACTION_RANGE) as u64),
{
    let f = FRACTION_RANGE as int;
    let v = a as int;
    assert((v + f) / f == v / f + 1 && (v + f) % f == v % f) by (nonlinear_arith)
        requires
            f > 0,
    ;
}

} // verus!
