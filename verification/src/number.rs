//! Exact decimal numbers: the numeric values of a configuration document.

use vstd::prelude::*;
use vstd::arithmetic::div_mod::{
    lemma_basic_div, lemma_div_nonincreasing, lemma_div_pos_is_pos, lemma_fundamental_div_mod,
    lemma_fundamental_div_mod_converse, lemma_mod_bound, lemma_small_mod,
};

verus! {

/// Ten to the power `e`.
pub open spec fn pow10(e: nat) -> nat
    decreases e,
{
    if e == 0 {
        1
    } else {
        10 * pow10((e - 1) as nat)
    }
}

/// Every power of ten is positive.
pub proof fn lemma_pow10_positive(e: nat)
    ensures
        pow10(e) > 0,
    decreases e,
{
    if e > 0 {
        lemma_pow10_positive((e - 1) as nat);
    }
}

/// The power of a sum is the product of the powers.
pub proof fn lemma_pow10_adds(a: nat, b: nat)
    ensures
        pow10(a + b) == pow10(a) * pow10(b),
    decreases a,
{
    if a == 0 {
        assert(pow10(0) == 1);
        assert(a + b == b);
        assert(1 * pow10(b) == pow10(b));
    } else {
        let a1 = (a - 1) as nat;
        lemma_pow10_adds(a1, b);
        assert((a + b - 1) as nat == a1 + b);
        assert(pow10(a + b) == 10 * pow10(a1 + b));
        assert(pow10(a) == 10 * pow10(a1));
        assert(10 * (pow10(a1) * pow10(b)) == (10 * pow10(a1)) * pow10(b)) by (nonlinear_arith);
    }
}

/// A larger exponent gives no smaller power.
pub proof fn lemma_pow10_monotone(a: nat, b: nat)
    requires
        a <= b,
    ensures
        pow10(a) <= pow10(b),
    decreases b,
{
    if a < b {
        lemma_pow10_monotone(a, (b - 1) as nat);
    }
}

/// The powers of ten that the machine bounds of this module rest on.
pub proof fn lemma_pow10_values()
    ensures
        pow10(0) == 1,
        pow10(1) == 10,
        pow10(2) == 100,
        pow10(18) == 1_000_000_000_000_000_000,
        pow10(19) == 10_000_000_000_000_000_000,
        pow10(20) == 100_000_000_000_000_000_000,
        pow10(37) == 10_000_000_000_000_000_000_000_000_000_000_000_000,
        pow10(38) == 100_000_000_000_000_000_000_000_000_000_000_000_000,
{
    reveal_with_fuel(pow10, 10);
    assert(pow10(9) == 1_000_000_000);
    assert(pow10(18) == 1_000_000_000_000_000_000);
    assert(pow10(20) == 100_000_000_000_000_000_000);
    assert(pow10(29) == 100_000_000_000_000_000_000_000_000_000);
    assert(pow10(38) == 100_000_000_000_000_000_000_000_000_000_000_000_000);
}

/// Computes a power of ten that fits the machine word.
pub fn power_of_ten(e: u32) -> (r: u128)
    requires
        e <= 38,
    ensures
        r == pow10(e as nat),
{
    let mut r: u128 = 1;
    let mut i: u32 = 0;
    while i < e
        invariant
            i <= e <= 38,
            r == pow10(i as nat),
        decreases e - i,
    {
        proof {
            lemma_pow10_monotone(i as nat, 37);
            lemma_pow10_values();
        }
        r = r * 10;
        i = i + 1;
    }
    r
}

/// How a negative dividend divides: the quotient rounds away from zero unless
/// the division is exact.
pub proof fn lemma_negated_division(m: nat, d: nat)
    requires
        d > 0,
    ensures
        (-(m as int)) / (d as int) == if m % d == 0 {
            -((m / d) as int)
        } else {
            -((m / d) as int) - 1
        },
{
    let q = (m / d) as int;
    let r = (m % d) as int;
    lemma_fundamental_div_mod(m as int, d as int);
    lemma_mod_bound(m as int, d as int);
    if r == 0 {
        assert(-(m as int) == (-q) * (d as int) + 0) by (nonlinear_arith)
            requires
                m as int == (d as int) * q + r,
                r == 0,
        ;
        lemma_fundamental_div_mod_converse(-(m as int), d as int, -q, 0);
    } else {
        assert(-(m as int) == (-q - 1) * (d as int) + (d - r)) by (nonlinear_arith)
            requires
                m as int == (d as int) * q + r,
        ;
        lemma_fundamental_div_mod_converse(-(m as int), d as int, -q - 1, d - r);
    }
}

/// A quotient is the greatest whole number whose multiple of the divisor
/// does not exceed the dividend.
pub proof fn lemma_quotient_is_greatest(x: int, d: int, k: int)
    requires
        d > 0,
    ensures
        (k <= x / d) <==> (k * d <= x),
{
    let q = x / d;
    let r = x % d;
    lemma_fundamental_div_mod(x, d);
    lemma_mod_bound(x, d);
    if k <= q {
        assert(k * d <= q * d) by (nonlinear_arith)
            requires
                k <= q,
                d > 0,
        ;
        assert(q * d == d * q) by (nonlinear_arith);
    } else {
        assert(k * d >= (q + 1) * d) by (nonlinear_arith)
            requires
                k >= q + 1,
                d > 0,
        ;
        assert((q + 1) * d == d * q + d) by (nonlinear_arith);
    }
}

/// Multiplying both sides by a positive factor keeps an order as it is.
pub proof fn lemma_scaled_order(x: int, y: int, t: int)
    requires
        t > 0,
    ensures
        (x <= y) <==> (x * t <= y * t),
        (x < y) <==> (x * t < y * t),
{
    if x <= y {
        assert(x * t <= y * t) by (nonlinear_arith)
            requires
                x <= y,
                t > 0,
        ;
    }
    if x < y {
        assert(x * t < y * t) by (nonlinear_arith)
            requires
                x < y,
                t > 0,
        ;
    }
    if x > y {
        assert(x * t > y * t) by (nonlinear_arith)
            requires
                x > y,
                t > 0,
        ;
    }
}

/// The number of digits of the plain numeral of `m`.
pub open spec fn digit_count(m: nat) -> nat
    decreases m,
{
    if m < 10 {
        1
    } else {
        1 + digit_count(m / 10)
    }
}

/// A number is below the power of ten of its number of digits.
pub proof fn lemma_digit_count(m: nat)
    ensures
        m < pow10(digit_count(m)),
        digit_count(m) >= 1,
    decreases m,
{
    if m < 10 {
        assert(pow10(1) == 10) by {
            reveal_with_fuel(pow10, 2);
        }
    } else {
        lemma_digit_count(m / 10);
    }
}

/// A number below a power of ten has no more digits than the exponent.
pub proof fn lemma_digit_count_bound(m: nat, e: nat)
    requires
        e >= 1,
        m < pow10(e),
    ensures
        digit_count(m) <= e,
    decreases m,
{
    if m >= 10 {
        if e == 1 {
            assert(pow10(1) == 10) by {
                reveal_with_fuel(pow10, 2);
            }
        } else {
            lemma_digit_count_bound(m / 10, (e - 1) as nat);
        }
    }
}

/// Counts the digits of the plain numeral of `m`.
pub fn count_digits(m: u64) -> (r: u32)
    ensures
        r == digit_count(m as nat),
        1 <= r <= 20,
    decreases m,
{
    proof {
        lemma_pow10_values();
        lemma_digit_count_bound(m as nat, 20);
    }
    if m < 10 {
        1
    } else {
        1 + count_digits(m / 10)
    }
}

/// A number of a configuration document, held exactly as a decimal: its value
/// is `mantissa * 10^exponent`, negated where `negative` is set.
#[derive(Clone, Copy, Debug, PartialEq, Eq, Structural)]
pub struct Number {
    pub negative: bool,
    pub mantissa: u64,
    pub exponent: i32,
}

impl Number {
    /// The mantissa with the sign applied.
    pub open spec fn signed(self) -> int {
        if self.negative {
            -(self.mantissa as int)
        } else {
            self.mantissa as int
        }
    }

    /// The largest integer not above `|value| * 10^digits`.
    pub open spec fn scaled_magnitude(self, digits: int) -> nat {
        let s = self.exponent + digits;
        if s >= 0 {
            self.mantissa as nat * pow10(s as nat)
        } else {
            self.mantissa as nat / pow10((-s) as nat)
        }
    }

    /// Whether `value * 10^digits` is an integer.
    pub open spec fn scales_exactly(self, digits: int) -> bool {
        let s = self.exponent + digits;
        s >= 0 || self.mantissa as nat % pow10((-s) as nat) == 0
    }

    /// The largest integer not above `value * 10^digits`.
    pub open spec fn scaled_floor(self, digits: int) -> int {
        let s = self.exponent + digits;
        if s >= 0 {
            self.signed() * pow10(s as nat)
        } else {
            self.signed() / (pow10((-s) as nat) as int)
        }
    }

    /// The smallest integer not below `value * 10^digits`.
    pub open spec fn scaled_ceil(self, digits: int) -> int {
        let s = self.exponent + digits;
        if s >= 0 {
            self.signed() * pow10(s as nat)
        } else {
            -((-self.signed()) / (pow10((-s) as nat) as int))
        }
    }

    /// Whether the nearest whole number to `|value| * 10^digits` is the one
    /// above it: more than a half is cut off, or just a half and the whole
    /// number below is odd.
    pub open spec fn rounds_up(self, digits: int) -> bool {
        let s = self.exponent + digits;
        s < 0 && {
            let unit = pow10((-s) as nat);
            let rest = self.mantissa as nat % unit;
            2 * rest > unit || (2 * rest == unit && (self.mantissa as nat / unit) % 2 == 1)
        }
    }

    /// The whole number nearest to `value * 10^digits`; of two that are
    /// equally near, the even one.
    pub open spec fn scaled_nearest(self, digits: int) -> int {
        let magnitude: int = if self.rounds_up(digits) {
            self.scaled_magnitude(digits) as int + 1
        } else {
            self.scaled_magnitude(digits) as int
        };
        if self.negative {
            -magnitude
        } else {
            magnitude
        }
    }

    /// The value with its fractional part dropped.
    pub open spec fn truncated(self) -> int {
        if self.negative {
            self.scaled_ceil(0)
        } else {
            self.scaled_floor(0)
        }
    }

    /// Whether the value is an integer.
    pub open spec fn integral(self) -> bool {
        self.scales_exactly(0)
    }

    /// Whether `|value| * 10^digits`, cut to a whole number, stays below
    /// `10^38`, and so within what 128 bits hold.
    pub open spec fn fits(self, digits: int) -> bool {
        self.scaled_magnitude(digits) < pow10(38)
    }

    /// The least exponent of ten, not below -18, that a step can have for
    /// the value to be held as a whole number of steps in 38 digits: the
    /// place of the value's first digit, less 38.
    pub open spec fn least_step(self) -> int {
        if self.mantissa == 0 {
            -18
        } else {
            self.exponent + digit_count(self.mantissa as nat) - 38
        }
    }

    /// The value as a whole multiple of `10^base`, for a `base` that is not
    /// above the exponent.
    pub open spec fn lifted(self, base: int) -> int {
        self.signed() * pow10((self.exponent - base) as nat)
    }

    /// Whether the value is below that of `other`.
    pub open spec fn less_than(self, other: Number) -> bool {
        let base = if self.exponent <= other.exponent {
            self.exponent as int
        } else {
            other.exponent as int
        };
        self.lifted(base) < other.lifted(base)
    }

    /// Whether the value is at most `k / 10^digits`.
    pub open spec fn at_most(self, k: int, digits: int) -> bool {
        let s = self.exponent + digits;
        if s >= 0 {
            self.signed() * pow10(s as nat) <= k
        } else {
            self.signed() <= k * pow10((-s) as nat)
        }
    }

    /// Whether the value is at least `k / 10^digits`.
    pub open spec fn at_least(self, k: int, digits: int) -> bool {
        let s = self.exponent + digits;
        if s >= 0 {
            self.signed() * pow10(s as nat) >= k
        } else {
            self.signed() >= k * pow10((-s) as nat)
        }
    }

    /// The scaled floor is the greatest whole number `k` with `k / 10^digits`
    /// at most the value.
    pub proof fn lemma_floor_is_greatest(self, digits: int, k: int)
        ensures
            (k <= self.scaled_floor(digits)) <==> self.at_least(k, digits),
    {
        let s = self.exponent + digits;
        if s < 0 {
            lemma_pow10_positive((-s) as nat);
            lemma_quotient_is_greatest(self.signed(), pow10((-s) as nat) as int, k);
        }
    }

    /// The scaled ceiling is the least whole number `k` with `k / 10^digits`
    /// at least the value.
    pub proof fn lemma_ceil_is_least(self, digits: int, k: int)
        ensures
            (k >= self.scaled_ceil(digits)) <==> self.at_most(k, digits),
    {
        let s = self.exponent + digits;
        if s < 0 {
            let d = pow10((-s) as nat) as int;
            lemma_pow10_positive((-s) as nat);
            lemma_quotient_is_greatest(-self.signed(), d, -k);
            assert((-k) * d == -(k * d)) by (nonlinear_arith);
        }
    }

    /// Lowering the base multiplies the lifted value by a power of ten.
    pub proof fn lemma_lifted_rebase(self, base: int, lower: int)
        requires
            lower <= base <= self.exponent,
        ensures
            self.lifted(lower) == self.lifted(base) * pow10((base - lower) as nat),
    {
        let a = (self.exponent - base) as nat;
        let b = (base - lower) as nat;
        lemma_pow10_adds(a, b);
        assert((self.exponent - lower) as nat == a + b);
        assert(self.signed() * (pow10(a) * pow10(b)) == (self.signed() * pow10(a)) * pow10(b))
            by (nonlinear_arith);
    }

    /// The order against `k / 10^digits`, over a common base.
    pub proof fn lemma_order_over_base(self, k: int, digits: int, base: int)
        requires
            base <= self.exponent,
            base <= -digits,
        ensures
            self.at_most(k, digits) <==> self.lifted(base) <= k * pow10((-digits - base) as nat),
            self.at_least(k, digits) <==> self.lifted(base) >= k * pow10((-digits - base) as nat),
    {
        let s = self.exponent + digits;
        let up = (-digits - base) as nat;
        lemma_pow10_positive(up);
        if s >= 0 {
            // scale `signed * 10^s ? k` by `10^up`
            let x = self.signed() * pow10(s as nat);
            lemma_scaled_order(x, k, pow10(up) as int);
            lemma_scaled_order(k, x, pow10(up) as int);
            lemma_pow10_adds(s as nat, up);
            assert((self.exponent - base) as nat == s as nat + up);
            assert(self.signed() * (pow10(s as nat) * pow10(up)) == x * pow10(up))
                by (nonlinear_arith)
                requires
                    x == self.signed() * pow10(s as nat),
            ;
        } else {
            // scale `signed ? k * 10^-s` by `10^(exponent - base)`
            let t = (self.exponent - base) as nat;
            let y = k * pow10((-s) as nat);
            lemma_pow10_positive(t);
            lemma_scaled_order(self.signed(), y, pow10(t) as int);
            lemma_scaled_order(y, self.signed(), pow10(t) as int);
            lemma_pow10_adds((-s) as nat, t);
            assert(up == (-s) as nat + t);
            assert(k * (pow10((-s) as nat) * pow10(t)) == y * pow10(t)) by (nonlinear_arith)
                requires
                    y == k * pow10((-s) as nat),
            ;
        }
    }

    /// A value that scales exactly is its own floor and ceiling.
    pub proof fn lemma_exact_scaling(self, digits: int)
        requires
            self.scales_exactly(digits),
        ensures
            self.scaled_floor(digits) == self.scaled_ceil(digits),
            self.scaled_nearest(digits) == self.scaled_floor(digits),
    {
        self.lemma_floor_ceil_by_magnitude(digits);
        let s = self.exponent + digits;
        if s < 0 {
            lemma_pow10_positive((-s) as nat);
        }
    }

    /// Bounds that are in order, one of them a whole number of steps itself,
    /// have a step between them: the lower bound rounded up is not above the
    /// upper one rounded down.
    pub proof fn lemma_steps_in_order(min: Number, max: Number, digits: int)
        requires
            !max.less_than(min),
            min.scales_exactly(digits) || max.scales_exactly(digits),
        ensures
            min.scaled_ceil(digits) <= max.scaled_floor(digits),
    {
        let both = if min.exponent <= max.exponent {
            min.exponent as int
        } else {
            max.exponent as int
        };
        let base = if both <= -digits {
            both
        } else {
            -digits
        };
        min.lemma_lifted_rebase(both, base);
        max.lemma_lifted_rebase(both, base);
        lemma_pow10_positive((both - base) as nat);
        lemma_scaled_order(max.lifted(both), min.lifted(both), pow10((both - base) as nat) as int);
        assert(min.lifted(base) <= max.lifted(base));
        if max.scales_exactly(digits) {
            // the upper bound is a step, and the lower bound is not above it
            let high = max.scaled_floor(digits);
            max.lemma_exact_scaling(digits);
            max.lemma_ceil_is_least(digits, high);
            max.lemma_order_over_base(high, digits, base);
            min.lemma_order_over_base(high, digits, base);
            min.lemma_ceil_is_least(digits, high);
        } else {
            let low = min.scaled_ceil(digits);
            min.lemma_exact_scaling(digits);
            min.lemma_floor_is_greatest(digits, low);
            min.lemma_order_over_base(low, digits, base);
            max.lemma_order_over_base(low, digits, base);
            max.lemma_floor_is_greatest(digits, low);
        }
    }

    /// The order against `k / 10^digits` is the order against the same
    /// number written with more digits.
    pub proof fn lemma_order_rescaled(self, k: int, digits: int, more: nat)
        ensures
            self.at_most(k, digits) == self.at_most(k * pow10(more), digits + more),
            self.at_least(k, digits) == self.at_least(k * pow10(more), digits + more),
    {
        let base = if self.exponent <= -(digits + more) {
            self.exponent as int
        } else {
            -(digits + more)
        };
        let up = (-(digits + more) - base) as nat;
        self.lemma_order_over_base(k, digits, base);
        self.lemma_order_over_base(k * pow10(more), digits + more, base);
        lemma_pow10_adds(more, up);
        assert((-digits - base) as nat == more + up);
        assert((k * pow10(more)) * pow10(up) == k * (pow10(more) * pow10(up))) by (nonlinear_arith);
    }

    /// What makes a whole number the nearest one: over a common base, twice
    /// the value lies within one step around twice the number, and on the
    /// edge only where the number is even.
    pub proof fn lemma_nearest_is_near(self, digits: int, base: int)
        requires
            base <= self.exponent,
            base <= -digits,
        ensures
            ({
                let n = self.scaled_nearest(digits);
                let unit = pow10((-digits - base) as nat) as int;
                let twice = 2 * self.lifted(base);
                &&& (2 * n - 1) * unit <= twice <= (2 * n + 1) * unit
                &&& twice == (2 * n + 1) * unit ==> n % 2 == 0
                &&& twice == (2 * n - 1) * unit ==> n % 2 == 0
            }),
    {
        let s = self.exponent + digits;
        let n = self.scaled_nearest(digits);
        let up = (-digits - base) as nat;
        let unit = pow10(up) as int;
        let t = pow10((self.exponent - base) as nat) as int;
        let m = self.mantissa as int;
        let x = self.signed();
        lemma_pow10_positive(up);
        lemma_pow10_positive((self.exponent - base) as nat);
        if s >= 0 {
            let p = pow10(s as nat) as int;
            lemma_pow10_adds(s as nat, up);
            assert((self.exponent - base) as nat == s as nat + up);
            assert(m * p >= 0) by (nonlinear_arith)
                requires
                    m >= 0,
                    p >= 0,
            ;
            assert(n == x * p) by (nonlinear_arith)
                requires
                    n == if self.negative {
                        -(m * p)
                    } else {
                        m * p
                    },
                    x == if self.negative {
                        -m
                    } else {
                        m
                    },
            ;
            assert(2 * (x * t) == 2 * n * unit) by (nonlinear_arith)
                requires
                    n == x * p,
                    t == p * unit,
            ;
            assert((2 * n - 1) * unit < 2 * n * unit < (2 * n + 1) * unit) by (nonlinear_arith)
                requires
                    unit > 0,
            ;
        } else {
            let d = pow10((-s) as nat) as int;
            lemma_pow10_positive((-s) as nat);
            lemma_pow10_adds((-s) as nat, (self.exponent - base) as nat);
            assert(up == (-s) as nat + (self.exponent - base) as nat);
            assert(unit == d * t);
            let q = m / d;
            let rest = m % d;
            lemma_fundamental_div_mod(m, d);
            lemma_mod_bound(m, d);
            let near: int = if self.rounds_up(digits) {
                q + 1
            } else {
                q
            };
            // the magnitude, in steps of `d`
            assert((2 * near - 1) * d <= 2 * m <= (2 * near + 1) * d) by (nonlinear_arith)
                requires
                    m == d * q + rest,
                    0 <= rest < d,
                    near == q + 1 ==> 2 * rest >= d,
                    near == q ==> 2 * rest <= d,
                    near == q || near == q + 1,
            ;
            assert(2 * m == (2 * near + 1) * d ==> near % 2 == 0) by (nonlinear_arith)
                requires
                    m == d * q + rest,
                    0 <= rest < d,
                    near == q + 1 ==> 2 * rest >= d,
                    near == q ==> (2 * rest < d || (2 * rest == d && q % 2 == 0)),
                    near == q || near == q + 1,
            ;
            assert(2 * m == (2 * near - 1) * d ==> near % 2 == 0) by (nonlinear_arith)
                requires
                    m == d * q + rest,
                    0 <= rest < d,
                    near == q + 1 ==> (2 * rest > d || (2 * rest == d && q % 2 == 1)),
                    near == q ==> 2 * rest <= d,
                    near == q || near == q + 1,
            ;
            // the same, in steps of the base
            lemma_scaled_order((2 * near - 1) * d, 2 * m, t);
            lemma_scaled_order(2 * m, (2 * near - 1) * d, t);
            lemma_scaled_order(2 * m, (2 * near + 1) * d, t);
            lemma_scaled_order((2 * near + 1) * d, 2 * m, t);
            assert(((2 * near - 1) * d) * t == (2 * near - 1) * unit) by (nonlinear_arith)
                requires
                    unit == d * t,
            ;
            assert(((2 * near + 1) * d) * t == (2 * near + 1) * unit) by (nonlinear_arith)
                requires
                    unit == d * t,
            ;
            assert((2 * m) * t == 2 * (m * t)) by (nonlinear_arith);
            if self.negative {
                assert(n == -near);
                assert(x * t == -(m * t)) by (nonlinear_arith)
                    requires
                        x == -m,
                ;
                assert((2 * n - 1) * unit == -((2 * near + 1) * unit)) by (nonlinear_arith)
                    requires
                        n == -near,
                ;
                assert((2 * n + 1) * unit == -((2 * near - 1) * unit)) by (nonlinear_arith)
                    requires
                        n == -near,
                ;
            } else {
                assert(n == near);
                assert(x == m);
            }
        }
    }

    /// Numbers in order have their nearest whole numbers in order.
    pub proof fn lemma_nearest_in_order(min: Number, max: Number, digits: int)
        requires
            !max.less_than(min),
        ensures
            min.scaled_nearest(digits) <= max.scaled_nearest(digits),
    {
        let a = min.scaled_nearest(digits);
        let b = max.scaled_nearest(digits);
        let both = if min.exponent <= max.exponent {
            min.exponent as int
        } else {
            max.exponent as int
        };
        let base = if both <= -digits {
            both
        } else {
            -digits
        };
        let unit = pow10((-digits - base) as nat) as int;
        lemma_pow10_positive((-digits - base) as nat);
        min.lemma_nearest_is_near(digits, base);
        max.lemma_nearest_is_near(digits, base);
        min.lemma_lifted_rebase(both, base);
        max.lemma_lifted_rebase(both, base);
        lemma_pow10_positive((both - base) as nat);
        lemma_scaled_order(max.lifted(both), min.lifted(both), pow10((both - base) as nat) as int);
        assert(min.lifted(base) <= max.lifted(base));
        if a > b {
            assert((2 * a - 1) * unit >= (2 * b + 1) * unit) by (nonlinear_arith)
                requires
                    a >= b + 1,
                    unit > 0,
            ;
            assert(a == b + 1) by (nonlinear_arith)
                requires
                    (2 * a - 1) * unit == (2 * b + 1) * unit,
                    unit > 0,
            ;
        }
    }

    /// Floor and ceiling, from the magnitude and the sign.
    pub proof fn lemma_floor_ceil_by_magnitude(self, digits: int)
        ensures
            self.scaled_floor(digits) == if !self.negative {
                self.scaled_magnitude(digits) as int
            } else if self.scales_exactly(digits) {
                -(self.scaled_magnitude(digits) as int)
            } else {
                -(self.scaled_magnitude(digits) as int) - 1
            },
            self.scaled_ceil(digits) == if self.negative {
                -(self.scaled_magnitude(digits) as int)
            } else if self.scales_exactly(digits) {
                self.scaled_magnitude(digits) as int
            } else {
                self.scaled_magnitude(digits) as int + 1
            },
    {
        let s = self.exponent + digits;
        let m = self.mantissa as nat;
        if s >= 0 {
            assert((-(m as int)) * pow10(s as nat) == -(m * pow10(s as nat))) by (nonlinear_arith);
        } else {
            let d = pow10((-s) as nat);
            lemma_pow10_positive((-s) as nat);
            lemma_negated_division(m, d);
        }
    }

    /// The truncated value is the magnitude with the sign applied.
    pub proof fn lemma_truncated_by_magnitude(self)
        ensures
            self.truncated() == if self.negative {
                -(self.scaled_magnitude(0) as int)
            } else {
                self.scaled_magnitude(0) as int
            },
    {
        self.lemma_floor_ceil_by_magnitude(0);
    }

    /// Zero fits at any number of digits, and so does every value at digits
    /// that leave a whole number of at most the mantissa.
    pub proof fn lemma_small_fits(self, digits: int)
        requires
            self.mantissa == 0 || self.exponent + digits < 0,
        ensures
            self.fits(digits),
            self.scaled_magnitude(digits) <= self.mantissa,
    {
        let s = self.exponent + digits;
        lemma_pow10_values();
        if s >= 0 {
            assert(0 * pow10(s as nat) == 0) by (nonlinear_arith);
        } else {
            lemma_pow10_positive((-s) as nat);
            lemma_div_nonincreasing(self.mantissa as int, pow10((-s) as nat) as int);
            lemma_div_pos_is_pos(self.mantissa as int, pow10((-s) as nat) as int);
        }
    }

    /// A value fits at the digits that a step not below its least step leaves,
    /// and its floor, ceiling and nearest whole number there are held by 128
    /// bits.
    pub proof fn lemma_fits_from_step(self, step: int)
        requires
            step >= self.least_step(),
        ensures
            self.fits(-step),
            i128::MIN < self.scaled_floor(-step) < i128::MAX,
            i128::MIN < self.scaled_ceil(-step) < i128::MAX,
            i128::MIN < self.scaled_nearest(-step) < i128::MAX,
    {
        let s = self.exponent - step;
        let m = self.mantissa as nat;
        lemma_pow10_values();
        if m == 0 || s < 0 {
            self.lemma_small_fits(-step);
        } else {
            let count = digit_count(m);
            lemma_digit_count(m);
            lemma_pow10_adds(count, s as nat);
            lemma_pow10_monotone(count + s as nat, 38);
            lemma_pow10_positive(s as nat);
            assert(m * pow10(s as nat) < pow10(count) * pow10(s as nat)) by (nonlinear_arith)
                requires
                    m < pow10(count),
                    pow10(s as nat) > 0,
            ;
        }
        self.lemma_floor_ceil_by_magnitude(-step);
    }

    /// Tells whether `|value| * 10^digits`, cut to a whole number, stays below
    /// `10^38`.
    pub fn is_fitting(&self, digits: i32) -> (r: bool)
        ensures
            r == self.fits(digits as int),
    {
        let s: i64 = self.exponent as i64 + digits as i64;
        proof {
            lemma_pow10_values();
        }
        if self.mantissa == 0 || s < 0 {
            proof {
                self.lemma_small_fits(digits as int);
            }
            true
        } else if s >= 38 {
            proof {
                lemma_pow10_monotone(38, s as nat);
                assert(self.mantissa as nat * pow10(s as nat) >= pow10(s as nat))
                    by (nonlinear_arith)
                    requires
                        self.mantissa >= 1,
                ;
            }
            false
        } else {
            let limit = power_of_ten((38 - s) as u32);
            proof {
                lemma_pow10_adds((38 - s) as nat, s as nat);
                lemma_pow10_positive(s as nat);
                lemma_scaled_order(self.mantissa as int, limit as int, pow10(s as nat) as int);
            }
            (self.mantissa as u128) < limit
        }
    }

    /// The magnitude of the value scaled by `digits` decimal places, rounded
    /// toward zero; whether nothing was rounded away; and whether the nearest
    /// whole number is the one above.
    fn magnitude_scaled(&self, digits: i32) -> (r: (u128, bool, bool))
        requires
            self.fits(digits as int),
        ensures
            r.0 == self.scaled_magnitude(digits as int),
            r.1 == self.scales_exactly(digits as int),
            r.2 == self.rounds_up(digits as int),
            r.0 < pow10(38),
    {
        proof {
            lemma_pow10_values();
        }
        let m: u128 = self.mantissa as u128;
        let s: i64 = self.exponent as i64 + digits as i64;
        if s >= 0 {
            if self.mantissa == 0 {
                assert(0 * pow10(s as nat) == 0) by (nonlinear_arith);
                (0, true, false)
            } else {
                proof {
                    if s >= 38 {
                        lemma_pow10_monotone(38, s as nat);
                        assert(m as nat * pow10(s as nat) >= pow10(s as nat)) by (nonlinear_arith)
                            requires
                                m >= 1,
                        ;
                    }
                }
                let pw = power_of_ten(s as u32);
                (m * pw, true, false)
            }
        } else if s <= -20 {
            proof {
                lemma_pow10_monotone(20, (-s) as nat);
                lemma_basic_div(m as int, pow10((-s) as nat) as int);
                lemma_small_mod(m as nat, pow10((-s) as nat));
            }
            (0, self.mantissa == 0, false)
        } else {
            let pw = power_of_ten((-s) as u32);
            proof {
                lemma_pow10_positive((-s) as nat);
                lemma_pow10_monotone((-s) as nat, 19);
                lemma_mod_bound(m as int, pw as int);
            }
            let whole = m / pw;
            let rest = m % pw;
            (whole, rest == 0, 2 * rest > pw || (2 * rest == pw && whole % 2 == 1))
        }
    }

    /// The largest integer not above `value * 10^digits`, where the value
    /// fits at those digits; `None` where it does not.
    pub fn floor_scaled(&self, digits: i32) -> (r: Option<i128>)
        ensures
            r.is_some() == self.fits(digits as int),
            r.is_some() ==> r.unwrap() == self.scaled_floor(digits as int),
    {
        if !self.is_fitting(digits) {
            return None;
        }
        let (q, exact, _) = self.magnitude_scaled(digits);
        proof {
            self.lemma_floor_ceil_by_magnitude(digits as int);
            lemma_pow10_values();
        }
        if !self.negative {
            Some(q as i128)
        } else if exact {
            Some(-(q as i128))
        } else {
            Some(-(q as i128) - 1)
        }
    }

    /// The smallest integer not below `value * 10^digits`, where the value
    /// fits at those digits; `None` where it does not.
    pub fn ceil_scaled(&self, digits: i32) -> (r: Option<i128>)
        ensures
            r.is_some() == self.fits(digits as int),
            r.is_some() ==> r.unwrap() == self.scaled_ceil(digits as int),
    {
        if !self.is_fitting(digits) {
            return None;
        }
        let (q, exact, _) = self.magnitude_scaled(digits);
        proof {
            self.lemma_floor_ceil_by_magnitude(digits as int);
            lemma_pow10_values();
        }
        if self.negative {
            Some(-(q as i128))
        } else if exact {
            Some(q as i128)
        } else {
            Some(q as i128 + 1)
        }
    }

    /// The whole number nearest to `value * 10^digits`, the even one of two
    /// that are equally near, where the value fits at those digits; `None`
    /// where it does not.
    pub fn nearest_scaled(&self, digits: i32) -> (r: Option<i128>)
        ensures
            r.is_some() == self.fits(digits as int),
            r.is_some() ==> r.unwrap() == self.scaled_nearest(digits as int),
    {
        if !self.is_fitting(digits) {
            return None;
        }
        let (q, _, up) = self.magnitude_scaled(digits);
        proof {
            lemma_pow10_values();
        }
        let magnitude: i128 = if up {
            q as i128 + 1
        } else {
            q as i128
        };
        if self.negative {
            Some(-magnitude)
        } else {
            Some(magnitude)
        }
    }

    /// The least step at which the value fits.
    pub fn step_needed(&self) -> (r: i64)
        ensures
            r == self.least_step(),
    {
        if self.mantissa == 0 {
            -18
        } else {
            self.exponent as i64 + count_digits(self.mantissa) as i64 - 38
        }
    }

    /// A mantissa times a power of ten, where `u64` holds the product; `None`
    /// where it does not, and the product so is above every mantissa.
    fn raised(mantissa: u64, gap: i64) -> (r: Option<u128>)
        requires
            gap >= 0,
        ensures
            match r {
                Some(v) => v == mantissa as nat * pow10(gap as nat),
                None => mantissa as nat * pow10(gap as nat) > u64::MAX,
            },
    {
        proof {
            lemma_pow10_values();
        }
        if mantissa == 0 {
            assert(0 * pow10(gap as nat) == 0) by (nonlinear_arith);
            Some(0)
        } else if gap >= 20 {
            proof {
                lemma_pow10_monotone(20, gap as nat);
                assert(mantissa as nat * pow10(gap as nat) >= pow10(gap as nat))
                    by (nonlinear_arith)
                    requires
                        mantissa >= 1,
                ;
            }
            None
        } else {
            let pw = power_of_ten(gap as u32);
            proof {
                lemma_pow10_monotone(gap as nat, 19);
                assert(mantissa as nat * pow10(gap as nat) <= 0xffff_ffff_ffff_ffff * pow10(19))
                    by (nonlinear_arith)
                    requires
                        mantissa <= 0xffff_ffff_ffff_ffff,
                        pow10(gap as nat) <= pow10(19),
                ;
            }
            let v: u128 = (mantissa as u128) * pw;
            if v > 0xffff_ffff_ffff_ffff {
                None
            } else {
                Some(v)
            }
        }
    }

    /// Tells whether the value is below that of `other`.
    pub fn is_less_than(&self, other: &Number) -> (r: bool)
        ensures
            r == self.less_than(*other),
    {
        let (mine, theirs) = if self.exponent <= other.exponent {
            (
                Number::raised(self.mantissa, 0),
                Number::raised(other.mantissa, other.exponent as i64 - self.exponent as i64),
            )
        } else {
            (
                Number::raised(self.mantissa, self.exponent as i64 - other.exponent as i64),
                Number::raised(other.mantissa, 0),
            )
        };
        proof {
            assert(pow10(0) == 1);
            let base = if self.exponent <= other.exponent {
                self.exponent as int
            } else {
                other.exponent as int
            };
            let x = self.mantissa as nat * pow10((self.exponent - base) as nat);
            let y = other.mantissa as nat * pow10((other.exponent - base) as nat);
            assert(self.lifted(base) == if self.negative {
                -(x as int)
            } else {
                x as int
            }) by (nonlinear_arith)
                requires
                    x == self.mantissa as nat * pow10((self.exponent - base) as nat),
                    self.lifted(base) == self.signed() * pow10((self.exponent - base) as nat),
                    self.signed() == if self.negative {
                        -(self.mantissa as int)
                    } else {
                        self.mantissa as int
                    },
            ;
            assert(other.lifted(base) == if other.negative {
                -(y as int)
            } else {
                y as int
            }) by (nonlinear_arith)
                requires
                    y == other.mantissa as nat * pow10((other.exponent - base) as nat),
                    other.lifted(base) == other.signed() * pow10((other.exponent - base) as nat),
                    other.signed() == if other.negative {
                        -(other.mantissa as int)
                    } else {
                        other.mantissa as int
                    },
            ;
        }
        // `None` stands for a magnitude above every other that occurs
        let (below, above, both_zero) = match (mine, theirs) {
            (Some(x), Some(y)) => (x < y, x > y, x == 0 && y == 0),
            (Some(_), None) => (true, false, false),
            (None, _) => (false, true, false),
        };
        if self.negative && other.negative {
            above
        } else if self.negative {
            !both_zero
        } else if other.negative {
            false
        } else {
            below
        }
    }

    /// The value with its fractional part dropped, where `i64` holds it.
    pub fn to_i64(&self) -> (r: Option<i64>)
        ensures
            r == if i64::MIN <= self.truncated() <= i64::MAX {
                Some(self.truncated() as i64)
            } else {
                None::<i64>
            },
    {
        proof {
            lemma_pow10_values();
            self.lemma_truncated_by_magnitude();
        }
        let t = if self.negative {
            self.ceil_scaled(0)
        } else {
            self.floor_scaled(0)
        };
        match t {
            None => None,
            Some(v) => {
                if -0x8000_0000_0000_0000 <= v && v <= 0x7fff_ffff_ffff_ffff {
                    Some(v as i64)
                } else {
                    None
                }
            },
        }
    }

    /// The value, where it is a whole number that `u64` holds.
    pub fn to_u64(&self) -> (r: Option<u64>)
        ensures
            r == if self.integral() && 0 <= self.truncated() <= u64::MAX {
                Some(self.truncated() as u64)
            } else {
                None::<u64>
            },
    {
        proof {
            lemma_pow10_values();
            self.lemma_truncated_by_magnitude();
        }
        if !self.is_fitting(0) {
            return None;
        }
        let (q, exact, _) = self.magnitude_scaled(0);
        if exact && (q == 0 || !self.negative) && q <= 0xffff_ffff_ffff_ffff {
            Some(q as u64)
        } else {
            None
        }
    }

    /// A whole number.
    pub fn from_i64(v: i64) -> (r: Number)
        ensures
            r.exponent == 0,
            r.negative == (v < 0),
            r.signed() == v,
    {
        if v < 0 {
            Number { negative: true, mantissa: (-(v as i128)) as u64, exponent: 0 }
        } else {
            Number { negative: false, mantissa: v as u64, exponent: 0 }
        }
    }

    /// A whole number that is not negative.
    pub fn from_u64(v: u64) -> (r: Number)
        ensures
            r == (Number { negative: false, mantissa: v, exponent: 0 }),
    {
        Number { negative: false, mantissa: v, exponent: 0 }
    }

    /// The number `mantissa * 10^exponent`, negated where `negative` is set.
    pub fn from_parts(negative: bool, mantissa: u64, exponent: i32) -> (r: Number)
        ensures
            r == (Number { negative, mantissa, exponent }),
    {
        Number { negative, mantissa, exponent }
    }
}

} // verus!
