use vstd::prelude::*;

verus! {

/// Ten to the power `n`.
pub open spec fn pow10(n: nat) -> int
    decreases n,
{
    if n == 0 {
        1
    } else {
        10 * pow10((n - 1) as nat)
    }
}

/// The largest number of fraction digits a reading may carry.
pub const MAX_READING_SCALE: u32 = 18;

/// Readings keep their coefficient strictly below this bound in absolute value.
pub const READING_BOUND: i128 = 1_000_000_000_000_000_000;

/// A decimal number, `coefficient / 10^scale`, kept exactly.
#[derive(Clone, Copy, Debug, PartialEq, Eq, Structural)]
pub struct Decimal {
    pub coefficient: i128,
    pub scale: u32,
}

impl Decimal {
    /// The number times `10^s`, for any `s` at least the decimal's own scale.
    pub open spec fn at_scale(self, s: nat) -> int
        recommends
            self.scale <= s,
    {
        self.coefficient * pow10((s - self.scale) as nat)
    }

    /// A decimal that a reading of the upstream document can hold: at most
    /// eighteen fraction digits and a coefficient of at most eighteen digits.
    pub open spec fn is_reading(self) -> bool {
        &&& self.scale <= MAX_READING_SCALE
        &&& -READING_BOUND < self.coefficient < READING_BOUND
    }

    /// Zero, written `0.0`.
    pub fn zero() -> (r: Decimal)
        ensures
            r.is_reading(),
            r.coefficient == 0,
            r.scale == 1,
    {
        Decimal { coefficient: 0, scale: 1 }
    }
}

pub proof fn lemma_pow10_positive(n: nat)
    ensures
        pow10(n) >= 1,
    decreases n,
{
    if n > 0 {
        lemma_pow10_positive((n - 1) as nat);
    }
}

pub proof fn lemma_pow10_add(a: nat, b: nat)
    ensures
        pow10(a + b) == pow10(a) * pow10(b),
    decreases a,
{
    if a > 0 {
        lemma_pow10_add((a - 1) as nat, b);
        assert(pow10(a + b) == 10 * pow10((a - 1 + b) as nat));
        assert(10 * (pow10((a - 1) as nat) * pow10(b)) == (10 * pow10((a - 1) as nat)) * pow10(b))
            by (nonlinear_arith);
    }
}

pub proof fn lemma_pow10_monotone(a: nat, b: nat)
    requires
        a <= b,
    ensures
        pow10(a) <= pow10(b),
    decreases b,
{
    if a < b {
        lemma_pow10_monotone(a, (b - 1) as nat);
        lemma_pow10_positive((b - 1) as nat);
    }
}

/// `10^n` for the exponents that fit the readings.
pub fn power_of_ten(n: u32) -> (r: i128)
    requires
        n <= MAX_READING_SCALE + 1,
    ensures
        r == pow10(n as nat),
{
    let mut r: i128 = 1;
    let mut i: u32 = 0;
    while i < n
        invariant
            i <= n,
            n <= MAX_READING_SCALE + 1,
            r == pow10(i as nat),
        decreases n - i,
    {
        proof {
            lemma_pow10_monotone((i + 1) as nat, 19);
            reveal_with_fuel(pow10, 20);
            assert(pow10(19) == 10_000_000_000_000_000_000);
        }
        r = r * 10;
        i = i + 1;
    }
    r
}

/// The baseline that the mean temperature is measured against.
pub const BASELINE: i128 = 55;

/// A coefficient of a reading scaled by at most `10^18` stays within `10^36`.
proof fn lemma_scaled_reading_bound(c: int, p: int)
    requires
        -1_000_000_000_000_000_000 < c < 1_000_000_000_000_000_000,
        1 <= p <= 1_000_000_000_000_000_000,
    ensures
        -1_000_000_000_000_000_000_000_000_000_000_000_000 <= c * p
            <= 1_000_000_000_000_000_000_000_000_000_000_000_000,
{
    assert(-1_000_000_000_000_000_000_000_000_000_000_000_000 <= c * p
        <= 1_000_000_000_000_000_000_000_000_000_000_000_000) by (nonlinear_arith)
        requires
            -1_000_000_000_000_000_000 < c < 1_000_000_000_000_000_000,
            1 <= p <= 1_000_000_000_000_000_000,
    ;
}

/// Scaling a reading one digit further multiplies its scaled value by ten.
proof fn lemma_at_next_scale(d: Decimal, s: nat)
    requires
        d.scale <= s,
    ensures
        d.at_scale(s + 1) == 10 * d.at_scale(s),
{
    assert(((s + 1) - d.scale) as nat == ((s - d.scale) as nat + 1) as nat);
    let c = d.coefficient as int;
    let p = pow10((s - d.scale) as nat);
    assert(c * (10 * p) == 10 * (c * p)) by (nonlinear_arith);
}

/// `10^n` is at most `10^18` for the scales of readings.
proof fn lemma_pow10_reading_scale(n: nat)
    requires
        n <= 18,
    ensures
        1 <= pow10(n) <= 1_000_000_000_000_000_000,
{
    lemma_pow10_monotone(n, 18);
    lemma_pow10_positive(n);
    reveal_with_fuel(pow10, 19);
    assert(pow10(18) == 1_000_000_000_000_000_000);
}

/// Heat units: the mean of the two temperatures minus the baseline of 55,
/// computed without rounding. The result has one fraction digit more than the
/// finer of the two readings, which makes halving exact.
pub fn heat_units(temperature_max: Decimal, temperature_min: Decimal) -> (r: Decimal)
    requires
        temperature_max.is_reading(),
        temperature_min.is_reading(),
    ensures
        r.scale == 1 + if temperature_max.scale >= temperature_min.scale {
            temperature_max.scale
        } else {
            temperature_min.scale
        },
        2 * r.at_scale(r.scale as nat) == temperature_max.at_scale(r.scale as nat)
            + temperature_min.at_scale(r.scale as nat) - 2 * BASELINE * pow10(r.scale as nat),
{
    let s: u32 = if temperature_max.scale >= temperature_min.scale {
        temperature_max.scale
    } else {
        temperature_min.scale
    };
    let pa = power_of_ten(s - temperature_max.scale);
    let pb = power_of_ten(s - temperature_min.scale);
    let ps = power_of_ten(s);
    proof {
        lemma_pow10_reading_scale((s - temperature_max.scale) as nat);
        lemma_pow10_reading_scale((s - temperature_min.scale) as nat);
        lemma_pow10_reading_scale(s as nat);
        lemma_scaled_reading_bound(temperature_max.coefficient as int, pa as int);
        lemma_scaled_reading_bound(temperature_min.coefficient as int, pb as int);
    }
    let a = temperature_max.coefficient * pa;
    let b = temperature_min.coefficient * pb;
    let base: i128 = 110 * ps;
    let sum = a + b - base;
    let r = Decimal { coefficient: sum * 5, scale: s + 1 };
    proof {
        lemma_at_next_scale(temperature_max, s as nat);
        lemma_at_next_scale(temperature_min, s as nat);
        lemma_pow10_add(s as nat, 1);
        reveal_with_fuel(pow10, 2);
        assert(((r.scale as nat) - r.scale) as nat == 0);
        assert(pow10(0) == 1);
        assert(r.coefficient * 1 == r.coefficient);
        assert(base == 2 * BASELINE * pow10(s as nat));
    }
    r
}

/// The heat units of two readings are, exactly, their mean less the baseline:
/// twice the result equals the sum of the readings less twice the baseline.
pub proof fn lemma_heat_units_is_mean_less_baseline(
    temperature_max: Decimal,
    temperature_min: Decimal,
    r: Decimal,
    s: nat,
)
    requires
        temperature_max.scale <= s,
        temperature_min.scale <= s,
        r.scale <= s,
        2 * r.at_scale(r.scale as nat) == temperature_max.at_scale(r.scale as nat)
            + temperature_min.at_scale(r.scale as nat) - 2 * BASELINE * pow10(r.scale as nat),
        temperature_max.scale <= r.scale,
        temperature_min.scale <= r.scale,
    ensures
        2 * r.at_scale(s) == temperature_max.at_scale(s) + temperature_min.at_scale(s) - 2 * BASELINE
            * pow10(s),
{
    let k = (s - r.scale) as nat;
    let q = pow10(k);
    lemma_pow10_add((r.scale - temperature_max.scale) as nat, k);
    lemma_pow10_add((r.scale - temperature_min.scale) as nat, k);
    lemma_pow10_add(0, k);
    lemma_pow10_add(r.scale as nat, k);
    assert(((r.scale - temperature_max.scale) as nat + k) as nat == (s - temperature_max.scale) as nat);
    assert(((r.scale - temperature_min.scale) as nat + k) as nat == (s - temperature_min.scale) as nat);
    assert((0 + k) as nat == (s - r.scale) as nat);
    assert((r.scale as nat + k) as nat == s);
    let x = temperature_max.coefficient * pow10((r.scale - temperature_max.scale) as nat);
    let y = temperature_min.coefficient * pow10((r.scale - temperature_min.scale) as nat);
    let z = r.coefficient * pow10(0);
    let p = pow10(r.scale as nat);
    assert(temperature_max.at_scale(s) == x * q) by (nonlinear_arith)
        requires
            temperature_max.at_scale(s) == temperature_max.coefficient * (pow10(
                (r.scale - temperature_max.scale) as nat,
            ) * q),
            x == temperature_max.coefficient * pow10((r.scale - temperature_max.scale) as nat),
    ;
    assert(temperature_min.at_scale(s) == y * q) by (nonlinear_arith)
        requires
            temperature_min.at_scale(s) == temperature_min.coefficient * (pow10(
                (r.scale - temperature_min.scale) as nat,
            ) * q),
            y == temperature_min.coefficient * pow10((r.scale - temperature_min.scale) as nat),
    ;
    assert(r.at_scale(s) == z * q) by (nonlinear_arith)
        requires
            r.at_scale(s) == r.coefficient * (pow10(0) * q),
            z == r.coefficient * pow10(0),
    ;
    assert(2 * (z * q) == (x + y - 2 * BASELINE * p) * q) by (nonlinear_arith)
        requires
            2 * z == x + y - 2 * BASELINE * p,
    ;
    assert((x + y - 2 * BASELINE * p) * q == x * q + y * q - 2 * BASELINE * (p * q))
        by (nonlinear_arith);
}

} // verus!
