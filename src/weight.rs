//! Fixed-point decimal weights, their binning to a precision, and their digits.

use rust_decimal::Decimal;
use vstd::arithmetic::div_mod::*;
use vstd::arithmetic::mul::*;
use vstd::prelude::*;

verus! {

/// Largest magnitude of a mantissa: the 96 bits that a decimal holds.
pub const MAX_MANTISSA: i128 = 0xFFFF_FFFF_FFFF_FFFF_FFFF_FFFF;

/// Largest number of decimal places a weight can carry.
pub const MAX_SCALE: u32 = 28;

/// `10^n`.
pub open spec fn pow10(n: nat) -> nat
    decreases n,
{
    if n == 0 {
        1
    } else {
        10 * pow10((n - 1) as nat)
    }
}

/// The magnitude `m / 10^s` written with exactly `p` decimal places, in units of
/// `10^-p`; dropped digits round half away from zero.
pub open spec fn round_to_scale(m: nat, s: nat, p: nat) -> nat {
    if s <= p {
        m * pow10((p - s) as nat)
    } else {
        (m + 5 * pow10((s - p - 1) as nat)) / pow10((s - p) as nat)
    }
}

/// The `p`-th decimal digit (1 is the first after the point) of the decimal
/// with magnitude `m` and scale `s`; digits past the scale are zero.
pub open spec fn digit_of(m: nat, s: nat, p: nat) -> nat {
    if p > s {
        0
    } else {
        (m / pow10((s - p) as nat)) % 10
    }
}

/// `Σ_{p=1..n} digit_p · 10^(s-p)`: the first `n` decimal digits of the
/// decimal with magnitude `m` and scale `s`, put back in their places.
pub open spec fn digit_sum(m: nat, s: nat, n: nat) -> nat
    decreases n,
{
    if n == 0 {
        0
    } else {
        digit_sum(m, s, (n - 1) as nat) + digit_of(m, s, n) * pow10((s - n) as nat)
    }
}

/// An exact fixed-point decimal, worth `mantissa / 10^scale`.
///
/// Equality compares the representation: `0.10` and `0.1` differ.
#[derive(Clone, Copy, Debug, PartialEq, Eq, Structural, Hash)]
pub struct Weight {
    pub mantissa: i128,
    pub scale: u32,
}

impl Weight {
    /// The mantissa fits in 96 bits and the scale is at most 28.
    pub open spec fn wf(self) -> bool {
        -MAX_MANTISSA <= self.mantissa <= MAX_MANTISSA && self.scale <= MAX_SCALE
    }

    /// The absolute value of the mantissa.
    pub open spec fn magnitude(self) -> nat {
        if self.mantissa < 0 {
            (-self.mantissa) as nat
        } else {
            self.mantissa as nat
        }
    }

    /// The weight `num / 10^scale`.
    pub fn new(num: i64, scale: u32) -> (w: Weight)
        requires
            scale <= MAX_SCALE,
        ensures
            w.wf(),
            w.mantissa == num,
            w.scale == scale,
    {
        Weight { mantissa: num as i128, scale }
    }

    /// The weight `num / 10^scale`, for a mantissa of at most 96 bits.
    pub fn from_i128_with_scale(num: i128, scale: u32) -> (w: Weight)
        requires
            -MAX_MANTISSA <= num <= MAX_MANTISSA,
            scale <= MAX_SCALE,
        ensures
            w.mantissa == num,
            w.scale == scale,
    {
        Weight { mantissa: num, scale }
    }
}

/// Whether a weight can be stored at precision `p`: it is positive, and binned
/// to `p` places it is neither zero nor one or more.
pub open spec fn accepts(w: Weight, p: nat) -> bool {
    w.mantissa > 0 && 0 < round_to_scale(w.mantissa as nat, w.scale as nat, p) < pow10(p)
}

/// The binned weight of a positive `w` at precision `p`, in units of `10^-p`.
pub open spec fn binned_units(w: Weight, p: nat) -> nat {
    round_to_scale(w.mantissa as nat, w.scale as nat, p)
}

/// Binning rounds half up on the magnitude: `m / 10^s` binned to `p` places
/// is `floor(m / 10^s · 10^p + 1/2)` units, written in integers as
/// `(2 · m · 10^p + 10^s) / (2 · 10^s)`.
pub proof fn lemma_round_half_up(m: nat, s: nat, p: nat)
    ensures
        round_to_scale(m, s, p) == (2 * m * pow10(p) + pow10(s)) / (2 * pow10(s)),
{
    lemma_pow10_positive(s);
    lemma_pow10_positive(p);
    if s <= p {
        let d = (p - s) as nat;
        let a = pow10(d);
        let b = pow10(s);
        lemma_pow10_add(d, s);
        assert(d + s == p);
        let x = 2 * (m * a) + 1;
        assert(2 * m * pow10(p) + pow10(s) == b * x) by (nonlinear_arith)
            requires
                pow10(p) == a * b,
                x == 2 * (m * a) + 1,
                pow10(s) == b,
        ;
        lemma_div_multiples_vanish(x as int, b as int);
        lemma_div_denominator((b * x) as int, b as int, 2);
        lemma_fundamental_div_mod_converse(x as int, 2, (m * a) as int, 1);
        assert(2 * pow10(s) == b * 2);
    } else {
        let d = (s - p) as nat;
        let e = pow10((d - 1) as nat);
        let dd = pow10(d);
        let pp = pow10(p);
        lemma_pow10_add(p, d);
        assert(p + d == s);
        assert(dd == 10 * e);
        let y = m + 5 * e;
        assert(2 * m * pp + pow10(s) == (2 * pp) * y) by (nonlinear_arith)
            requires
                pow10(s) == pp * dd,
                dd == 10 * e,
                y == m + 5 * e,
        ;
        assert(2 * pow10(s) == (2 * pp) * dd) by (nonlinear_arith)
            requires
                pow10(s) == pp * dd,
        ;
        lemma_pow10_positive(d);
        lemma_div_multiples_vanish(y as int, (2 * pp) as int);
        lemma_div_denominator(((2 * pp) * y) as int, (2 * pp) as int, dd as int);
        assert(((2 * pp) * y) / ((2 * pp) * dd) == y / dd);
    }
}

/// A weight already at scale `p` bins to its own mantissa.
pub proof fn lemma_binned_at_own_scale(w: Weight, p: nat)
    requires
        w.scale == p,
        w.mantissa > 0,
    ensures
        binned_units(w, p) == w.mantissa,
{
    assert(pow10(0) == 1);
    assert(w.mantissa as nat * 1 == w.mantissa as nat);
}

pub proof fn lemma_pow10_positive(n: nat)
    ensures
        pow10(n) > 0,
    decreases n,
{
    if n > 0 {
        lemma_pow10_positive((n - 1) as nat);
    }
}

pub proof fn lemma_pow10_add(a: nat, b: nat)
    ensures
        pow10(a + b) == pow10(a) * pow10(b),
    decreases a,
{
    if a > 0 {
        lemma_pow10_add((a - 1) as nat, b);
        assert(pow10(a + b) == 10 * pow10((a - 1 + b) as nat));
        let x = pow10((a - 1) as nat);
        let y = pow10(b);
        assert(pow10(a) == 10 * x);
        assert(((a - 1) as nat + b) as nat == (a - 1 + b) as nat);
        assert(pow10(a + b) == 10 * (x * y));
        assert(10 * (x * y) == (10 * x) * y) by (nonlinear_arith);
    } else {
        assert(pow10(0) == 1);
        assert(1 * pow10(b) == pow10(b));
    }
}

pub proof fn lemma_pow10_monotonic(a: nat, b: nat)
    requires
        a <= b,
    ensures
        pow10(a) <= pow10(b),
{
    lemma_pow10_add(a, (b - a) as nat);
    lemma_pow10_positive((b - a) as nat);
    lemma_pow10_positive(a);
    lemma_mul_increases(pow10((b - a) as nat) as int, pow10(a) as int);
}

/// `10^28` is below the largest mantissa.
pub proof fn lemma_pow10_max_scale()
    ensures
        pow10(MAX_SCALE as nat) <= MAX_MANTISSA,
{
    reveal_with_fuel(pow10, 29);
}

/// `10^e` for a scale `e`.
pub fn pow10_u128(e: u32) -> (r: u128)
    requires
        e <= MAX_SCALE,
    ensures
        r == pow10(e as nat),
{
    let mut r: u128 = 1;
    let mut i: u32 = 0;
    while i < e
        invariant
            i <= e <= MAX_SCALE,
            r == pow10(i as nat),
        decreases e - i,
    {
        proof {
            lemma_pow10_monotonic((i + 1) as nat, MAX_SCALE as nat);
            lemma_pow10_max_scale();
        }
        r = r * 10;
        i = i + 1;
    }
    r
}

/// The `position`-th decimal digit of a weight's magnitude, computed on its
/// integer mantissa; zero past the weight's scale.
pub fn get_digit_at(weight: Weight, position: u8) -> (d: usize)
    requires
        weight.wf(),
    ensures
        d == digit_of(
            weight.magnitude(),
            weight.scale as nat,
            position as nat,
        ),
        d < 10,
{
    let position = position as u32;
    let scale = weight.scale;
    if position > scale {
        return 0;
    }
    let mantissa: u128 = if weight.mantissa < 0 {
        (-weight.mantissa) as u128
    } else {
        weight.mantissa as u128
    };
    let power_of_10 = pow10_u128(scale - position);
    proof {
        lemma_pow10_positive((scale - position) as nat);
    }
    let digit = (mantissa / power_of_10) % 10;
    digit as usize
}

/// The digits at positions `1..=s` of a magnitude below `10^s` put it back
/// together: `Σ_{p=1..s} digit_p · 10^(s-p) == m`.
pub proof fn lemma_digits_reconstruct(m: nat, s: nat)
    requires
        m < pow10(s),
    ensures
        digit_sum(m, s, s) == m,
{
    lemma_digit_sum_prefix(m, s, s);
    assert(pow10(0) == 1);
    assert(m / 1 * 1 == m) by (nonlinear_arith);
}

/// The first `n` digits put back give `m` with its last `s - n` digits cleared.
proof fn lemma_digit_sum_prefix(m: nat, s: nat, n: nat)
    requires
        m < pow10(s),
        n <= s,
    ensures
        digit_sum(m, s, n) == (m / pow10((s - n) as nat)) * pow10((s - n) as nat),
    decreases n,
{
    let k = (s - n) as nat;
    lemma_pow10_positive(k);
    if n == 0 {
        lemma_basic_div(m as int, pow10(s) as int);
    } else {
        lemma_digit_sum_prefix(m, s, (n - 1) as nat);
        let p = pow10(k);
        let q = m / p;
        lemma_pow10_add(k, 1);
        assert(pow10(1) == 10) by {
            reveal_with_fuel(pow10, 2);
        }
        assert(pow10(k + 1) == p * 10);
        lemma_div_denominator(m as int, p as int, 10);
        assert((s - (n - 1)) as nat == k + 1);
        assert(m / pow10(k + 1) == q / 10);
        assert(digit_of(m, s, n) == q % 10);
        assert(digit_sum(m, s, (n - 1) as nat) == (q / 10) * (p * 10));
        lemma_fundamental_div_mod(q as int, 10);
        assert((q / 10) * (p * 10) + (q % 10) * p == q * p) by (nonlinear_arith)
            requires
                q == 10 * (q / 10) + q % 10,
        ;
    }
}

/// Relies on rust_decimal's `Decimal::from_i128_with_scale` and
/// `Decimal::rescale`: rescaling to fewer places rounds the dropped digits
/// half away from zero; rescaling to more places multiplies the mantissa by a
/// power of ten whenever the product fits in 96 bits.
#[verifier::external_body]
fn rescaled(mantissa: i128, scale: u32, new_scale: u32) -> (r: (i128, u32))
    requires
        0 < mantissa <= MAX_MANTISSA,
        scale <= MAX_SCALE,
        new_scale <= MAX_SCALE,
    ensures
        (scale > new_scale || mantissa * pow10((new_scale - scale) as nat) <= MAX_MANTISSA) ==> (
        r.0 == round_to_scale(mantissa as nat, scale as nat, new_scale as nat)
            && r.1 == new_scale),
        (scale < new_scale && mantissa * pow10((new_scale - scale) as nat) > MAX_MANTISSA) ==> r.1
            < new_scale,
{
    let mut d = Decimal::from_i128_with_scale(mantissa, scale);
    d.rescale(new_scale);
    (d.mantissa(), d.scale())
}

/// Bins `weight` to `precision` decimal places: the binned magnitude in units
/// of `10^-precision` when the weight can be stored at that precision.
pub fn bin_units(weight: Weight, precision: u8) -> (r: Option<u128>)
    requires
        weight.wf(),
        1 <= precision <= MAX_SCALE,
    ensures
        r.is_some() == accepts(weight, precision as nat),
        r.is_some() ==> r.unwrap() == binned_units(weight, precision as nat),
{
    if weight.mantissa <= 0 {
        return None;
    }
    let (mantissa, scale) = rescaled(weight.mantissa, weight.scale, precision as u32);
    let ghost p = precision as nat;
    let ghost m = weight.mantissa as nat;
    let ghost s = weight.scale as nat;
    proof {
        lemma_pow10_monotonic(p, MAX_SCALE as nat);
        lemma_pow10_max_scale();
        if s <= p && m * pow10((p - s) as nat) > MAX_MANTISSA {
            // the binned weight is too large for any bin
            assert(round_to_scale(m, s, p) >= pow10(p));
        }
    }
    if scale != precision as u32 {
        return None;
    }
    assert(s <= p ==> m * pow10((p - s) as nat) <= MAX_MANTISSA) by {
        if s == p {
            assert(pow10(0) == 1);
            assert(m * 1 == m);
        }
    }
    assert(mantissa == round_to_scale(m, s, p));
    let limit = pow10_u128(precision as u32);
    if mantissa <= 0 || mantissa as u128 >= limit {
        return None;
    }
    Some(mantissa as u128)
}

} // verus!
