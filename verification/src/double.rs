//! Positive double-precision arithmetic, carried out in integers.
//!
//! A size on screen is often worked out through a ratio held in a double. What
//! comes out depends on how each step rounds, so the steps are written down
//! here exactly: every operation gives the representable number nearest to the
//! true result, and the one with the even significand when two are as near.

use vstd::arithmetic::div_mod::*;
use vstd::arithmetic::mul::*;
use vstd::arithmetic::power2::*;
use vstd::prelude::*;

verus! {

/// A number and how many binary places it has: `numerator / 2^places`.
#[derive(Clone, Copy)]
pub struct Double {
    pub numerator: u128,
    pub places: u32,
}

/// The whole number nearest to `n / d`, the even one of two as near.
pub open spec fn half_even(n: nat, d: nat) -> nat {
    if 2 * (n % d) < d || (2 * (n % d) == d && (n / d) % 2 == 0) {
        n / d
    } else {
        n / d + 1
    }
}

/// The whole number nearest to `n / d`, the larger one of two as near.
pub open spec fn half_up(n: nat, d: nat) -> nat {
    (2 * n + d) / (2 * d)
}

/// The smallest significand with all 53 bits in use.
pub open spec fn full() -> nat {
    0x10_0000_0000_0000
}

/// The square of the smallest full significand.
pub open spec fn full_squared() -> nat {
    0x100_0000_0000_0000_0000_0000_0000
}

/// How many binary places bring `n / d`, a number below 2^53, to a whole part of 53 bits.
pub open spec fn places_for(n: nat, d: nat) -> nat
    decreases 2 * d * full() - n,
{
    if n == 0 || n >= d * full() {
        0
    } else {
        1 + places_for(2 * n, d)
    }
}

/// How many low bits of a whole number are past the 53 that a double keeps.
pub open spec fn excess_of(n: nat) -> nat
    decreases n,
{
    if n < 2 * full() {
        0
    } else {
        1 + excess_of(n / 2)
    }
}

/// The double nearest to a whole number, which is a whole number too.
pub open spec fn whole(n: nat) -> nat {
    half_even(n, pow2(excess_of(n))) * pow2(excess_of(n))
}

/// The double nearest to `n / d`, a number below 2^53, as a numerator and its
/// binary places.
pub open spec fn nearest(n: nat, d: nat) -> (nat, nat) {
    (half_even(n * pow2(places_for(n, d)), d), places_for(n, d))
}

/// The product of two doubles.
pub open spec fn product(a: (nat, nat), b: (nat, nat)) -> (nat, nat) {
    nearest(a.0 * b.0, pow2(a.1 + b.1))
}

/// The order of two doubles.
pub open spec fn below(a: (nat, nat), b: (nat, nat)) -> bool {
    a.0 * pow2(b.1) < b.0 * pow2(a.1)
}

/// A double held between two others.
pub open spec fn clamped(a: (nat, nat), low: (nat, nat), high: (nat, nat)) -> (nat, nat) {
    if below(a, low) {
        low
    } else if below(high, a) {
        high
    } else {
        a
    }
}

/// Whether `r` is the whole number nearest to the square root of `n / d`.
pub open spec fn is_nearest_root(r: nat, n: nat, d: nat) -> bool {
    &&& r > 0 ==> (2 * r - 1) * (2 * r - 1) * d < 4 * n
    &&& 4 * n < (2 * r + 1) * (2 * r + 1) * d
}

/// The whole number nearest to the square root of `n / d`.
pub open spec fn nearest_root(n: nat, d: nat) -> nat {
    choose|r: nat| is_nearest_root(r, n, d)
}

/// Half as many binary places as bring `n / d` to a whole part of 105 or 106 bits.
pub open spec fn root_places_for(n: nat, d: nat) -> nat
    decreases 4 * d * full_squared() - n,
{
    if n == 0 || n >= d * full_squared() {
        0
    } else {
        1 + root_places_for(4 * n, d)
    }
}

/// The double nearest to the square root of a double below 2^106.
pub open spec fn root(a: (nat, nat)) -> (nat, nat) {
    let places = root_places_for(a.0, pow2(a.1));
    (nearest_root(a.0 * pow2(2 * places), pow2(a.1)), places)
}

impl Double {
    /// The numerator and the binary places.
    pub open spec fn view(&self) -> (nat, nat) {
        (self.numerator as nat, self.places as nat)
    }
}

proof fn lemma_places(n: nat, d: nat, places: nat)
    requires
        n > 0,
        d * full() <= n * pow2(places),
        n * pow2(places) < 2 * d * full(),
    ensures
        places_for(n, d) == places,
    decreases places,
{
    lemma2_to64();
    if places > 0 {
        lemma_pow2_unfold(places);
        let rest: nat = (places - 1) as nat;
        lemma_pow2_pos(rest);
        assert(n * pow2(places) == 2 * (n * pow2(rest))) by (nonlinear_arith)
            requires
                pow2(places) == 2 * pow2(rest),
        ;
        assert(n <= n * pow2(rest)) by (nonlinear_arith)
            requires
                pow2(rest) >= 1,
        ;
        assert(2 * (n * pow2(rest)) == (2 * n) * pow2(rest)) by (nonlinear_arith);
        lemma_places(2 * n, d, rest);
    } else {
        assert(n * pow2(0) == n) by (nonlinear_arith)
            requires
                pow2(0) == 1,
        ;
    }
}

pub proof fn lemma_excess(n: nat, excess: nat)
    requires
        n < 2 * pow2(excess) * full(),
        excess > 0 ==> pow2(excess) * full() <= n,
    ensures
        excess_of(n) == excess,
    decreases excess,
{
    lemma2_to64();
    if excess > 0 {
        let rest: nat = (excess - 1) as nat;
        lemma_pow2_unfold(excess);
        lemma_pow2_pos(rest);
        assert(pow2(excess) == 2 * pow2(rest));
        lemma_excess(n / 2, rest);
    }
}

proof fn lemma_root_places(n: nat, d: nat, places: nat)
    requires
        n > 0,
        d * full_squared() <= n * pow2(2 * places),
        n * pow2(2 * places) < 4 * d * full_squared(),
    ensures
        root_places_for(n, d) == places,
    decreases places,
{
    lemma2_to64();
    if places > 0 {
        let rest: nat = (places - 1) as nat;
        lemma_pow2_adds(2 * rest, 2);
        lemma_pow2_pos(2 * rest);
        assert(pow2(2 * places) == 4 * pow2(2 * rest));
        assert(n * pow2(2 * places) == 4 * (n * pow2(2 * rest))) by (nonlinear_arith)
            requires
                pow2(2 * places) == 4 * pow2(2 * rest),
        ;
        assert(n <= n * pow2(2 * rest)) by (nonlinear_arith)
            requires
                pow2(2 * rest) >= 1,
        ;
        assert(4 * (n * pow2(2 * rest)) == (4 * n) * pow2(2 * rest)) by (nonlinear_arith);
        lemma_root_places(4 * n, d, rest);
    } else {
        assert(n * pow2(0) == n) by (nonlinear_arith)
            requires
                pow2(0) == 1,
        ;
    }
}

/// Scaling both sides of a ratio leaves its nearest whole number alone.
pub proof fn lemma_half_even_scales(n: nat, d: nat, k: nat)
    requires
        d > 0,
        k > 0,
    ensures
        half_even(n * k, d * k) == half_even(n, d),
{
    let q: int = n as int / d as int;
    let r: int = n as int % d as int;
    lemma_fundamental_div_mod(n as int, d as int);
    lemma_mod_bound(n as int, d as int);
    assert(n * k == q * (d * k) + r * k && 0 <= r * k < d * k) by (nonlinear_arith)
        requires
            n == d * q + r,
            0 <= r < d,
            k > 0,
    ;
    lemma_fundamental_div_mod_converse((n * k) as int, (d * k) as int, q, r * k);
    assert(2 * (r * k) < d * k <==> 2 * r < d) by (nonlinear_arith)
        requires
            k > 0,
    ;
    assert(2 * (r * k) == d * k <==> 2 * r == d) by (nonlinear_arith)
        requires
            k > 0,
    ;
}

/// The nearest whole number is at most a half away.
pub proof fn lemma_half_even_is_near(n: nat, d: nat)
    requires
        d > 0,
    ensures
        2 * (half_even(n, d) * d) <= 2 * n + d,
        2 * n <= 2 * (half_even(n, d) * d) + d,
{
    let q: int = n as int / d as int;
    lemma_fundamental_div_mod(n as int, d as int);
    lemma_mod_bound(n as int, d as int);
    assert((q + 1) * d == d * q + d && q * d == d * q) by (nonlinear_arith);
}

/// A whole number is its own nearest.
pub proof fn lemma_half_even_of_whole(n: nat)
    ensures
        half_even(n, 1) == n,
{
    lemma_div_basics(n as int);
    assert(n % 1 == 0);
}

/// Two to the power of `places`.
pub(crate) fn power_of_two(places: u32) -> (r: u128)
    requires
        places < 128,
    ensures
        r == pow2(places as nat),
        r >= 1,
{
    let mut power: u128 = 1;
    let mut done: u32 = 0;
    proof {
        lemma2_to64();
    }
    while done < places
        invariant
            done <= places < 128,
            power == pow2(done as nat),
        decreases places - done,
    {
        proof {
            lemma_pow2_unfold((done + 1) as nat);
            lemma_power_fits((done + 1) as nat);
        }
        power = power * 2;
        done = done + 1;
    }
    proof {
        lemma_pow2_pos(places as nat);
    }
    power
}

proof fn lemma_power_fits(places: nat)
    requires
        places < 128,
    ensures
        pow2(places) <= u128::MAX,
{
    lemma2_to64();
    lemma2_to64_rest();
    if places >= 64 {
        let rest: nat = (places - 64) as nat;
        lemma_pow2_adds(64, rest);
        if rest < 63 {
            lemma_pow2_strictly_increases(rest, 63);
        }
        assert(pow2(64) * pow2(rest) <= 0x1_0000_0000_0000_0000 * 0x8000_0000_0000_0000)
            by (nonlinear_arith)
            requires
                pow2(64) == 0x1_0000_0000_0000_0000,
                pow2(rest) <= 0x8000_0000_0000_0000,
        ;
    } else {
        lemma_pow2_strictly_increases(places, 64);
    }
}

/// The whole number nearest to `n / d`, the even one of two as near.
pub fn nearest_whole(n: u128, d: u128) -> (r: u128)
    requires
        d > 0,
        n / d < u128::MAX,
    ensures
        r == half_even(n as nat, d as nat),
{
    let whole: u128 = n / d;
    let rest: u128 = n % d;
    if rest < d - rest || (rest == d - rest && whole % 2 == 0) {
        whole
    } else {
        whole + 1
    }
}

/// The double nearest to `n / d`.
pub fn nearest_double(n: u128, d: u128) -> (r: Double)
    requires
        0 < n,
        0 < d <= 0x400_0000_0000_0000_0000,
        n < 2 * d * full(),
    ensures
        r@ == nearest(n as nat, d as nat),
        full() <= r.numerator <= 2 * full(),
        r.places <= 128,
{
    let ghost n0: nat = n as nat;
    let mut scaled: u128 = n;
    let mut places: u32 = 0;
    proof {
        lemma2_to64();
    }
    while scaled < d * 0x10_0000_0000_0000
        invariant
            0 < scaled,
            0 < d <= 0x400_0000_0000_0000_0000,
            scaled < 2 * d * full(),
            scaled == n0 * pow2(places as nat),
            n0 > 0,
            pow2(places as nat) <= scaled,
            places <= 127,
        decreases 2 * d * full() - scaled,
    {
        proof {
            lemma_pow2_unfold((places + 1) as nat);
            assert(n0 * (2 * pow2(places as nat)) == 2 * (n0 * pow2(places as nat)))
                by (nonlinear_arith);
            if places == 127 {
                lemma2_to64();
                lemma2_to64_rest();
                lemma_pow2_adds(63, 64);
                assert(pow2(127) == 0x8000_0000_0000_0000 * 0x1_0000_0000_0000_0000);
            }
        }
        scaled = scaled * 2;
        places = places + 1;
    }
    proof {
        lemma_places(n0, d as nat, places as nat);
        lemma_fundamental_div_mod(scaled as int, d as int);
        assert(scaled as int / d as int >= full()) by (nonlinear_arith)
            requires
                scaled >= d * full(),
                d > 0,
        ;
        assert((scaled as int / d as int) < 2 * full()) by (nonlinear_arith)
            requires
                scaled < 2 * d * full(),
                d > 0,
        ;
    }
    let numerator: u128 = nearest_whole(scaled, d);
    Double { numerator, places }
}

/// The double nearest to a whole number.
pub fn nearest_to_whole(n: u64) -> (r: u128)
    ensures
        r == whole(n as nat),
        n < 2 * full() ==> r == n,
        n > 0 ==> 0 < r <= 0x2_0000_0000_0000_0000,
        n <= 2 * r,
        r <= 2 * n,
{
    proof {
        lemma2_to64();
        lemma_half_even_of_whole(n as nat);
    }
    if n < 0x20_0000_0000_0000 {
        proof {
            assert(excess_of(n as nat) == 0);
            assert(n * pow2(0) == n) by (nonlinear_arith)
                requires
                    pow2(0) == 1,
            ;
        }
        return n as u128;
    }
    let mut unit: u128 = 1;
    let ghost mut excess: nat = 0;
    while n as u128 >= unit * 0x20_0000_0000_0000
        invariant
            unit == pow2(excess),
            unit < 4096,
            unit * full() <= n,
            n >= 2 * full(),
        decreases 4096 - unit,
    {
        proof {
            lemma_pow2_unfold(excess + 1);
            lemma_pow2_pos(excess);
            excess = excess + 1;
        }
        unit = unit * 2;
    }
    proof {
        lemma_excess(n as nat, excess);
        lemma_fundamental_div_mod(n as int, unit as int);
        assert((n as int / unit as int) < 2 * full()) by (nonlinear_arith)
            requires
                n < 2 * unit * full(),
                unit > 0,
        ;
        assert((n as int / unit as int) >= full()) by (nonlinear_arith)
            requires
                n >= unit * full(),
                unit > 0,
        ;
    }
    let kept: u128 = nearest_whole(n as u128, unit);
    proof {
        assert(0 < kept * unit <= 0x2_0000_0000_0000_0000) by (nonlinear_arith)
            requires
                0 < kept <= 2 * full(),
                0 < unit < 4096,
                full() == 0x10_0000_0000_0000,
        ;
        lemma_half_even_is_near(n as nat, unit as nat);
        assert(unit <= unit * full()) by (nonlinear_arith)
            requires
                unit > 0,
                full() >= 1,
        ;
    }
    kept * unit
}

/// The double nearest to `n / 2^places`.
pub fn nearest_binary(n: u128, places: u32) -> (r: Double)
    requires
        full() <= n < 0x4000_0000_0000_0000_0000_0000_0000_0000,
        n < 2 * pow2(places as nat) * full(),
        places <= 5000,
    ensures
        r@ == nearest(n as nat, pow2(places as nat)),
        full() <= r.numerator <= 2 * full(),
        r.places <= places <= r.places + 74,
{
    let ghost d: nat = pow2(places as nat);
    let mut unit: u128 = 1;
    let mut excess: u32 = 0;
    proof {
        lemma2_to64();
    }
    while n >= unit * 0x20_0000_0000_0000
        invariant
            unit == pow2(excess as nat),
            unit * full() <= n < 0x4000_0000_0000_0000_0000_0000_0000_0000,
            n < 2 * pow2(places as nat) * full(),
            excess <= places <= 5000,
            excess <= 74,
        decreases 0x1_0000_0000_0000_0000_0000 - unit,
    {
        proof {
            lemma_pow2_unfold((excess + 1) as nat);
            lemma_pow2_pos(excess as nat);
            lemma2_to64();
            lemma_pow2_adds(64, 10);
        }
        unit = unit * 2;
        excess = excess + 1;
    }
    proof {
        let kept: nat = (places - excess) as nat;
        lemma_pow2_adds(kept, excess as nat);
        lemma_pow2_pos(kept);
        lemma_pow2_pos(excess as nat);
        assert(d == unit * pow2(kept)) by (nonlinear_arith)
            requires
                d == pow2(kept) * unit,
        ;
        assert(d * full() <= n * pow2(kept) && n * pow2(kept) < 2 * d * full()) by (nonlinear_arith)
            requires
                d == unit * pow2(kept),
                pow2(kept) > 0,
                unit * full() <= n < 2 * unit * full(),
        ;
        lemma_places(n as nat, d, kept);
        lemma_half_even_scales(n as nat, unit as nat, pow2(kept));
        assert((n as int / unit as int) < 2 * full() && (n as int / unit as int) >= full())
            by (nonlinear_arith)
            requires
                unit * full() <= n < 2 * unit * full(),
                unit > 0,
        ;
    }
    Double { numerator: nearest_whole(n, unit), places: places - excess }
}

/// The product of two doubles of 8 or less.
pub fn times(a: Double, b: Double) -> (r: Double)
    requires
        full() <= a.numerator <= 2 * full(),
        full() <= b.numerator <= 2 * full(),
        a.numerator <= 8 * pow2(a.places as nat),
        b.numerator <= 8 * pow2(b.places as nat),
        a.places <= 1000,
        b.places <= 1000,
    ensures
        r@ == product(a@, b@),
        full() <= r.numerator <= 2 * full(),
        r.places <= 2000,
{
    proof {
        lemma2_to64();
        assert(full() <= a.numerator * b.numerator <= 4 * full_squared()) by (nonlinear_arith)
            requires
                full() <= a.numerator <= 2 * full(),
                full() <= b.numerator <= 2 * full(),
                full() == 0x10_0000_0000_0000,
                full_squared() == 0x100_0000_0000_0000_0000_0000_0000,
        ;
        lemma_pow2_adds(a.places as nat, b.places as nat);
        assert(a.numerator * b.numerator < 2 * pow2((a.places + b.places) as nat) * full())
            by (nonlinear_arith)
            requires
                a.numerator <= 8 * pow2(a.places as nat),
                b.numerator <= 8 * pow2(b.places as nat),
                a.numerator > 0,
                b.numerator > 0,
                pow2((a.places + b.places) as nat) == pow2(a.places as nat) * pow2(b.places as nat),
                full() == 0x10_0000_0000_0000,
        ;
    }
    nearest_binary(a.numerator * b.numerator, a.places + b.places)
}

/// The product of a whole number and a double, where it is below 2^53.
pub fn scaled_by(factor: u32, a: Double) -> (r: Double)
    requires
        factor > 0,
        full() <= a.numerator <= 2 * full(),
        factor * a.numerator < 2 * pow2(a.places as nat) * full(),
        a.places <= 5000,
    ensures
        r@ == nearest((factor * a.numerator) as nat, pow2(a.places as nat)),
        full() <= r.numerator <= 2 * full(),
        r.places <= 5000,
{
    proof {
        assert(full() <= factor * a.numerator < 0x8000_0000 * full() * 4) by (nonlinear_arith)
            requires
                0 < factor < 0x1_0000_0000,
                0 < full() <= a.numerator <= 2 * full(),
        ;
    }
    nearest_binary(factor as u128 * a.numerator, a.places)
}

/// The quotient of a whole number and a double, where it is below 2^53.
pub fn divided_by(n: u32, a: Double) -> (r: Double)
    requires
        n > 0,
        full() <= a.numerator <= 2 * full(),
        a.places <= 90,
        n * pow2(a.places as nat) < 2 * a.numerator * full(),
    ensures
        r@ == nearest((n * pow2(a.places as nat)) as nat, a.numerator as nat),
        full() <= r.numerator <= 2 * full(),
        r.places <= 128,
{
    let unit: u128 = power_of_two(a.places);
    proof {
        assert(2 * a.numerator * full() <= 4 * full_squared()) by (nonlinear_arith)
            requires
                a.numerator <= 2 * full(),
                full() == 0x10_0000_0000_0000,
                full_squared() == 0x100_0000_0000_0000_0000_0000_0000,
        ;
        assert(n * unit > 0) by (nonlinear_arith)
            requires
                n > 0,
                unit >= 1,
        ;
    }
    nearest_double(n as u128 * unit, a.numerator)
}

/// The whole number nearest to a double, the larger one of two as near.
pub fn rounded(a: Double) -> (r: u128)
    requires
        a.numerator <= 2 * full(),
    ensures
        r == half_up(a.numerator as nat, pow2(a.places as nat)),
        r <= 2 * full(),
{
    proof {
        lemma2_to64();
        lemma_pow2_pos(a.places as nat);
    }
    if a.places >= 64 {
        proof {
            if a.places > 64 {
                lemma_pow2_strictly_increases(64, a.places as nat);
            }
            lemma_basic_div((2 * a.numerator + pow2(a.places as nat)) as int, (2 * pow2(
                a.places as nat,
            )) as int);
        }
        return 0;
    }
    let d: u128 = power_of_two(a.places);
    proof {
        lemma_pow2_strictly_increases(a.places as nat, 64);
        assert((2 * a.numerator + d) as int / (2 * d) as int <= 2 * full()) by (nonlinear_arith)
            requires
                a.numerator <= 2 * full(),
                d >= 1,
                full() == 0x10_0000_0000_0000,
        ;
    }
    (2 * a.numerator + d) / (2 * d)
}

/// The whole number nearest to a double, the even one of two as near.
pub fn rounded_to_even(a: Double) -> (r: u64)
    requires
        a.numerator <= 2 * full(),
    ensures
        r == half_even(a.numerator as nat, pow2(a.places as nat)),
        r <= 2 * full(),
{
    proof {
        lemma2_to64();
        lemma_pow2_pos(a.places as nat);
    }
    if a.places >= 64 {
        proof {
            if a.places > 64 {
                lemma_pow2_strictly_increases(64, a.places as nat);
            }
            lemma_basic_div(a.numerator as int, pow2(a.places as nat) as int);
            lemma_small_mod(a.numerator as nat, pow2(a.places as nat));
        }
        return 0;
    }
    let d: u128 = power_of_two(a.places);
    proof {
        lemma_pow2_strictly_increases(a.places as nat, 64);
        lemma_fundamental_div_mod(a.numerator as int, d as int);
        assert(a.numerator as int / d as int <= a.numerator) by (nonlinear_arith)
            requires
                d >= 1,
        ;
        if d == 1 {
            assert(a.numerator as int % d as int == 0);
        } else {
            assert(a.numerator as int / d as int <= full()) by (nonlinear_arith)
                requires
                    d >= 2,
                    a.numerator <= 2 * full(),
            ;
        }
    }
    nearest_whole(a.numerator, d) as u64
}

/// Whether one double is less than another.
pub fn less(a: Double, b: Double) -> (r: bool)
    requires
        full() <= a.numerator <= 2 * full(),
        full() <= b.numerator <= 2 * full(),
    ensures
        r == below(a@, b@),
{
    if a.places >= b.places {
        let gap: u32 = a.places - b.places;
        proof {
            lemma_gap(a.numerator as nat, b.numerator as nat, b.places as nat, gap as nat);
        }
        gap >= 60 || a.numerator < b.numerator * power_of_two(gap)
    } else {
        let gap: u32 = b.places - a.places;
        proof {
            lemma_gap(b.numerator as nat, a.numerator as nat, a.places as nat, gap as nat);
        }
        gap < 60 && a.numerator * power_of_two(gap) < b.numerator
    }
}

/// Numbers with different binary places compare as their numerators do once
/// the gap in places is made up.
proof fn lemma_gap(fine: nat, coarse: nat, places: nat, gap: nat)
    requires
        fine <= 2 * full(),
        full() <= coarse <= 2 * full(),
    ensures
        gap < 60 ==> coarse * pow2(gap) <= u128::MAX,
        gap >= 60 ==> fine < coarse * pow2(gap),
        fine * pow2(places) < coarse * pow2(places + gap) <==> fine < coarse * pow2(gap),
        coarse * pow2(places + gap) < fine * pow2(places) <==> coarse * pow2(gap) < fine,
{
    let unit: nat = pow2(places);
    let step: nat = pow2(gap);
    lemma_pow2_pos(places);
    lemma_pow2_pos(gap);
    lemma_pow2_adds(places, gap);
    lemma2_to64();
    lemma2_to64_rest();
    assert(coarse * (unit * step) == (coarse * step) * unit) by (nonlinear_arith);
    assert(fine * unit < (coarse * step) * unit <==> fine < coarse * step) by (nonlinear_arith)
        requires
            unit > 0,
    ;
    assert((coarse * step) * unit < fine * unit <==> coarse * step < fine) by (nonlinear_arith)
        requires
            unit > 0,
    ;
    if gap < 60 {
        lemma_pow2_strictly_increases(gap, 60);
        assert(coarse * step <= 2 * full() * 0x1000_0000_0000_0000) by (nonlinear_arith)
            requires
                coarse <= 2 * full(),
                step <= 0x1000_0000_0000_0000,
        ;
    } else {
        if gap > 60 {
            lemma_pow2_strictly_increases(60, gap);
        }
        assert(coarse * step >= full() * 0x1000_0000_0000_0000) by (nonlinear_arith)
            requires
                coarse >= full(),
                step >= 0x1000_0000_0000_0000,
        ;
    }
}

/// The whole number nearest to a square root is the only one as near.
proof fn lemma_nearest_root(r: nat, n: nat, d: nat)
    requires
        d > 0,
        is_nearest_root(r, n, d),
    ensures
        nearest_root(n, d) == r,
{
    let s = nearest_root(n, d);
    assert(is_nearest_root(s, n, d));
    if s < r {
        assert((2 * s + 1) * (2 * s + 1) * d <= (2 * r - 1) * (2 * r - 1) * d) by (nonlinear_arith)
            requires
                2 * s + 1 <= 2 * r - 1,
                d > 0,
        ;
    }
    if r < s {
        assert((2 * r + 1) * (2 * r + 1) * d <= (2 * s - 1) * (2 * s - 1) * d) by (nonlinear_arith)
            requires
                2 * r + 1 <= 2 * s - 1,
                d > 0,
        ;
    }
}

/// The largest whole number whose square is no more than `x`.
pub fn whole_root(x: u128) -> (r: u128)
    requires
        x < 4 * full_squared(),
    ensures
        r * r <= x < (r + 1) * (r + 1),
        r < 2 * full(),
{
    let mut low: u128 = 0;
    let mut high: u128 = 0x20_0000_0000_0000;
    while low + 1 < high
        invariant
            low < high <= 0x20_0000_0000_0000,
            low * low <= x < high * high,
        decreases high - low,
    {
        let middle: u128 = low + (high - low) / 2;
        proof {
            assert(middle * middle <= 0x20_0000_0000_0000 * 0x20_0000_0000_0000) by (nonlinear_arith)
                requires
                    middle <= 0x20_0000_0000_0000,
            ;
        }
        if middle * middle <= x {
            low = middle;
        } else {
            high = middle;
        }
    }
    low
}

/// The double nearest to the square root of a double of 8 or less.
pub fn root_of(a: Double) -> (r: Double)
    requires
        full() <= a.numerator <= 2 * full(),
        a.places <= 500,
        a.numerator <= 8 * pow2(a.places as nat),
    ensures
        r@ == root(a@),
        full() <= r.numerator <= 2 * full(),
        r.numerator <= 4 * pow2(r.places as nat),
        r.places <= 1000,
{
    let odd: u32 = a.places % 2;
    let ghost n: nat = a.numerator as nat;
    let ghost d: nat = pow2(a.places as nat);
    proof {
        lemma2_to64();
        lemma_pow2_pos(a.places as nat);
    }
    let mut scaled: u128 = if odd == 1 { a.numerator * 2 } else { a.numerator };
    let mut places: u32 = (a.places + odd) / 2;
    proof {
        lemma_pow2_adds(a.places as nat, odd as nat);
        assert(2 * places == a.places + odd);
        assert(scaled * d == n * pow2(2 * places as nat)) by (nonlinear_arith)
            requires
                scaled == n * pow2(odd as nat),
                pow2(2 * places as nat) == d * pow2(odd as nat),
        ;
    }
    while scaled < 0x100_0000_0000_0000_0000_0000_0000
        invariant
            0 < scaled < 4 * full_squared(),
            scaled * d == n * pow2(2 * places as nat),
            0 < n <= 2 * full(),
            n <= 8 * d,
            d > 0,
            d == pow2(a.places as nat),
            a.places <= 500,
            places <= 500,
        decreases 4 * full_squared() - scaled,
    {
        proof {
            lemma_pow2_adds(2 * places as nat, 2);
            lemma2_to64();
            let before: nat = pow2(2 * places as nat);
            assert((scaled * 4) * d == n * (before * 4)) by (nonlinear_arith)
                requires
                    scaled * d == n * before,
            ;
            if places == 500 {
                lemma_pow2_adds(a.places as nat, (1000 - a.places) as nat);
                lemma_pow2_large((1000 - a.places) as nat);
                assert(scaled >= pow2((1000 - a.places) as nat)) by (nonlinear_arith)
                    requires
                        scaled * d == n * (d * pow2((1000 - a.places) as nat)),
                        n >= 1,
                        d >= 1,
                        pow2((1000 - a.places) as nat) >= 1,
                ;
            }
        }
        scaled = scaled * 4;
        places = places + 1;
    }
    proof {
        assert(d * full_squared() <= scaled * d && scaled * d < 4 * d * full_squared()) by (nonlinear_arith)
            requires
                full_squared() <= scaled < 4 * full_squared(),
                d > 0,
        ;
        lemma_root_places(n, d, places as nat);
    }
    let below: u128 = whole_root(scaled);
    proof {
        assert(below >= full()) by (nonlinear_arith)
            requires
                scaled < (below + 1) * (below + 1),
                scaled >= full_squared(),
                full() == 0x10_0000_0000_0000,
                full_squared() == 0x100_0000_0000_0000_0000_0000_0000,
        ;
        assert(below * below <= 0x20_0000_0000_0000 * 0x20_0000_0000_0000) by (nonlinear_arith)
            requires
                below <= 0x20_0000_0000_0000,
        ;
    }
    let numerator: u128 = if scaled - below * below <= below { below } else { below + 1 };
    proof {
        let r: nat = numerator as nat;
        let m: nat = (scaled * d) as nat;
        let low: int = (2 * r - 1) * (2 * r - 1);
        let high: nat = (2 * r + 1) * (2 * r + 1);
        assert(low < 4 * scaled && 4 * scaled < high) by (nonlinear_arith)
            requires
                low == (2 * r - 1) * (2 * r - 1),
                high == (2 * r + 1) * (2 * r + 1),
                below * below <= scaled < (below + 1) * (below + 1),
                below > 0,
                (r == below && scaled - below * below <= below) || (r == below + 1 && scaled - below
                    * below > below),
        ;
        assert(low * d < 4 * m && 4 * m < high * d) by (nonlinear_arith)
            requires
                low < 4 * scaled,
                4 * scaled < high,
                m == scaled * d,
                d > 0,
        ;
        lemma_nearest_root(r, m, d);
        let p: nat = pow2(places as nat);
        lemma_pow2_adds(places as nat, places as nat);
        assert(low < 32 * (p * p)) by (nonlinear_arith)
            requires
                low * d < 4 * m,
                m == n * (p * p),
                n <= 8 * d,
                d > 0,
        ;
        assert(2 * r - 1 < 6 * p) by (nonlinear_arith)
            requires
                (2 * r - 1) * (2 * r - 1) < 32 * (p * p),
                p >= 0,
        ;
    }
    Double { numerator, places }
}

proof fn lemma_pow2_large(places: nat)
    requires
        places >= 500,
    ensures
        pow2(places) >= full_squared(),
{
    lemma2_to64();
    lemma2_to64_rest();
    lemma_pow2_adds(52, 52);
    lemma_pow2_strictly_increases(104, places);
}

/// A side of a picture times a ratio, to the nearest whole number, one at least.
pub open spec fn scaled_side(side: nat, ratio: (nat, nat)) -> nat {
    let exact = nearest(side * ratio.0, pow2(ratio.1));
    let near = half_up(exact.0, pow2(exact.1));
    if near < 1 {
        1
    } else {
        near
    }
}

/// A ratio of nothing leaves a side of one.
pub proof fn lemma_nothing_scales_to_one(side: nat, d: nat)
    requires
        d > 0,
    ensures
        scaled_side(side, nearest(0, d)) == 1,
{
    lemma2_to64();
    let ratio = nearest(0, d);
    assert(ratio.1 == 0);
    assert(0 * pow2(0) == 0) by (nonlinear_arith);
    lemma_half_even_is_near(0, d);
    assert(ratio.0 == 0) by (nonlinear_arith)
        requires
            2 * (ratio.0 * d) <= d,
            d > 0,
    ;
    assert(side * 0 == 0) by (nonlinear_arith);
    let exact = nearest(0, 1);
    assert(exact.1 == 0);
    lemma_half_even_of_whole(0);
    lemma_basic_div(1, 2);
}

/// A ratio of 1 or less makes no side longer.
pub proof fn lemma_scaled_side_is_no_longer(side: nat, ratio: (nat, nat))
    requires
        side <= u32::MAX,
        0 < ratio.0 <= pow2(ratio.1),
    ensures
        scaled_side(side, ratio) <= side || scaled_side(side, ratio) == 1,
{
    let d: nat = pow2(ratio.1);
    let n: nat = side * ratio.0;
    let exact = nearest(n, d);
    let unit: nat = pow2(exact.1);
    lemma_pow2_pos(ratio.1);
    lemma_pow2_pos(exact.1);
    lemma2_to64();
    if side == 0 {
        assert(n == 0) by (nonlinear_arith)
            requires
                n == side * ratio.0,
                side == 0,
        ;
        assert(n * unit == 0) by (nonlinear_arith)
            requires
                n == 0,
        ;
        lemma_half_even_is_near(0, d);
        assert(exact.0 == 0) by (nonlinear_arith)
            requires
                2 * (exact.0 * d) <= d,
                d > 0,
        ;
        lemma_basic_div((2 * exact.0 + unit) as int, (2 * unit) as int);
    } else {
        assert(0 < n <= side * d) by (nonlinear_arith)
            requires
                n == side * ratio.0,
                0 < ratio.0 <= d,
                side > 0,
        ;
        assert(side * d < d * full()) by (nonlinear_arith)
            requires
                side <= u32::MAX,
                d > 0,
                full() == 0x10_0000_0000_0000,
        ;
        assert(exact.1 >= 1);
        lemma_pow2_unfold(exact.1);
        lemma_pow2_pos((exact.1 - 1) as nat);
        lemma_half_even_is_near(n * unit, d);
        assert(2 * exact.0 <= 2 * side * unit + 1) by (nonlinear_arith)
            requires
                2 * (exact.0 * d) <= 2 * (n * unit) + d,
                n <= side * d,
                d > 0,
                unit > 0,
        ;
        assert((2 * exact.0 + unit) as int / (2 * unit) as int <= side) by (nonlinear_arith)
            requires
                2 * exact.0 <= 2 * side * unit + 1,
                unit >= 2,
        ;
    }
}

/// A side of at most `d` scaled by `n / d` is at most `n`, or one.
pub proof fn lemma_scaled_side_fits(side: nat, n: nat, d: nat)
    requires
        side <= d <= u32::MAX,
        0 < n <= d,
    ensures
        scaled_side(side, nearest(n, d)) <= n,
{
    let ratio = nearest(n, d);
    let unit: nat = pow2(ratio.1);
    lemma_pow2_pos(ratio.1);
    lemma2_to64();
    lemma_half_even_is_near(n * unit, d);
    lemma_places_reached(n, d);
    assert(full() <= ratio.0) by (nonlinear_arith)
        requires
            n * unit >= d * full(),
            2 * (n * unit) <= 2 * (ratio.0 * d) + d,
            d > 0,
    ;
    assert(ratio.0 <= unit) by (nonlinear_arith)
        requires
            2 * (ratio.0 * d) <= 2 * (n * unit) + d,
            n <= d,
            d > 0,
            unit >= 1,
    ;
    let m: nat = side * ratio.0;
    let exact = nearest(m, unit);
    let fine: nat = pow2(exact.1);
    lemma_pow2_pos(exact.1);
    if side == 0 {
        lemma_scaled_side_is_no_longer(side, ratio);
    } else {
        assert(m > 0) by (nonlinear_arith)
            requires
                m == side * ratio.0,
                side > 0,
                ratio.0 > 0,
        ;
        assert(2 * m <= 2 * (n * unit) + d) by (nonlinear_arith)
            requires
                m == side * ratio.0,
                side <= d,
                2 * (ratio.0 * d) <= 2 * (n * unit) + d,
        ;
        assert(n * unit <= u32::MAX * unit) by (nonlinear_arith)
            requires
                n <= u32::MAX,
                unit > 0,
        ;
        assert(2 * m < unit * full());
        assert(exact.1 == 1 + places_for(2 * m, unit));
        assert(places_for(2 * m, unit) >= 1);
        lemma_pow2_unfold(exact.1);
        lemma_pow2_unfold((exact.1 - 1) as nat);
        lemma_pow2_pos((exact.1 - 2) as nat);
        lemma_half_even_is_near(m * fine, unit);
        assert(4 * exact.0 <= 4 * (n * fine) + fine + 2) by (nonlinear_arith)
            requires
                2 * (exact.0 * unit) <= 2 * (m * fine) + unit,
                2 * m <= 2 * (n * unit) + d,
                2 * d <= unit,
                unit > 0,
                fine > 0,
        ;
        assert((2 * exact.0 + fine) as int / (2 * fine) as int <= n) by (nonlinear_arith)
            requires
                4 * exact.0 <= 4 * (n * fine) + fine + 2,
                fine >= 4,
        ;
    }
}

/// The binary places bring a ratio to a full significand, and no further where
/// it is below 2^53.
pub proof fn lemma_places_reached(n: nat, d: nat)
    requires
        n > 0,
        d > 0,
    ensures
        n * pow2(places_for(n, d)) >= d * full(),
        n < 2 * d * full() ==> n * pow2(places_for(n, d)) < 2 * d * full(),
    decreases 2 * d * full() - n,
{
    lemma2_to64();
    if n < d * full() {
        lemma_places_reached(2 * n, d);
        let rest: nat = places_for(2 * n, d);
        lemma_pow2_unfold(rest + 1);
        assert((2 * n) * pow2(rest) == n * (2 * pow2(rest))) by (nonlinear_arith);
    } else {
        assert(n * pow2(0) == n) by (nonlinear_arith)
            requires
                pow2(0) == 1,
        ;
    }
}

/// The quotient of two whole numbers of 32 bits each, as a double, has no more
/// than 85 binary places, and 20 at least.
pub proof fn lemma_ratio_places(n: nat, d: nat)
    requires
        0 < n <= u32::MAX,
        0 < d <= u32::MAX,
    ensures
        d * full() <= n * pow2(nearest(n, d).1) < 2 * d * full(),
        0x10_0000 <= pow2(nearest(n, d).1) < 0x1_0000_0000 * (2 * full()),
        nearest(n, d).1 <= 85,
{
    let places: nat = places_for(n, d);
    lemma2_to64();
    lemma2_to64_rest();
    assert(n < 2 * d * full()) by (nonlinear_arith)
        requires
            n <= u32::MAX,
            d >= 1,
            full() == 0x10_0000_0000_0000,
    ;
    lemma_places_reached(n, d);
    assert(0x10_0000 <= pow2(places)) by (nonlinear_arith)
        requires
            d * full() <= n * pow2(places),
            n <= u32::MAX,
            d >= 1,
            full() == 0x10_0000_0000_0000,
    ;
    assert(pow2(places) < 0x1_0000_0000 * (2 * full())) by (nonlinear_arith)
        requires
            n * pow2(places) < 2 * d * full(),
            n >= 1,
            d <= u32::MAX,
            full() == 0x10_0000_0000_0000,
            pow2(places) >= 1,
    ;
    if places > 85 {
        lemma_pow2_adds(64, 21);
        lemma_pow2_strictly_increases(85, places);
    }
}

/// A whole number divided by a ratio, to the nearest whole number, one at least.
pub open spec fn divided_side(side: nat, ratio: (nat, nat)) -> nat {
    let exact = nearest(side * pow2(ratio.1), ratio.0);
    let near = half_up(exact.0, pow2(exact.1));
    if near < 1 {
        1
    } else {
        near
    }
}

/// Scales a side of a picture by a ratio of 1 or less.
pub fn scale_side(side: u32, ratio: Double) -> (r: u32)
    requires
        full() <= ratio.numerator <= 2 * full(),
        ratio.numerator <= pow2(ratio.places as nat),
        ratio.places <= 5000,
    ensures
        r == scaled_side(side as nat, ratio@),
        r <= side || r == 1,
{
    proof {
        lemma_scaled_side_is_no_longer(side as nat, ratio@);
    }
    if side == 0 {
        return 1;
    }
    proof {
        lemma_pow2_pos(ratio.places as nat);
        assert(side * ratio.numerator < 2 * pow2(ratio.places as nat) * full()) by (nonlinear_arith)
            requires
                0 < side < 0x1_0000_0000,
                ratio.numerator <= pow2(ratio.places as nat),
                pow2(ratio.places as nat) > 0,
                full() == 0x10_0000_0000_0000,
        ;
    }
    let near: u128 = rounded(scaled_by(side, ratio));
    if near < 1 {
        1
    } else {
        near as u32
    }
}

} // verus!
