//! Single-precision arithmetic on numbers that are not negative, carried out in
//! integers: every result is the representable number nearest to the true one,
//! the one with the even significand when two are as near.

use vstd::arithmetic::power2::*;
use vstd::prelude::*;

use crate::double::{half_even, half_up, lemma_half_even_is_near, nearest_whole};

verus! {

/// A number and how many binary places it has: `numerator / 2^places`.
#[derive(Clone, Copy)]
pub struct Single {
    pub numerator: u64,
    pub places: u32,
}

/// How many binary places bring `n / d` to a whole part of 24 bits.
pub open spec fn short_places(n: nat, d: nat) -> nat
    decreases 2 * d * 0x80_0000 - n,
{
    if n == 0 || n >= d * 0x80_0000 {
        0
    } else {
        1 + short_places(2 * n, d)
    }
}

/// The single nearest to `n / d`, a number below 2^24, as a numerator and its
/// binary places.
pub open spec fn near(n: nat, d: nat) -> (nat, nat) {
    (half_even(n * pow2(short_places(n, d)), d), short_places(n, d))
}

/// The sum of two singles.
pub open spec fn sum(a: (nat, nat), b: (nat, nat)) -> (nat, nat) {
    near(a.0 * pow2(b.1) + b.0 * pow2(a.1), pow2(a.1) * pow2(b.1))
}

/// The product of two singles.
pub open spec fn product(a: (nat, nat), b: (nat, nat)) -> (nat, nat) {
    near(a.0 * b.0, pow2(a.1) * pow2(b.1))
}

/// The quotient of two singles.
pub open spec fn quotient(a: (nat, nat), b: (nat, nat)) -> (nat, nat) {
    near(a.0 * pow2(b.1), b.0 * pow2(a.1))
}

/// What a single of 1 or less lacks to 1.
pub open spec fn rest_of_one(a: (nat, nat)) -> (nat, nat) {
    near((pow2(a.1) - a.0) as nat, pow2(a.1))
}

/// The whole number nearest to a single, the larger one of two as near.
pub open spec fn to_whole(a: (nat, nat)) -> nat {
    half_up(a.0, pow2(a.1))
}

impl Single {
    /// The numerator and the binary places.
    pub open spec fn view(&self) -> (nat, nat) {
        (self.numerator as nat, self.places as nat)
    }
}

/// Whether a single is no more than 2^m.
pub open spec fn at_most(a: (nat, nat), m: nat) -> bool {
    a.0 <= pow2(m) * pow2(a.1)
}

/// Whether a single is no less than 2^-k.
pub open spec fn at_least(a: (nat, nat), k: nat) -> bool {
    a.0 * pow2(k) >= pow2(a.1)
}

/// Two to the power of `places`.
fn power_of_two(places: u32) -> (r: u128)
    requires
        places < 100,
    ensures
        r == pow2(places as nat),
        1 <= r <= 0x8_0000_0000_0000_0000_0000_0000,
{
    let mut power: u128 = 1;
    let mut done: u32 = 0;
    proof {
        lemma2_to64();
    }
    while done < places
        invariant
            done <= places < 100,
            power == pow2(done as nat),
        decreases places - done,
    {
        proof {
            lemma_pow2_unfold((done + 1) as nat);
            lemma_small_power((done + 1) as nat);
        }
        power = power * 2;
        done = done + 1;
    }
    proof {
        lemma_pow2_pos(places as nat);
        lemma_small_power(places as nat);
    }
    power
}

proof fn lemma_small_power(places: nat)
    requires
        places < 100,
    ensures
        pow2(places) <= 0x8_0000_0000_0000_0000_0000_0000,
{
    lemma2_to64();
    lemma2_to64_rest();
    lemma_pow2_adds(64, 35);
    if places < 99 {
        lemma_pow2_strictly_increases(places, 99);
    }
}

/// The binary places are those that bring a number to 24 bits, and no others.
proof fn lemma_short_places(n: nat, d: nat, places: nat)
    requires
        n > 0,
        d * 0x80_0000 <= n * pow2(places),
        n * pow2(places) < 2 * d * 0x80_0000,
    ensures
        short_places(n, d) == places,
    decreases places,
{
    lemma2_to64();
    if places > 0 {
        let rest: nat = (places - 1) as nat;
        lemma_pow2_unfold(places);
        lemma_pow2_pos(rest);
        assert(n * pow2(places) == 2 * (n * pow2(rest))) by (nonlinear_arith)
            requires
                pow2(places) == 2 * pow2(rest),
        ;
        assert(n <= n * pow2(rest)) by (nonlinear_arith)
            requires
                pow2(rest) >= 1,
        ;
        assert(2 * (n * pow2(rest)) == (2 * n) * pow2(rest)) by (nonlinear_arith);
        lemma_short_places(2 * n, d, rest);
    } else {
        assert(n * pow2(0) == n) by (nonlinear_arith)
            requires
                pow2(0) == 1,
        ;
    }
}

/// The single nearest to `n / d`, given bounds on it: 2^m from above and, where
/// it is not zero, 2^-k from below.
pub fn near_to(n: u128, d: u128, m: u32, k: u32) -> (r: Single)
    requires
        0 < d < 0x100_0000_0000_0000_0000_0000_0000,
        m <= 23,
        k <= 60,
        n <= pow2(m as nat) * d,
        n > 0 ==> n * pow2(k as nat) >= d,
    ensures
        r@ == near(n as nat, d as nat),
        r.numerator <= 0x100_0000,
        r.numerator == 0 <==> n == 0,
        at_most(r@, m as nat),
        n > 0 ==> at_least(r@, (k + 1) as nat),
        r.places <= 24 + k,
{
    proof {
        lemma2_to64();
        lemma_pow2_pos(m as nat);
        if m < 23 {
            lemma_pow2_strictly_increases(m as nat, 23);
        }
    }
    if n == 0 {
        proof {
            assert(0 * pow2(0) == 0) by (nonlinear_arith);
            lemma_half_even_is_near(0, d as nat);
            assert(half_even(0, d as nat) == 0) by (nonlinear_arith)
                requires
                    2 * (half_even(0, d as nat) * d) <= d,
                    d > 0,
            ;
        }
        return Single { numerator: 0, places: 0 };
    }
    let mut scaled: u128 = n;
    let mut places: u32 = 0;
    proof {
        assert(n <= 0x80_0000 * d) by (nonlinear_arith)
            requires
                n <= pow2(m as nat) * d,
                pow2(m as nat) <= 0x80_0000,
        ;
        assert(n * pow2(0) == n) by (nonlinear_arith)
            requires
                pow2(0) == 1,
        ;
    }
    while scaled < d * 0x80_0000
        invariant
            0 < d < 0x100_0000_0000_0000_0000_0000_0000,
            0 < n,
            k <= 60,
            n * pow2(k as nat) >= d,
            scaled == n * pow2(places as nat),
            scaled < 2 * d * 0x80_0000,
            places <= 23 + k,
        decreases 24 + k - places,
    {
        proof {
            lemma_pow2_unfold((places + 1) as nat);
            lemma2_to64();
            let power: nat = pow2(places as nat);
            assert(n * (2 * power) == 2 * (n * power)) by (nonlinear_arith);
            if places >= 23 + k {
                lemma_pow2_adds(k as nat, 23);
                assert(n * (pow2(k as nat) * 0x80_0000) >= d * 0x80_0000) by (nonlinear_arith)
                    requires
                        n * pow2(k as nat) >= d,
                ;
            }
        }
        scaled = scaled * 2;
        places = places + 1;
    }
    proof {
        let unit: nat = pow2(places as nat);
        lemma_pow2_pos(places as nat);
        lemma_short_places(n as nat, d as nat, places as nat);
        lemma_half_even_is_near(scaled as nat, d as nat);
        let x: nat = half_even(scaled as nat, d as nat);
        let most: nat = pow2(m as nat);
        assert(x <= 0x100_0000 && x >= 0x80_0000) by (nonlinear_arith)
            requires
                2 * (x * d) <= 2 * scaled + d,
                2 * scaled <= 2 * (x * d) + d,
                d * 0x80_0000 <= scaled,
                scaled < 2 * d * 0x80_0000,
                d > 0,
        ;
        assert(scaled as int / d as int <= scaled) by (nonlinear_arith)
            requires
                d >= 1,
                scaled >= 0,
        ;
        assert(x <= most * unit) by (nonlinear_arith)
            requires
                2 * (x * d) <= 2 * scaled + d,
                scaled == n * unit,
                n <= most * d,
                d > 0,
        ;
        lemma_pow2_unfold((k + 1) as nat);
        lemma_pow2_pos(k as nat);
        let least: nat = pow2(k as nat);
        assert(n * least * unit >= d * unit) by (nonlinear_arith)
            requires
                n * least >= d,
        ;
        assert(x * (2 * least) >= unit) by (nonlinear_arith)
            requires
                2 * scaled <= 2 * (x * d) + d,
                d * 0x80_0000 <= scaled,
                scaled == n * unit,
                n * least * unit >= d * unit,
                d > 0,
                least > 0,
        ;
    }
    let numerator: u128 = nearest_whole(scaled, d);
    Single { numerator: numerator as u64, places }
}

/// The product of two singles, given bounds on each.
pub fn multiply(a: Single, b: Single, ma: u32, ka: u32, mb: u32, kb: u32) -> (r: Single)
    requires
        a.numerator <= 0x100_0000,
        b.numerator <= 0x100_0000,
        a.places <= 60,
        b.places <= 39,
        ma + mb <= 23,
        ka + kb <= 60,
        at_most(a@, ma as nat),
        at_most(b@, mb as nat),
        a.numerator > 0 ==> at_least(a@, ka as nat),
        b.numerator > 0 ==> at_least(b@, kb as nat),
    ensures
        r@ == product(a@, b@),
        r.numerator <= 0x100_0000,
        r.numerator == 0 <==> a.numerator == 0 || b.numerator == 0,
        at_most(r@, (ma + mb) as nat),
        r.numerator > 0 ==> at_least(r@, (ka + kb + 1) as nat),
        r.places <= 24 + ka + kb,
{
    let pa: u128 = power_of_two(a.places);
    let pb: u128 = power_of_two(b.places);
    proof {
        lemma_pow2_adds(a.places as nat, b.places as nat);
        lemma_small_power((a.places + b.places) as nat);
        lemma_pow2_adds(ma as nat, mb as nat);
        lemma_pow2_adds(ka as nat, kb as nat);
        let x: nat = a.numerator as nat;
        let y: nat = b.numerator as nat;
        assert(x * y <= 0x100_0000 * 0x100_0000) by (nonlinear_arith)
            requires
                x <= 0x100_0000,
                y <= 0x100_0000,
        ;
        assert(x * y == 0 <==> x == 0 || y == 0) by (nonlinear_arith);
        assert(pa * pb >= 1) by (nonlinear_arith)
            requires
                pa >= 1,
                pb >= 1,
        ;
        let (m1, m2): (nat, nat) = (pow2(ma as nat), pow2(mb as nat));
        assert(x * y <= (m1 * m2) * (pa * pb)) by (nonlinear_arith)
            requires
                x <= m1 * pa,
                y <= m2 * pb,
        ;
        if x > 0 && y > 0 {
            let (k1, k2): (nat, nat) = (pow2(ka as nat), pow2(kb as nat));
            assert((x * y) * (k1 * k2) >= pa * pb) by (nonlinear_arith)
                requires
                    x * k1 >= pa,
                    y * k2 >= pb,
                    pa >= 1,
                    pb >= 1,
            ;
        }
    }
    near_to(a.numerator as u128 * b.numerator as u128, pa * pb, ma + mb, ka + kb)
}

/// The sum of two singles, given bounds: 2^m from above on each and, on the
/// first that is not zero, 2^-k from below.
pub fn plus(a: Single, b: Single, m: u32, k: u32) -> (r: Single)
    requires
        a.numerator <= 0x100_0000,
        b.numerator <= 0x100_0000,
        a.places <= 44,
        b.places <= 54,
        m <= 22,
        k <= 60,
        at_most(a@, m as nat),
        at_most(b@, m as nat),
        a.numerator > 0 ==> at_least(a@, k as nat),
        a.numerator == 0 && b.numerator > 0 ==> at_least(b@, k as nat),
    ensures
        r@ == sum(a@, b@),
        r.numerator <= 0x100_0000,
        r.numerator == 0 <==> a.numerator == 0 && b.numerator == 0,
        at_most(r@, (m + 1) as nat),
        r.numerator > 0 ==> at_least(r@, (k + 1) as nat),
        r.places <= 24 + k,
{
    let pa: u128 = power_of_two(a.places);
    let pb: u128 = power_of_two(b.places);
    let ghost x: nat = a.numerator as nat;
    let ghost y: nat = b.numerator as nat;
    proof {
        lemma_pow2_adds(a.places as nat, b.places as nat);
        lemma_small_power((a.places + b.places) as nat);
        lemma_small_power(54);
        lemma2_to64();
        lemma2_to64_rest();
        if a.places < 54 {
            lemma_pow2_strictly_increases(a.places as nat, 54);
        }
        if b.places < 54 {
            lemma_pow2_strictly_increases(b.places as nat, 54);
        }
        assert(x * pb <= 0x100_0000 * 0x40_0000_0000_0000 && y * pa <= 0x100_0000 * 0x40_0000_0000_0000)
            by (nonlinear_arith)
            requires
                x <= 0x100_0000,
                y <= 0x100_0000,
                pa <= 0x40_0000_0000_0000,
                pb <= 0x40_0000_0000_0000,
        ;
        assert(pa * pb >= 1) by (nonlinear_arith)
            requires
                pa >= 1,
                pb >= 1,
        ;
        lemma_pow2_unfold((m + 1) as nat);
        let most: nat = pow2(m as nat);
        assert(x * pb + y * pa <= (2 * most) * (pa * pb)) by (nonlinear_arith)
            requires
                x <= most * pa,
                y <= most * pb,
        ;
        assert(x * pb + y * pa == 0 <==> x == 0 && y == 0) by (nonlinear_arith)
            requires
                pa >= 1,
                pb >= 1,
        ;
        let least: nat = pow2(k as nat);
        if x > 0 {
            assert((x * pb + y * pa) * least >= pa * pb) by (nonlinear_arith)
                requires
                    x * least >= pa,
                    pb >= 1,
                    y * pa >= 0,
                    least >= 0,
            ;
        } else if y > 0 {
            assert((x * pb + y * pa) * least >= pa * pb) by (nonlinear_arith)
                requires
                    x == 0,
                    y * least >= pb,
                    pa >= 1,
            ;
        }
    }
    near_to(a.numerator as u128 * pb + b.numerator as u128 * pa, pa * pb, m + 1, k)
}

/// The quotient of two singles, given bounds: the first no more than 2^ma and,
/// where it is not zero, no less than 2^-ka; the second between 2^-kb and 2^mb.
pub fn divide(a: Single, b: Single, ma: u32, ka: u32, mb: u32, kb: u32) -> (r: Single)
    requires
        a.numerator <= 0x100_0000,
        0 < b.numerator <= 0x100_0000,
        a.places <= 60,
        b.places <= 60,
        ma + kb <= 23,
        ka + mb <= 60,
        at_most(a@, ma as nat),
        at_most(b@, mb as nat),
        a.numerator > 0 ==> at_least(a@, ka as nat),
        at_least(b@, kb as nat),
    ensures
        r@ == quotient(a@, b@),
        r.numerator <= 0x100_0000,
        r.numerator == 0 <==> a.numerator == 0,
        at_most(r@, (ma + kb) as nat),
        r.numerator > 0 ==> at_least(r@, (ka + mb + 1) as nat),
        r.places <= 24 + ka + mb,
{
    let pa: u128 = power_of_two(a.places);
    let pb: u128 = power_of_two(b.places);
    let ghost x: nat = a.numerator as nat;
    let ghost y: nat = b.numerator as nat;
    proof {
        lemma2_to64();
        lemma2_to64_rest();
        if a.places < 60 {
            lemma_pow2_strictly_increases(a.places as nat, 60);
        }
        if b.places < 60 {
            lemma_pow2_strictly_increases(b.places as nat, 60);
        }
        lemma_pow2_adds(ma as nat, kb as nat);
        lemma_pow2_adds(ka as nat, mb as nat);
        assert(x * pb <= 0x100_0000 * 0x1000_0000_0000_0000 && 0 < y * pa <= 0x100_0000
            * 0x1000_0000_0000_0000) by (nonlinear_arith)
            requires
                x <= 0x100_0000,
                0 < y <= 0x100_0000,
                1 <= pa <= 0x1000_0000_0000_0000,
                1 <= pb <= 0x1000_0000_0000_0000,
        ;
        let (m1, k2): (nat, nat) = (pow2(ma as nat), pow2(kb as nat));
        assert(x * pb <= (m1 * k2) * (y * pa)) by (nonlinear_arith)
            requires
                x <= m1 * pa,
                pb <= y * k2,
        ;
        assert(x * pb == 0 <==> x == 0) by (nonlinear_arith)
            requires
                pb >= 1,
        ;
        if x > 0 {
            let (k1, m2): (nat, nat) = (pow2(ka as nat), pow2(mb as nat));
            assert((x * pb) * (k1 * m2) >= y * pa) by (nonlinear_arith)
                requires
                    x * k1 >= pa,
                    y <= m2 * pb,
                    pa >= 1,
                    pb >= 1,
            ;
        }
    }
    near_to(a.numerator as u128 * pb, b.numerator as u128 * pa, ma + kb, ka + mb)
}

/// The single nearest to so many parts of 255.
pub fn part_of_255(a: u8) -> (r: Single)
    ensures
        r@ == near(a as nat, 255),
        r.numerator <= 0x100_0000,
        r.numerator == 0 <==> a == 0,
        at_most(r@, 0),
        r.numerator > 0 ==> at_least(r@, 9),
        r.places <= 32,
{
    proof {
        lemma2_to64();
    }
    near_to(a as u128, 255, 0, 8)
}

/// What a part of 255 lacks to 1.
pub fn complement(a: Single, share: u8) -> (r: Single)
    requires
        a@ == near(share as nat, 255),
        a.numerator <= 0x100_0000,
        a.numerator == 0 <==> share == 0,
        at_most(a@, 0),
        a.places <= 32,
    ensures
        r@ == rest_of_one(a@),
        r.numerator <= 0x100_0000,
        at_most(r@, 0),
        r.numerator > 0 ==> at_least(r@, 10),
        share == 0 ==> r.numerator > 0 && at_least(r@, 1),
        r.places <= 33,
{
    let pa: u128 = power_of_two(a.places);
    proof {
        lemma2_to64();
        assert(pow2(0) * pow2(a.places as nat) == pow2(a.places as nat)) by (nonlinear_arith)
            requires
                pow2(0) == 1,
        ;
        assert(pow2(0) * pa == pa) by (nonlinear_arith)
            requires
                pow2(0) == 1,
        ;
    }
    if share == 0 {
        proof {
            assert(pa * pow2(0) == pa) by (nonlinear_arith)
                requires
                    pow2(0) == 1,
            ;
        }
        return near_to(pa - a.numerator as u128, pa, 0, 0);
    }
    proof {
        let n: nat = share as nat;
        lemma_near_share(n);
        lemma_half_even_is_near(n * pow2(a.places as nat), 255);
        if pa > a.numerator {
            assert((pa - a.numerator) * 512 >= pa) by {
                if share == 255 {
                    assert(n * pow2(a.places as nat) == 255 * pow2(a.places as nat));
                    assert(a.numerator == pa);
                } else {
                    assert(n * pow2(a.places as nat) <= 254 * pow2(a.places as nat)) by (nonlinear_arith)
                        requires
                            n <= 254,
                            pow2(a.places as nat) >= 0,
                    ;
                }
            }
        }
    }
    near_to(pa - a.numerator as u128, pa, 0, 9)
}

/// A part of 255 takes 23 binary places at least.
proof fn lemma_near_share(n: nat)
    requires
        0 < n <= 255,
    ensures
        pow2(near(n, 255).1) >= 0x80_0000,
{
    let places: nat = short_places(n, 255);
    lemma_short_places_reached(n, 255);
    lemma_pow2_pos(places);
    assert(pow2(places) >= 0x80_0000) by (nonlinear_arith)
        requires
            n * pow2(places) >= 255 * 0x80_0000,
            n <= 255,
    ;
}

pub proof fn lemma_short_places_reached(n: nat, d: nat)
    requires
        n > 0,
    ensures
        n * pow2(short_places(n, d)) >= d * 0x80_0000,
    decreases 2 * d * 0x80_0000 - n,
{
    lemma2_to64();
    if n < d * 0x80_0000 {
        lemma_short_places_reached(2 * n, d);
        let rest: nat = short_places(2 * n, d);
        lemma_pow2_unfold(rest + 1);
        assert((2 * n) * pow2(rest) == n * (2 * pow2(rest))) by (nonlinear_arith);
    } else {
        assert(n * pow2(0) == n) by (nonlinear_arith)
            requires
                pow2(0) == 1,
        ;
    }
}

/// The whole number nearest to a single, capped at 255.
pub fn to_byte(a: Single) -> (r: u8)
    requires
        a.numerator <= 0x100_0000,
        a.places < 100,
    ensures
        r == (if to_whole(a@) > 255 { 255 } else { to_whole(a@) }),
{
    let p: u128 = power_of_two(a.places);
    let near: u128 = (2 * a.numerator as u128 + p) / (2 * p);
    if near > 255 {
        255
    } else {
        near as u8
    }
}

/// A number that is a single already is its own nearest.
pub proof fn lemma_near_is_exact(n: nat, d: nat, x: nat, places: nat)
    requires
        d > 0,
        0x80_0000 <= x < 0x100_0000,
        n * pow2(places) == x * d,
    ensures
        near(n, d) == (x, places),
{
    assert(n > 0) by (nonlinear_arith)
        requires
            n * pow2(places) == x * d,
            x > 0,
            d > 0,
    ;
    assert(d * 0x80_0000 <= x * d && x * d < 2 * d * 0x80_0000) by (nonlinear_arith)
        requires
            0x80_0000 <= x < 0x100_0000,
            d > 0,
    ;
    lemma_short_places(n, d, places);
    vstd::arithmetic::div_mod::lemma_div_multiples_vanish(x as int, d as int);
    vstd::arithmetic::div_mod::lemma_fundamental_div_mod_converse(
        (x * d) as int,
        d as int,
        x as int,
        0,
    );
}

/// Nothing is its own nearest.
pub proof fn lemma_near_nothing(d: nat)
    requires
        d > 0,
    ensures
        near(0, d) == (0nat, 0nat),
{
    lemma2_to64();
    assert(0 * pow2(0) == 0) by (nonlinear_arith);
    lemma_half_even_is_near(0, d);
    assert(half_even(0, d) == 0) by (nonlinear_arith)
        requires
            2 * (half_even(0, d) * d) <= d,
            d > 0,
    ;
}

/// A number on its binary places is its own nearest.
pub proof fn lemma_near_self(x: nat, places: nat)
    requires
        0x80_0000 <= x < 0x100_0000,
    ensures
        near(x, pow2(places)) == (x, places),
{
    lemma_pow2_pos(places);
    lemma_near_is_exact(x, pow2(places), x, places);
}

/// A part of 255 fills a significand without spilling over, and is within half
/// a unit of its last place.
pub proof fn lemma_part_of_255(c: nat)
    requires
        0 < c <= 255,
    ensures
        ({
            let s = near(c, 255);
            let unit = pow2(s.1);
            &&& 0x80_0000 <= s.0 < 0x100_0000
            &&& unit >= 0x80_0000
            &&& 510 * s.0 <= 2 * c * unit + 255
            &&& 2 * c * unit <= 510 * s.0 + 255
        }),
{
    let s = near(c, 255);
    let p: nat = s.1;
    let unit: nat = pow2(p);
    lemma_near_share(c);
    lemma_short_places_reached(c, 255);
    lemma_short_places_tight(c, 255);
    lemma_half_even_is_near(c * unit, 255);
    lemma2_to64();
    lemma2_to64_rest();
    assert(2 * (s.0 * 255) == 510 * s.0);
    assert(2 * (c * unit) == 2 * c * unit) by (nonlinear_arith);
    // What is missing to the next power of two is a multiple of 2^23.
    assert(c * unit + 0x80_0000 <= 255 * 0x100_0000) by {
        if p < 23 {
            lemma_pow2_strictly_increases(p, 23);
        } else {
            let q: nat = (p - 23) as nat;
            lemma_pow2_adds(23, q);
            let m: nat = c * pow2(q);
            assert(c * unit == 0x80_0000 * m) by (nonlinear_arith)
                requires
                    unit == 0x80_0000 * pow2(q),
                    m == c * pow2(q),
            ;
            assert(m < 510);
        }
    }
}

/// The binary places bring a number below 2^24 to no more than 24 bits.
proof fn lemma_short_places_tight(n: nat, d: nat)
    requires
        0 < n < 2 * d * 0x80_0000,
    ensures
        n * pow2(short_places(n, d)) < 2 * d * 0x80_0000,
    decreases 2 * d * 0x80_0000 - n,
{
    lemma2_to64();
    if n < d * 0x80_0000 {
        lemma_short_places_tight(2 * n, d);
        let rest: nat = short_places(2 * n, d);
        lemma_pow2_unfold(rest + 1);
        assert((2 * n) * pow2(rest) == n * (2 * pow2(rest))) by (nonlinear_arith);
    } else {
        assert(n * pow2(0) == n) by (nonlinear_arith)
            requires
                pow2(0) == 1,
        ;
    }
}

} // verus!
