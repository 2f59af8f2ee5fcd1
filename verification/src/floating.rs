//! Double-precision arithmetic with signs, carried out in integers.
//!
//! A number stands for a whole number of parts of 2^-2000, so that every number
//! in play is one. A result is the number nearest to the true one with 53 bits,
//! the one with the even significand when two are as near. None of the numbers
//! is so large or so small that a double could not hold it.

use vstd::arithmetic::div_mod::{
    lemma_basic_div, lemma_fundamental_div_mod, lemma_fundamental_div_mod_converse,
};
use vstd::arithmetic::power2::{
    lemma2_to64, lemma_pow2_adds, lemma_pow2_pos, lemma_pow2_strictly_increases, lemma_pow2_unfold,
    pow2,
};
use vstd::prelude::*;

use crate::double::{
    excess_of, full, half_even, half_up, lemma_excess, lemma_half_even_is_near,
    lemma_half_even_of_whole, lemma_half_even_scales, nearest_whole, power_of_two, whole,
};

verus! {

/// A number: `significand * 2^exponent`, with its sign.
#[derive(Clone, Copy)]
pub struct Number {
    pub negative: bool,
    pub significand: u64,
    pub exponent: i32,
}

/// One, in parts of 2^-2000.
pub open spec fn one() -> nat {
    pow2(2000)
}

/// A number with its sign.
pub open spec fn signed(negative: bool, n: nat) -> int {
    if negative {
        -(n as int)
    } else {
        n as int
    }
}

/// The number with 53 bits that is nearest to a whole number.
pub open spec fn kept(n: int) -> int {
    if n < 0 {
        -(whole((-n) as nat) as int)
    } else {
        whole(n as nat) as int
    }
}

/// The product of two numbers.
pub open spec fn times(a: int, b: int) -> int {
    kept(a * b) / one() as int
}

/// The sum of two numbers.
pub open spec fn plus(a: int, b: int) -> int {
    kept(a + b)
}

impl Number {
    /// The number, in parts of 2^-2000.
    pub open spec fn view(&self) -> int {
        signed(self.negative, (self.significand * pow2((self.exponent + 2000) as nat)) as nat)
    }

    /// All 53 bits are in use, or the number is nothing.
    pub open spec fn wf(self) -> bool {
        &&& -2000 <= self.exponent <= 2000
        &&& self.significand == 0 || full() <= self.significand < 2 * full()
        &&& self.significand == 0 ==> !self.negative && self.exponent == 0
    }

    /// Whether the last of the bits is worth between two powers of two.
    pub open spec fn within(self, low: int, high: int) -> bool {
        self.significand == 0 || low <= self.exponent <= high
    }
}

/// Doubling a number doubles the nearest number.
pub proof fn lemma_whole_doubles(n: nat)
    ensures
        whole(2 * n) == 2 * whole(n),
{
    lemma2_to64();
    lemma_half_even_of_whole(n);
    lemma_half_even_of_whole(2 * n);
    if 2 * n < 2 * full() {
        assert(n * 1 == n && (2 * n) * 1 == 2 * n);
    } else {
        let u = pow2(excess_of(n));
        lemma_pow2_pos(excess_of(n));
        lemma_pow2_unfold(excess_of(2 * n));
        assert((2 * n) / 2 == n);
        assert(excess_of(2 * n) == 1 + excess_of(n));
        lemma_half_even_scales(n, u, 2);
        assert(half_even(n, u) * (2 * u) == 2 * (half_even(n, u) * u)) by (nonlinear_arith);
        assert(n * 2 == 2 * n && u * 2 == 2 * u);
    }
}

/// A power of two on a number is one on the nearest number.
pub proof fn lemma_whole_shifts(n: nat, places: nat)
    ensures
        whole(n * pow2(places)) == whole(n) * pow2(places),
    decreases places,
{
    lemma2_to64();
    if places == 0 {
        assert(n * 1 == n && whole(n) * 1 == whole(n));
    } else {
        let less: nat = (places - 1) as nat;
        lemma_whole_shifts(n, less);
        lemma_pow2_unfold(places);
        let p = pow2(less);
        assert(n * (2 * p) == 2 * (n * p)) by (nonlinear_arith);
        lemma_whole_doubles(n * p);
        assert(whole(n) * (2 * p) == 2 * (whole(n) * p)) by (nonlinear_arith);
    }
}

/// A whole number whose bits fit is its own nearest.
pub proof fn lemma_whole_of_short(n: nat)
    requires
        n < 2 * full(),
    ensures
        whole(n) == n,
{
    lemma2_to64();
    lemma_half_even_of_whole(n);
    assert(n * 1 == n);
}

/// What the nearest number leaves out is small.
pub proof fn lemma_whole_is_near(n: nat)
    ensures
        2 * full() * whole(n) <= (2 * full() + 1) * n,
        (2 * full() - 1) * n <= 2 * full() * whole(n),
{
    let unit = pow2(excess_of(n));
    lemma_pow2_pos(excess_of(n));
    if n < 2 * full() {
        lemma_whole_of_short(n);
        assert((2 * full() - 1) * n <= 2 * full() * n && 2 * full() * n <= (2 * full() + 1) * n)
            by (nonlinear_arith);
    } else {
        lemma_last_bit(n);
        lemma_half_even_is_near(n, unit);
        let near = half_even(n, unit) * unit;
        assert(2 * full() * near <= (2 * full() + 1) * n) by (nonlinear_arith)
            requires
                2 * near <= 2 * n + unit,
                unit * full() <= n,
        ;
        assert((2 * full() - 1) * n <= 2 * full() * near) by (nonlinear_arith)
            requires
                2 * n <= 2 * near + unit,
                unit * full() <= n,
        ;
    }
}

proof fn lemma_last_bit(n: nat)
    requires
        n >= full(),
    ensures
        pow2(excess_of(n)) * full() <= n,
    decreases n,
{
    lemma2_to64();
    if n >= 2 * full() {
        lemma_last_bit(n / 2);
        lemma_pow2_unfold(excess_of(n));
        let p = pow2(excess_of(n / 2));
        assert((2 * p) * full() == 2 * (p * full())) by (nonlinear_arith);
    }
}

/// Moving a power of two from one factor to the other.
proof fn lemma_moved(n: nat, places: nat, more: nat)
    ensures
        (n * pow2(more)) * pow2(places) == n * pow2(places + more),
{
    lemma_pow2_adds(places, more);
    let (p, m) = (pow2(places), pow2(more));
    assert((n * m) * p == n * (p * m)) by (nonlinear_arith);
}

/// Shifts a significand up until all its bits are in use.
pub(crate) fn lift(negative: bool, n: u64, exponent: i32) -> (r: Number)
    requires
        0 < n < full(),
        -1940 <= exponent <= 2000,
    ensures
        r.wf(),
        r.significand > 0,
        r@ == signed(negative, (n * pow2((exponent + 2000) as nat)) as nat),
        exponent - 52 <= r.exponent <= exponent,
{
    let mut significand: u64 = n;
    let mut at: i32 = exponent;
    proof {
        lemma2_to64();
    }
    while significand < 0x10_0000_0000_0000
        invariant
            0 < significand < 2 * full(),
            exponent - 52 <= at <= exponent,
            -1940 <= exponent <= 2000,
            pow2((exponent - at) as nat) <= significand,
            significand * pow2((at + 2000) as nat) == n * pow2((exponent + 2000) as nat),
        decreases 2 * full() - significand,
    {
        proof {
            lemma2_to64();
            if at == exponent - 52 {
                assert(pow2(52) == full()) by {
                    vstd::arithmetic::power2::lemma2_to64_rest();
                }
            }
            lemma_pow2_unfold((at + 2000) as nat);
            lemma_pow2_unfold((exponent - at + 1) as nat);
            let p = pow2((at + 1999) as nat);
            assert((2 * significand) * p == significand * (2 * p)) by (nonlinear_arith);
        }
        significand = significand * 2;
        at = at - 1;
    }
    Number { negative, significand, exponent: at }
}

/// The number nearest to a whole number times a power of two.
pub(crate) fn settle(negative: bool, n: u128, exponent: i32) -> (r: Number)
    requires
        n < 0x40_0000_0000_0000_0000_0000_0000_0000,
        -1940 <= exponent <= 1930,
    ensures
        r.wf(),
        r@ == signed(negative, (whole(n as nat) * pow2((exponent + 2000) as nat)) as nat),
        n == 0 ==> r.significand == 0,
        n > 0 ==> r.significand > 0 && exponent - 52 <= r.exponent <= exponent + 66,
{
    proof {
        lemma2_to64();
    }
    if n == 0 {
        proof {
            lemma_whole_of_short(0);
            let p = pow2((exponent + 2000) as nat);
            assert(0 * p == 0);
            assert(0 * pow2(2000) == 0) by (nonlinear_arith);
        }
        return Number { negative: false, significand: 0, exponent: 0 };
    }
    if n < 0x10_0000_0000_0000 {
        proof {
            lemma_whole_of_short(n as nat);
        }
        return lift(negative, n as u64, exponent);
    }
    let mut unit: u128 = 1;
    let mut excess: i32 = 0;
    while n / 0x20_0000_0000_0000_0000 >= unit
        invariant
            n < 0x40_0000_0000_0000_0000_0000_0000_0000,
            0 <= excess <= 65,
            unit == pow2(excess as nat),
            1 <= unit <= 0x4_0000_0000_0000_0000,
            unit * full() <= n,
        decreases 0x8_0000_0000_0000_0000 - unit,
    {
        proof {
            lemma_pow2_adds(excess as nat, 16);
            lemma2_to64();
            if excess > 49 {
                lemma_pow2_strictly_increases(49, excess as nat);
                lemma_pow2_adds(49, 16);
                vstd::arithmetic::power2::lemma2_to64_rest();
            }
        }
        unit = unit * 0x1_0000;
        excess = excess + 16;
    }
    while n >= unit * 0x20_0000_0000_0000
        invariant
            n < 0x40_0000_0000_0000_0000_0000_0000_0000,
            0 <= excess <= 65,
            unit == pow2(excess as nat),
            1 <= unit <= 0x4_0000_0000_0000_0000,
            unit * full() <= n,
        decreases 0x8_0000_0000_0000_0000 - unit,
    {
        proof {
            lemma_pow2_unfold((excess + 1) as nat);
            if excess == 65 {
                lemma2_to64();
                lemma_pow2_unfold(65);
            }
        }
        unit = unit * 2;
        excess = excess + 1;
    }
    proof {
        lemma_excess(n as nat, excess as nat);
        lemma_fundamental_div_mod(n as int, unit as int);
        assert((n as int / unit as int) < 2 * full()) by (nonlinear_arith)
            requires
                n < 2 * unit * full(),
                unit > 0,
        ;
        assert((n as int / unit as int) >= full()) by (nonlinear_arith)
            requires
                n >= unit * full(),
                unit > 0,
        ;
    }
    let close: u128 = nearest_whole(n, unit);
    proof {
        assert(full() <= close <= 2 * full());
        lemma_moved(close as nat, (exponent + 2000) as nat, excess as nat);
        lemma_moved(full(), (exponent + excess + 2000) as nat, 1);
        assert(exponent + 2000 + excess == exponent + excess + 2000);
        assert(pow2(1) == 2);
        assert(full() * 2 == 2 * full());
    }
    if close == 0x20_0000_0000_0000 {
        Number { negative, significand: 0x10_0000_0000_0000, exponent: exponent + excess + 1 }
    } else {
        Number { negative, significand: close as u64, exponent: exponent + excess }
    }
}

/// A number with its sign, divided by one.
pub proof fn lemma_divided(negative: bool, q: nat, n: int)
    requires
        n == signed(negative, q * one()),
    ensures
        n / one() as int == signed(negative, q),
{
    lemma_pow2_pos(2000);
    let d = one() as int;
    assert(n == signed(negative, q) * d) by (nonlinear_arith)
        requires
            n == signed(negative, q * one()),
            d == one(),
            signed(negative, q * one()) == (if negative { -(q * one()) } else { (q * one()) as int }),
            signed(negative, q) == (if negative { -(q as int) } else { q as int }),
    ;
    lemma_fundamental_div_mod_converse(n, d, signed(negative, q), 0);
}

/// The product of two numbers.
pub fn multiply(a: Number, b: Number) -> (r: Number)
    requires
        a.wf(),
        b.wf(),
        -1880 <= a.exponent + b.exponent <= 1880,
    ensures
        r.wf(),
        r@ == times(a@, b@),
        r.within(a.exponent + b.exponent - 52, a.exponent + b.exponent + 66),
        r.significand == 0 <==> (a.significand == 0 || b.significand == 0),
{
    proof {
        assert(a.significand * b.significand < 0x40_0000_0000_0000_0000_0000_0000_0000)
            by (nonlinear_arith)
            requires
                0 <= a.significand < 0x20_0000_0000_0000,
                0 <= b.significand < 0x20_0000_0000_0000,
        ;
        assert((a.significand == 0 || b.significand == 0) <==> a.significand * b.significand == 0)
            by (nonlinear_arith)
            requires
                a.significand >= 0,
                b.significand >= 0,
        ;
    }
    let n: u128 = a.significand as u128 * b.significand as u128;
    let exponent: i32 = a.exponent + b.exponent;
    let negative = a.negative != b.negative;
    let r = settle(negative, n, exponent);
    proof {
        let (pa, pb) = (pow2((a.exponent + 2000) as nat), pow2((b.exponent + 2000) as nat));
        let (sa, sb) = (a.significand as nat, b.significand as nat);
        let places: nat = (exponent + 2000) as nat;
        lemma_pow2_adds((a.exponent + 2000) as nat, (b.exponent + 2000) as nat);
        lemma_pow2_adds(places, 2000);
        let size: nat = (n as nat) * pow2((exponent + 4000) as nat);
        assert((sa * pa) * (sb * pb) == (sa * sb) * (pa * pb)) by (nonlinear_arith);
        assert(a@ * b@ == signed(negative, size)) by (nonlinear_arith)
            requires
                a@ == signed(a.negative, sa * pa),
                b@ == signed(b.negative, sb * pb),
                signed(a.negative, sa * pa) == (if a.negative { -(sa * pa) } else { (sa * pa) as int }),
                signed(b.negative, sb * pb) == (if b.negative { -(sb * pb) } else { (sb * pb) as int }),
                signed(negative, size) == (if negative { -(size as int) } else { size as int }),
                size == (sa * pa) * (sb * pb),
                negative == (a.negative != b.negative),
        ;
        lemma_whole_shifts(n as nat, (exponent + 4000) as nat);
        let q: nat = whole(n as nat) * pow2(places);
        lemma_moved(whole(n as nat), 2000, places);
        lemma_whole_of_short(0);
        assert(kept(a@ * b@) == signed(negative, q * one()));
        lemma_divided(negative, q, kept(a@ * b@));
    }
    r
}

/// A number is its own nearest.
proof fn lemma_kept(a: Number)
    requires
        a.wf(),
    ensures
        kept(a@) == a@,
{
    let p = pow2((a.exponent + 2000) as nat);
    lemma_whole_of_short(a.significand as nat);
    lemma_whole_shifts(a.significand as nat, (a.exponent + 2000) as nat);
}

/// A number is lost on one that is more than 2^64 times as large.
proof fn lemma_lost(large: nat, places: nat, small: int)
    requires
        full() <= large < 2 * full(),
        places > 64,
        -2 * full() < small < 2 * full(),
    ensures
        whole((large * pow2(places) + small) as nat) == large * pow2(places),
{
    let unit: nat = pow2(places);
    lemma2_to64();
    lemma_pow2_strictly_increases(64, places);
    lemma_pow2_unfold(places);
    let half: nat = pow2((places - 1) as nat);
    assert(unit == 2 * half);
    assert(half >= 0x8000_0000_0000_0000) by {
        if places > 65 {
            lemma_pow2_strictly_increases(64, (places - 1) as nat);
        }
    }
    assert(full() * unit <= large * unit && large * unit + unit <= 2 * full() * unit)
        by (nonlinear_arith)
        requires
            full() <= large,
            large + 1 <= 2 * full(),
    ;
    assert(2 * full() * unit == 2 * unit * full() && full() * unit == unit * full())
        by (nonlinear_arith);
    assert(2 * full() * half == 2 * half * full()) by (nonlinear_arith);
    let n: nat = (large * unit + small) as nat;
    if small >= 0 {
        lemma_excess(n, places);
        lemma_fundamental_div_mod_converse(n as int, unit as int, large as int, small);
    } else if large > full() {
        assert(full() * unit + unit <= large * unit) by (nonlinear_arith)
            requires
                full() + 1 <= large,
        ;
        lemma_excess(n, places);
        assert(n == (large - 1) * unit + (unit + small)) by (nonlinear_arith)
            requires
                n == large * unit + small,
        ;
        lemma_fundamental_div_mod_converse(n as int, unit as int, large - 1, unit + small);
    } else {
        assert(full() * unit == 2 * full() * half) by (nonlinear_arith)
            requires
                unit == 2 * half,
        ;
        assert(half * full() + half <= 2 * full() * half) by (nonlinear_arith)
            requires
                full() >= 1,
        ;
        lemma_excess(n, (places - 1) as nat);
        assert(n == (2 * full() - 1) * half + (half + small)) by (nonlinear_arith)
            requires
                n == 2 * full() * half + small,
        ;
        lemma_fundamental_div_mod_converse(n as int, half as int, 2 * full() - 1, half + small);
        assert((2 * full()) * half == full() * unit) by (nonlinear_arith)
            requires
                unit == 2 * half,
        ;
    }
}

/// Sums and differences of two numbers of units.
proof fn lemma_spread(a: int, b: int, unit: nat)
    ensures
        (a + b) * unit == a * unit + b * unit,
        (a - b) * unit == a * unit - b * unit,
        (b - a) * unit == b * unit - a * unit,
{
    assert((a + b) * unit == a * unit + b * unit) by (nonlinear_arith);
    assert((a - b) * unit == a * unit - b * unit) by (nonlinear_arith);
    assert((b - a) * unit == b * unit - a * unit) by (nonlinear_arith);
}

/// Puts a number, and one with no larger exponent behind it, together.
fn join(big: Number, small: Number) -> (r: Number)
    requires
        big.wf(),
        small.wf(),
        big.significand > 0,
        small.significand > 0,
        -1800 <= small.exponent <= big.exponent <= 1800,
    ensures
        r.wf(),
        r@ == plus(big@, small@),
        r.within(small.exponent - 52, big.exponent + 66),
{
    let gap: i32 = big.exponent - small.exponent;
    let ghost places: nat = (small.exponent + 2000) as nat;
    let ghost unit = pow2(places);
    proof {
        lemma_moved(big.significand as nat, places, gap as nat);
        assert(places + gap as nat == (big.exponent + 2000) as nat);
        lemma_pow2_pos(places);
        lemma_pow2_pos(gap as nat);
    }
    if gap > 64 {
        proof {
            let raised: nat = big.significand as nat * pow2(gap as nat);
            let change: int = if big.negative == small.negative {
                small.significand as int
            } else {
                -(small.significand as int)
            };
            lemma_lost(big.significand as nat, gap as nat, change);
            lemma_pow2_strictly_increases(64, gap as nat);
            lemma2_to64();
            assert(raised >= small.significand) by (nonlinear_arith)
                requires
                    raised == big.significand * pow2(gap as nat),
                    big.significand >= full(),
                    pow2(gap as nat) >= 2,
                    small.significand < 2 * full(),
            ;
            let n: nat = (raised + change) as nat;
            lemma_whole_shifts(n, places);
            lemma_spread(raised as int, small.significand as int, unit);
            assert(big@ + small@ == signed(big.negative, n * unit));
            lemma_whole_of_short(0);
        }
        return big;
    }
    let shift: u128 = power_of_two(gap as u32);
    proof {
        lemma2_to64();
        if gap < 64 {
            lemma_pow2_strictly_increases(gap as nat, 64);
        }
        assert(big.significand * shift <= 0x20_0000_0000_0000_0000_0000_0000_0000) by (nonlinear_arith)
            requires
                0 < big.significand < 0x20_0000_0000_0000,
                0 < shift <= 0x1_0000_0000_0000_0000,
        ;
    }
    let raised: u128 = big.significand as u128 * shift;
    let added: u128 = small.significand as u128;
    let (negative, n): (bool, u128) = if big.negative == small.negative {
        (big.negative, raised + added)
    } else if raised >= added {
        (big.negative, (raised - added) as u128)
    } else {
        (small.negative, (added - raised) as u128)
    };
    let r = settle(negative, n, small.exponent);
    proof {
        let size: nat = n as nat;
        lemma_whole_shifts(size, places);
        lemma_spread(raised as int, added as int, unit);
        assert(big@ + small@ == signed(negative, size * unit));
        lemma_whole_of_short(0);
    }
    r
}

/// The sum of two numbers.
pub fn add_up(a: Number, b: Number) -> (r: Number)
    requires
        a.wf(),
        b.wf(),
        -1800 <= a.exponent <= 1800,
        -1800 <= b.exponent <= 1800,
    ensures
        r.wf(),
        r@ == plus(a@, b@),
        forall|low: int, high: int|
            low <= high && #[trigger] a.within(low, high) && b.within(low, high) ==> r.within(
                low - 52,
                high + 66,
            ),
{
    proof {
        lemma_kept(a);
        lemma_kept(b);
        assert(0 * pow2(2000) == 0) by (nonlinear_arith);
    }
    if a.significand == 0 {
        return b;
    }
    if b.significand == 0 {
        return a;
    }
    if a.exponent >= b.exponent {
        join(a, b)
    } else {
        join(b, a)
    }
}

/// The field of a double's bits that holds its exponent.
pub open spec fn exponent_field(bits: u64) -> int {
    (bits as int / 0x10_0000_0000_0000) % 0x800
}

/// The number that the bits of a double stand for: nothing for those of the
/// very smallest ones, and for what is no number.
pub open spec fn read_bits(bits: u64) -> Option<int> {
    let fraction = bits as int % 0x10_0000_0000_0000;
    let head = bits as int / 0x10_0000_0000_0000;
    let negative = head >= 0x800;
    let field = exponent_field(bits);
    if field == 0 && fraction == 0 {
        Some(0)
    } else if field == 0 || field == 0x7FF {
        None
    } else {
        Some(signed(negative, ((fraction + full()) * pow2((field + 925) as nat)) as nat))
    }
}

/// The number nothing.
pub fn nothing() -> (r: Number)
    ensures
        r.wf(),
        r@ == 0,
        r.significand == 0,
{
    proof {
        assert(0 * pow2(2000) == 0) by (nonlinear_arith);
    }
    Number { negative: false, significand: 0, exponent: 0 }
}

/// Reads the bits of a double.
pub fn from_bits(bits: u64) -> (r: Option<Number>)
    ensures
        match r {
            Some(number) => number.wf() && read_bits(bits) == Some(number@) && (number.significand
                > 0 ==> number.exponent == exponent_field(bits) - 1075),
            None => read_bits(bits) is None,
        },
{
    let fraction: u64 = bits % 0x10_0000_0000_0000;
    let head: u64 = bits / 0x10_0000_0000_0000;
    let field: u64 = head % 0x800;
    if field == 0 && fraction == 0 {
        return Some(nothing());
    }
    if field == 0 || field == 0x7FF {
        return None;
    }
    Some(
        Number {
            negative: head >= 0x800,
            significand: fraction + 0x10_0000_0000_0000,
            exponent: field as i32 - 1075,
        },
    )
}

/// Writes a number as the bits of a double, where it is one of those that are
/// not among the very smallest or past the largest.
pub fn to_bits(a: Number) -> (r: Option<u64>)
    requires
        a.wf(),
    ensures
        match r {
            Some(bits) => read_bits(bits) == Some(a@),
            None => !a.within(-1074, 971),
        },
{
    if a.significand == 0 {
        proof {
            let p = pow2((a.exponent + 2000) as nat);
            assert(0 * p == 0) by (nonlinear_arith);
        }
        return Some(0);
    }
    if a.exponent < -1074 || a.exponent > 971 {
        return None;
    }
    let field: u64 = (a.exponent + 1075) as u64;
    let head: u64 = if a.negative {
        0x800 + field
    } else {
        field
    };
    let fraction: u64 = a.significand - 0x10_0000_0000_0000;
    proof {
        assert(head <= 0xFFE);
        assert(head * 0x10_0000_0000_0000 + fraction <= u64::MAX);
        let bits: int = head * 0x10_0000_0000_0000 + fraction;
        lemma_fundamental_div_mod_converse(bits, 0x10_0000_0000_0000, head as int, fraction as int);
        assert((a.exponent + 2000) as nat == (field + 925) as nat);
    }
    Some(head * 0x10_0000_0000_0000 + fraction)
}

/// A whole number as a number.
pub open spec fn of_whole(n: int) -> int {
    n * one()
}

/// A whole number as a number.
pub fn from_whole(n: i64) -> (r: Number)
    requires
        -0x10_0000_0000_0000 < n < 0x10_0000_0000_0000,
    ensures
        r.wf(),
        r@ == of_whole(n as int),
        r.within(-52, 0),
{
    proof {
        assert(0 * one() == 0) by (nonlinear_arith);
    }
    if n == 0 {
        return nothing();
    }
    let r = if n < 0 {
        lift(true, (-n) as u64, 0)
    } else {
        lift(false, n as u64, 0)
    };
    proof {
        if n < 0 {
            assert(-((-n) * one()) == n * one()) by (nonlinear_arith);
        }
    }
    r
}

/// A number with the other sign.
pub fn negated(a: Number) -> (r: Number)
    requires
        a.wf(),
    ensures
        r.wf(),
        r@ == -a@,
        r.exponent == a.exponent,
        r.significand == a.significand,
{
    proof {
        let p = pow2((a.exponent + 2000) as nat);
        assert(0 * p == 0) by (nonlinear_arith);
    }
    Number {
        negative: !a.negative && a.significand != 0,
        significand: a.significand,
        exponent: a.exponent,
    }
}

/// The parts of one that a number below one leaves over.
proof fn lemma_parts(a: Number, places: nat)
    requires
        a.wf(),
        places == -a.exponent,
        a.exponent <= 0,
    ensures
        one() == pow2(places) * pow2((2000 - places) as nat),
        a@ == signed(a.negative, (a.significand * pow2((2000 - places) as nat)) as nat),
        pow2(places) > 0,
        pow2((2000 - places) as nat) > 0,
{
    lemma_pow2_adds(places, (2000 - places) as nat);
    lemma_pow2_pos(places);
    lemma_pow2_pos((2000 - places) as nat);
}

/// The whole number below a number, or at it.
pub fn floor(a: Number) -> (r: i64)
    requires
        a.wf(),
        a.within(-2000, -1),
    ensures
        r == a@ / one() as int,
{
    proof {
        lemma_pow2_pos(2000);
        lemma_basic_div(0, one() as int);
        assert(0 * pow2(2000) == 0) by (nonlinear_arith);
    }
    if a.significand == 0 {
        return 0;
    }
    let places: u32 = (-a.exponent) as u32;
    let ghost rest_unit: nat = pow2((2000 - places) as nat);
    let ghost unit: nat = pow2(places as nat);
    proof {
        lemma_parts(a, places as nat);
        lemma2_to64();
    }
    let (q, rest): (u64, u64) = if places >= 64 {
        proof {
            if places > 64 {
                lemma_pow2_strictly_increases(64, places as nat);
            }
        }
        (0, a.significand)
    } else {
        proof {
            lemma_pow2_strictly_increases(places as nat, 64);
        }
        let d: u64 = power_of_two(places) as u64;
        proof {
            lemma_fundamental_div_mod(a.significand as int, d as int);
            assert(a.significand as int / d as int <= a.significand) by (nonlinear_arith)
                requires
                    d >= 1,
            ;
        }
        (a.significand / d, a.significand % d)
    };
    proof {
        assert(a.significand == unit * q + rest && 0 <= rest < unit) by {
            if places >= 64 {
                assert(unit * 0 == 0);
            }
        }
        let size: int = a.significand * rest_unit;
        assert(size == q * one() + rest * rest_unit && 0 <= rest * rest_unit < one())
            by (nonlinear_arith)
            requires
                size == a.significand * rest_unit,
                a.significand == unit * q + rest,
                one() == unit * rest_unit,
                0 <= rest < unit,
                rest_unit > 0,
        ;
        if !a.negative {
            lemma_fundamental_div_mod_converse(a@, one() as int, q as int, rest * rest_unit);
        } else if rest == 0 {
            assert(rest * rest_unit == 0) by (nonlinear_arith)
                requires
                    rest == 0,
            ;
            assert(-size == (-q) * one()) by (nonlinear_arith)
                requires
                    size == q * one(),
            ;
            lemma_fundamental_div_mod_converse(a@, one() as int, -(q as int), 0);
        } else {
            assert(0 < rest * rest_unit) by (nonlinear_arith)
                requires
                    rest > 0,
                    rest_unit > 0,
            ;
            assert(-size == (-q - 1) * one() + (one() - rest * rest_unit)) by (nonlinear_arith)
                requires
                    size == q * one() + rest * rest_unit,
            ;
            lemma_fundamental_div_mod_converse(
                a@,
                one() as int,
                -(q as int) - 1,
                one() - rest * rest_unit,
            );
        }
    }
    if !a.negative {
        q as i64
    } else if rest == 0 {
        -(q as i64)
    } else {
        -(q as i64) - 1
    }
}

/// What a number is as a shade: the nearest whole number, the larger one of two
/// as near, held between 0 and 255.
pub open spec fn shade(a: int) -> nat {
    if a < 0 {
        0
    } else if half_up(a as nat, one()) > 255 {
        255
    } else {
        half_up(a as nat, one())
    }
}

/// The whole number nearest to a number that is not negative, the larger one of
/// two as near.
pub fn rounded(a: Number) -> (r: u64)
    requires
        a.wf(),
        !a.negative,
        a.within(-2000, -1),
    ensures
        a@ >= 0,
        r == half_up(a@ as nat, one()),
{
    proof {
        lemma2_to64();
        lemma_pow2_pos(2000);
        lemma_basic_div(one() as int, 2 * one() as int);
        assert(0 * pow2(2000) == 0) by (nonlinear_arith);
    }
    if a.significand == 0 {
        return 0;
    }
    let places: u32 = (-a.exponent) as u32;
    let ghost rest_unit: nat = pow2((2000 - places) as nat);
    let ghost unit: nat = pow2(places as nat);
    proof {
        lemma_parts(a, places as nat);
        assert(half_up(a@ as nat, one()) == (2 * a.significand + unit) as int / (2 * unit) as int) by {
            let x: int = 2 * a.significand + unit;
            assert((2 * a@ + one()) == rest_unit * x && 2 * one() == rest_unit * (2 * unit))
                by (nonlinear_arith)
                requires
                    a@ == a.significand * rest_unit,
                    one() == unit * rest_unit,
                    x == 2 * a.significand + unit,
            ;
            vstd::arithmetic::div_mod::lemma_div_multiples_vanish_quotient(
                rest_unit as int,
                x,
                2 * unit as int,
            );
        }
    }
    if places >= 64 {
        proof {
            if places > 64 {
                lemma_pow2_strictly_increases(64, places as nat);
            }
            lemma_basic_div((2 * a.significand + unit) as int, (2 * unit) as int);
        }
        return 0;
    }
    let d: u128 = power_of_two(places);
    proof {
        lemma_pow2_strictly_increases(places as nat, 64);
        assert((2 * a.significand + d) as int / (2 * d) as int <= 2 * a.significand + 1)
            by (nonlinear_arith)
            requires
                d >= 1,
        ;
    }
    ((2 * a.significand as u128 + d) / (2 * d)) as u64
}

/// Makes a shade of a number.
pub fn to_shade(a: Number) -> (r: u8)
    requires
        a.wf(),
    ensures
        r == shade(a@),
{
    proof {
        lemma_pow2_pos(2000);
        lemma_pow2_pos((a.exponent + 2000) as nat);
        let p = pow2((a.exponent + 2000) as nat);
        assert(a.significand > 0 ==> a.significand * p > 0) by (nonlinear_arith)
            requires
                p > 0,
        ;
        assert(0 * p == 0) by (nonlinear_arith);
        lemma_basic_div(one() as int, 2 * one() as int);
    }
    if a.significand == 0 || a.negative {
        return 0;
    }
    if a.exponent >= -44 {
        proof {
            lemma_large(a);
        }
        return 255;
    }
    let near: u64 = rounded(a);
    if near > 255 {
        255
    } else {
        near as u8
    }
}

/// A number of 256 or more is full shade.
proof fn lemma_large(a: Number)
    requires
        a.wf(),
        a.significand > 0,
        !a.negative,
        a.exponent >= -44,
    ensures
        half_up(a@ as nat, one()) > 255,
{
    let p = pow2((a.exponent + 2000) as nat);
    let least = pow2(1956);
    lemma2_to64();
    lemma_pow2_pos(1956);
    lemma_pow2_adds(1956, 44);
    if a.exponent > -44 {
        lemma_pow2_strictly_increases(1956, (a.exponent + 2000) as nat);
    }
    assert(pow2(44) == 0x1000_0000_0000) by {
        vstd::arithmetic::power2::lemma2_to64_rest();
    }
    assert(a.significand * p >= 256 * one()) by (nonlinear_arith)
        requires
            a.significand >= 0x10_0000_0000_0000,
            p >= least,
            one() == least * 0x1000_0000_0000,
    ;
    let (n, d) = (a@, one() as int);
    assert((2 * n + d) / (2 * d) >= 256) by (nonlinear_arith)
        requires
            n >= 256 * d,
            d > 0,
    ;
}

/// How many low bits of `n / d` are past the 53 that a number keeps.
pub open spec fn excess_ratio(n: nat, d: nat) -> nat
    decreases n - d,
{
    if d == 0 || n < 0x20_0000_0000_0000 * d {
        0
    } else {
        1 + excess_ratio(n, 2 * d)
    }
}

/// The whole number with 53 bits that is nearest to `n / d`.
pub open spec fn whole_ratio(n: nat, d: nat) -> nat {
    half_even(n, d * pow2(excess_ratio(n, d))) * pow2(excess_ratio(n, d))
}

/// A number without its sign.
pub open spec fn size(n: int) -> nat {
    if n < 0 {
        (-n) as nat
    } else {
        n as nat
    }
}

/// The quotient of two numbers.
pub open spec fn quotient(a: int, b: int) -> int {
    signed((a < 0) != (b < 0), whole_ratio(size(a) * one(), size(b)))
}

proof fn lemma_excess_ratio(n: nat, d: nat, excess: nat)
    requires
        d > 0,
        n < 2 * full() * (d * pow2(excess)),
        excess > 0 ==> full() * (d * pow2(excess)) <= n,
    ensures
        excess_ratio(n, d) == excess,
    decreases excess,
{
    lemma2_to64();
    if excess > 0 {
        let rest: nat = (excess - 1) as nat;
        lemma_pow2_unfold(excess);
        lemma_pow2_pos(rest);
        let p = pow2(rest);
        assert(d * (2 * p) == (2 * d) * p) by (nonlinear_arith);
        assert(full() * ((2 * d) * p) >= 2 * full() * d) by (nonlinear_arith)
            requires
                p >= 1,
        ;
        lemma_excess_ratio(n, 2 * d, rest);
    } else {
        assert(d * 1 == d);
    }
}

/// The quotient of two numbers.
pub fn divide(a: Number, b: Number) -> (r: Number)
    requires
        a.wf(),
        b.wf(),
        b.significand > 0,
        -1800 <= a.exponent - b.exponent <= 1800,
    ensures
        r.wf(),
        r@ == quotient(a@, b@),
        r.within(a.exponent - b.exponent - 53, a.exponent - b.exponent - 52),
        r.significand == 0 <==> a.significand == 0,
{
    proof {
        lemma2_to64();
        assert(0 * pow2(2000) == 0) by (nonlinear_arith);
        assert(0 * one() == 0) by (nonlinear_arith);
        let p = pow2((b.exponent + 2000) as nat);
        lemma_pow2_pos((b.exponent + 2000) as nat);
        assert(b.significand * p > 0) by (nonlinear_arith)
            requires
                b.significand > 0,
                p > 0,
        ;
    }
    if a.significand == 0 {
        proof {
            let d = size(b@);
            assert(d * 1 == d);
            assert(size(a@) * one() == 0);
            assert(excess_ratio(0, d) == 0);
            assert(d * pow2(0) == d);
            lemma_half_even_is_near(0, d);
            assert(half_even(0, d) == 0) by (nonlinear_arith)
                requires
                    2 * (half_even(0, d) * d) <= d,
                    d > 0,
            ;
            assert(whole_ratio(0, d) == 0 * pow2(0));
        }
        return nothing();
    }
    let shift: u128 = if a.significand >= b.significand {
        0x10_0000_0000_0000
    } else {
        0x20_0000_0000_0000
    };
    let down: i32 = if a.significand >= b.significand { 52 } else { 53 };
    proof {
        assert(a.significand * shift < 0x40_0000_0000_0000_0000_0000_0000_0000) by (nonlinear_arith)
            requires
                0 <= a.significand < 0x20_0000_0000_0000,
                0 <= shift <= 0x20_0000_0000_0000,
        ;
    }
    let n: u128 = a.significand as u128 * shift;
    let d: u128 = b.significand as u128;
    let q: u128 = nearest_whole(n, d);
    proof {
        lemma_quotient_bits(a.significand as nat, b.significand as nat, shift as nat);
        lemma_quotient(a, b, shift as nat, down as nat);
    }
    Number {
        negative: a.negative != b.negative,
        significand: q as u64,
        exponent: a.exponent - b.exponent - down,
    }
}

/// The quotient of two full significands, the first of them shifted, is full too.
proof fn lemma_quotient_bits(a: nat, b: nat, shift: nat)
    requires
        full() <= a < 2 * full(),
        full() <= b < 2 * full(),
        shift == (if a >= b { full() } else { 2 * full() }),
    ensures
        full() * b <= a * shift < 2 * full() * b,
        full() <= half_even(a * shift, b) < 2 * full(),
{
    let n: nat = a * shift;
    if a >= b {
        assert(full() * b <= n && n <= (2 * full() - 1) * b && n < 2 * full() * b) by (nonlinear_arith)
            requires
                n == a * full(),
                b <= a,
                a <= 2 * full() - 1,
                full() <= b,
        ;
    } else {
        assert(full() * b <= n && n <= (2 * full() - 1) * b && n < 2 * full() * b) by (nonlinear_arith)
            requires
                n == a * (2 * full()),
                a + 1 <= b,
                full() <= a,
                b < 2 * full(),
        ;
    }
    lemma_fundamental_div_mod(n as int, b as int);
    let (whole_part, rest) = (n as int / b as int, n as int % b as int);
    assert(full() <= whole_part <= 2 * full() - 1) by (nonlinear_arith)
        requires
            n == b * whole_part + rest,
            0 <= rest < b,
            full() * b <= n,
            n <= (2 * full() - 1) * b,
    ;
    if whole_part == 2 * full() - 1 {
        assert(rest == 0) by (nonlinear_arith)
            requires
                n == b * whole_part + rest,
                whole_part == 2 * full() - 1,
                n <= (2 * full() - 1) * b,
                0 <= rest,
        ;
    }
}

/// Where the quotient of two numbers lies.
proof fn lemma_quotient(a: Number, b: Number, shift: nat, down: nat)
    requires
        a.wf(),
        b.wf(),
        a.significand > 0,
        b.significand > 0,
        -1800 <= a.exponent - b.exponent <= 1800,
        down == (if a.significand >= b.significand { 52nat } else { 53nat }),
        shift == (if a.significand >= b.significand { full() } else { 2 * full() }),
    ensures
        quotient(a@, b@) == signed(
            a.negative != b.negative,
            half_even((a.significand * shift) as nat, b.significand as nat) * pow2(
                (a.exponent - b.exponent - down + 2000) as nat,
            ),
        ),
{
    let (sa, sb) = (a.significand as nat, b.significand as nat);
    let (pa, pb) = (pow2((a.exponent + 2000) as nat), pow2((b.exponent + 2000) as nat));
    let excess: nat = (a.exponent - b.exponent - down + 2000) as nat;
    let left: nat = (a.exponent + 4000 - down) as nat;
    let x = pow2(left);
    lemma2_to64();
    vstd::arithmetic::power2::lemma2_to64_rest();
    lemma_pow2_pos((a.exponent + 2000) as nat);
    lemma_pow2_pos((b.exponent + 2000) as nat);
    lemma_pow2_pos(left);
    lemma_pow2_adds((a.exponent + 2000) as nat, 2000);
    lemma_pow2_adds(left, down);
    lemma_pow2_adds((b.exponent + 2000) as nat, excess);
    assert(pow2(down) == shift);
    assert(sa * pa > 0 && sb * pb > 0) by (nonlinear_arith)
        requires
            sa > 0,
            sb > 0,
            pa > 0,
            pb > 0,
    ;
    let n: nat = (sa * pa) * one();
    let d: nat = sb * pb;
    assert(n == (sa * shift) * x) by (nonlinear_arith)
        requires
            n == (sa * pa) * one(),
            pa * one() == x * shift,
    ;
    assert(d * pow2(excess) == sb * x) by (nonlinear_arith)
        requires
            d == sb * pb,
            pb * pow2(excess) == x,
    ;
    lemma_quotient_bits(sa, sb, shift);
    assert(full() * (sb * x) <= n && n < 2 * full() * (sb * x)) by (nonlinear_arith)
        requires
            n == (sa * shift) * x,
            full() * sb <= sa * shift,
            sa * shift < 2 * full() * sb,
            x > 0,
    ;
    lemma_excess_ratio(n, d, excess);
    lemma_half_even_scales((sa * shift) as nat, sb, x);
    assert(size(a@) == sa * pa && size(b@) == sb * pb);
}

/// Compares two numbers.
pub fn less(a: Number, b: Number) -> (r: bool)
    requires
        a.wf(),
        b.wf(),
    ensures
        r == (a@ < b@),
{
    proof {
        lemma_sign(a);
        lemma_sign(b);
        if a.significand > 0 && b.significand > 0 {
            if a.exponent < b.exponent || (a.exponent == b.exponent && a.significand
                < b.significand) {
                lemma_larger(a, b);
            } else if b.exponent < a.exponent || b.significand < a.significand {
                lemma_larger(b, a);
            }
        }
    }
    if a.significand == 0 {
        b.significand > 0 && !b.negative
    } else if b.significand == 0 || a.negative != b.negative {
        a.negative
    } else if a.negative {
        b.exponent < a.exponent || (a.exponent == b.exponent && b.significand < a.significand)
    } else {
        a.exponent < b.exponent || (a.exponent == b.exponent && a.significand < b.significand)
    }
}

/// The sign of a number is that of what it stands for.
pub proof fn lemma_sign(a: Number)
    requires
        a.wf(),
    ensures
        a.significand == 0 ==> a@ == 0,
        a.significand > 0 && a.negative ==> a@ < 0,
        a.significand > 0 && !a.negative ==> a@ > 0,
{
    let p = pow2((a.exponent + 2000) as nat);
    lemma_pow2_pos((a.exponent + 2000) as nat);
    assert(a.significand > 0 ==> a.significand * p > 0) by (nonlinear_arith)
        requires
            p > 0,
    ;
    assert(a.significand == 0 ==> a.significand * p == 0) by (nonlinear_arith);
}

/// The larger exponent makes the larger number, and else the larger significand does.
proof fn lemma_larger(a: Number, b: Number)
    requires
        a.wf(),
        b.wf(),
        a.significand > 0,
        b.significand > 0,
        a.exponent < b.exponent || (a.exponent == b.exponent && a.significand < b.significand),
    ensures
        size(a@) < size(b@),
{
    let (pa, pb) = (pow2((a.exponent + 2000) as nat), pow2((b.exponent + 2000) as nat));
    lemma_pow2_pos((a.exponent + 2000) as nat);
    if a.exponent < b.exponent {
        lemma_pow2_unfold((a.exponent + 2001) as nat);
        if a.exponent + 1 < b.exponent {
            lemma_pow2_strictly_increases((a.exponent + 2001) as nat, (b.exponent + 2000) as nat);
        }
        assert(a.significand * pa < b.significand * pb) by (nonlinear_arith)
            requires
                a.significand < 2 * full(),
                b.significand >= full(),
                pb >= 2 * pa,
                pa > 0,
        ;
    } else {
        assert(a.significand * pa < b.significand * pb) by (nonlinear_arith)
            requires
                a.significand < b.significand,
                pa == pb,
                pa > 0,
        ;
    }
    assert(0 <= a.significand * pa && 0 <= b.significand * pb) by (nonlinear_arith)
        requires
            pa > 0,
            a.significand * pa < b.significand * pb,
    ;
}

} // verus!
