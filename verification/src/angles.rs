//! Angles of rotation, which go round: a whole turn is 360 degrees and then it
//! starts again, so there is nothing at the end to stop against.

use crate::export::Quarters;
use crate::format::{is_white, margin, tail, without_margin, without_tail};
use crate::order::{characters, is_digit, law_a_written_number_reads_back, run_value};
use crate::wording::decimal;
use vstd::arithmetic::div_mod::{
    lemma_add_mod_noop, lemma_fundamental_div_mod, lemma_fundamental_div_mod_converse,
    lemma_mod_bound, lemma_mod_multiples_vanish, lemma_small_mod,
};
use vstd::prelude::*;

verus! {

/// One degree, in the units that angles are counted in.
pub const DEGREE: i64 = 65_536;

/// How near to a quarter turn an angle counts as one: less than a hundredth of a
/// degree, which is between 655 and 656 units.
pub const HAIR: i64 = 656;

/// A whole turn.
pub open spec fn turn() -> int {
    360 * DEGREE
}

/// An angle folded into the turn that starts half a turn back, which is what the
/// slider and the readout use.
pub open spec fn folded(angle: int) -> int {
    (angle + turn() / 2) % turn() - turn() / 2
}

/// The part of an angle past the last whole turn.
fn past_whole_turns(angle: i128) -> (r: i128)
    ensures
        r == angle as int % turn(),
        0 <= r < turn(),
{
    let whole: i128 = 23_592_960;
    let rest: i128 = angle % whole;
    if rest < 0 {
        proof {
            let less: int = -(angle as int);
            assert(rest == -(less % turn()));
            lemma_fundamental_div_mod(less, turn());
            lemma_fundamental_div_mod_converse(
                angle as int,
                turn(),
                -(less / turn()) - 1,
                rest + turn(),
            );
        }
        rest + whole
    } else {
        proof {
            if angle < 0 {
                let less: int = -(angle as int);
                lemma_fundamental_div_mod(less, turn());
                lemma_fundamental_div_mod_converse(angle as int, turn(), -(less / turn()), 0);
            }
        }
        rest
    }
}

/// Folds an angle.
pub fn normalise(angle: i64) -> (r: i64)
    ensures
        r == folded(angle as int),
        -180 * DEGREE <= r < 180 * DEGREE,
{
    let rest: i128 = past_whole_turns(angle as i128 + 180 * 65_536);
    (rest - 180 * 65_536) as i64
}

/// Where the point stands in a number; behind its end where there is none.
pub open spec fn point_in(number: Seq<char>) -> int
    decreases number.len(),
{
    if number.len() == 0 || number[0] == '.' {
        0
    } else {
        1 + point_in(number.drop_first())
    }
}

/// What stands ahead of the point in a number.
pub open spec fn whole_part(number: Seq<char>) -> Seq<char> {
    number.subrange(0, point_in(number))
}

/// What stands behind the point in a number.
pub open spec fn fraction_part(number: Seq<char>) -> Seq<char> {
    if point_in(number) < number.len() {
        number.subrange(point_in(number) + 1, number.len() as int)
    } else {
        Seq::empty()
    }
}

/// Whether some characters are digits all.
pub open spec fn all_digits(text: Seq<char>) -> bool {
    forall|i: int| 0 <= i < text.len() ==> is_digit(#[trigger] text[i])
}

/// The first six digits behind a point, filled up with zeros.
pub open spec fn six_digits(digits: Seq<char>) -> Seq<char> {
    Seq::new(
        6,
        |i: int|
            if i < digits.len() {
                digits[i]
            } else {
                '0'
            },
    )
}

/// Whether some characters are a number without a sign: digits, of which there is
/// one at least, with a point anywhere among them.
pub open spec fn is_number(number: Seq<char>) -> bool {
    &&& all_digits(whole_part(number))
    &&& all_digits(fraction_part(number))
    &&& whole_part(number).len() + fraction_part(number).len() > 0
}

/// So many degrees, to the nearest unit. The digits behind the sixth decimal place
/// do not count.
pub open spec fn degrees_in(number: Seq<char>) -> int {
    run_value(whole_part(number)) * DEGREE + (run_value(six_digits(fraction_part(number))) * DEGREE
        + 500_000) / 1_000_000
}

/// What a person wrote, without the white space around it and the degree sign.
pub open spec fn bare_number(text: Seq<char>) -> Seq<char> {
    let word = without_tail(without_margin(text));
    if word.len() > 0 && word.last() == '°' {
        without_tail(word.drop_last())
    } else {
        word
    }
}

/// The angle that a person typed. It wraps rather than stops; text that is no angle
/// at all is none.
pub open spec fn typed_angle(text: Seq<char>) -> Option<int> {
    let bare = bare_number(text);
    if bare.len() > 0 && bare[0] == '-' {
        if is_number(bare.drop_first()) {
            Some(folded(-degrees_in(bare.drop_first())))
        } else {
            None
        }
    } else if bare.len() > 0 && bare[0] == '+' {
        if is_number(bare.drop_first()) {
            Some(folded(degrees_in(bare.drop_first())))
        } else {
            None
        }
    } else if is_number(bare) {
        Some(folded(degrees_in(bare)))
    } else {
        None
    }
}

/// Finds the point in a number.
fn find_point(text: &Vec<char>, start: usize, end: usize) -> (r: usize)
    requires
        start <= end <= text@.len(),
    ensures
        start <= r <= end,
        r - start == point_in(text@.subrange(start as int, end as int)),
{
    let mut at: usize = start;
    while at < end && text[at] != '.'
        invariant
            start <= at <= end <= text@.len(),
            point_in(text@.subrange(start as int, end as int)) == at - start + point_in(
                text@.subrange(at as int, end as int),
            ),
        decreases end - at,
    {
        proof {
            assert(text@.subrange(at as int, end as int).drop_first() =~= text@.subrange(
                at + 1,
                end as int,
            ));
        }
        at = at + 1;
    }
    at
}

/// What digits come to, but for whole turns; `None` where they are not digits all.
fn read_whole(text: &Vec<char>, start: usize, end: usize) -> (r: Option<u64>)
    requires
        start <= end <= text@.len(),
    ensures
        match r {
            Some(rest) => all_digits(text@.subrange(start as int, end as int)) && rest == run_value(
                text@.subrange(start as int, end as int),
            ) % 360,
            None => !all_digits(text@.subrange(start as int, end as int)),
        },
{
    let mut rest: u64 = 0;
    let mut at: usize = start;
    let ghost mut turns: int = 0;
    while at < end
        invariant
            start <= at <= end <= text@.len(),
            all_digits(text@.subrange(start as int, at as int)),
            run_value(text@.subrange(start as int, at as int)) == 360 * turns + rest,
            rest < 360,
        decreases end - at,
    {
        let letter: char = text[at];
        if !('0' <= letter && letter <= '9') {
            proof {
                assert(text@.subrange(start as int, end as int)[at - start] == text@[at as int]);
            }
            return None;
        }
        let digit: u64 = (letter as u32 - 48) as u64;
        proof {
            let upto = text@.subrange(start as int, at + 1);
            assert(upto.drop_last() =~= text@.subrange(start as int, at as int));
            assert(upto.last() == text@[at as int]);
            assert forall|i: int| 0 <= i < upto.len() implies is_digit(#[trigger] upto[i]) by {
                if i < at - start {
                    assert(upto[i] == text@.subrange(start as int, at as int)[i]);
                } else {
                    assert(is_digit(text@[at as int]));
                }
            }
            turns = 10 * turns + (rest * 10 + digit) as int / 360;
        }
        rest = (rest * 10 + digit) % 360;
        at = at + 1;
    }
    proof {
        let value = run_value(text@.subrange(start as int, end as int)) as int;
        lemma_fundamental_div_mod_converse(value, 360, turns, rest as int);
    }
    Some(rest)
}

/// The millionths that digits behind a point write; `None` where they are not digits
/// all.
fn read_fraction(text: &Vec<char>, start: usize, end: usize) -> (r: Option<u64>)
    requires
        start <= end <= text@.len(),
    ensures
        match r {
            Some(value) => all_digits(text@.subrange(start as int, end as int)) && value
                == run_value(six_digits(text@.subrange(start as int, end as int))) && value
                < 1_000_000,
            None => !all_digits(text@.subrange(start as int, end as int)),
        },
{
    if read_whole(text, start, end).is_none() {
        return None;
    }
    let ghost digits = text@.subrange(start as int, end as int);
    let ghost six = six_digits(digits);
    let mut value: u64 = 0;
    let mut limit: u64 = 1;
    let mut at: usize = 0;
    proof {
        assert(six.subrange(0, 0) =~= Seq::<char>::empty());
    }
    while at < 6
        invariant
            at <= 6,
            start <= end <= text@.len(),
            digits == text@.subrange(start as int, end as int),
            all_digits(digits),
            six == six_digits(digits),
            value == run_value(six.subrange(0, at as int)),
            value < limit,
            at == 0 ==> limit == 1,
            at == 1 ==> limit == 10,
            at == 2 ==> limit == 100,
            at == 3 ==> limit == 1_000,
            at == 4 ==> limit == 10_000,
            at == 5 ==> limit == 100_000,
            at == 6 ==> limit == 1_000_000,
        decreases 6 - at,
    {
        let digit: u64 = if at < end - start {
            proof {
                assert(is_digit(digits[at as int]));
            }
            (text[start + at] as u32 - 48) as u64
        } else {
            0
        };
        proof {
            let upto = six.subrange(0, at + 1);
            assert(upto.drop_last() =~= six.subrange(0, at as int));
            assert(upto.last() == six[at as int]);
        }
        value = value * 10 + digit;
        limit = limit * 10;
        at = at + 1;
    }
    proof {
        assert(six.subrange(0, 6) =~= six);
    }
    Some(value)
}

/// Reads a number without a sign as an angle, but for whole turns.
fn read_degrees(text: &Vec<char>, start: usize, end: usize) -> (r: Option<i64>)
    requires
        start <= end <= text@.len(),
    ensures
        ({
            let number = text@.subrange(start as int, end as int);
            match r {
                Some(angle) => is_number(number) && 0 <= angle <= turn() && degrees_in(number) == angle + (
                run_value(whole_part(number)) as int / 360) * turn(),
                None => !is_number(number),
            }
        }),
{
    let ghost number = text@.subrange(start as int, end as int);
    let point: usize = find_point(text, start, end);
    let behind: usize = if point < end { point + 1 } else { end };
    proof {
        assert(whole_part(number) =~= text@.subrange(start as int, point as int));
        assert(fraction_part(number) =~= text@.subrange(behind as int, end as int));
    }
    if point - start + (end - behind) == 0 {
        return None;
    }
    let whole: u64 = match read_whole(text, start, point) {
        Some(whole) => whole,
        None => return None,
    };
    let fraction: u64 = match read_fraction(text, behind, end) {
        Some(fraction) => fraction,
        None => return None,
    };
    proof {
        let value = run_value(whole_part(number)) as int;
        lemma_fundamental_div_mod(value, 360);
        assert(value * DEGREE == whole * DEGREE + (value / 360) * turn()) by (nonlinear_arith)
            requires
                value == 360 * (value / 360) + whole,
                turn() == 360 * DEGREE,
        ;
    }
    Some(whole as i64 * 65_536 + ((fraction * 65_536 + 500_000) / 1_000_000) as i64)
}

/// Reads an angle that a person typed; `None` for text that is no angle at all,
/// which leaves the picture where it was.
pub fn angle_typed(text: &str) -> (r: Option<i64>)
    ensures
        match r {
            Some(angle) => typed_angle(text@) == Some(angle as int) && -180 * DEGREE <= angle < 180
                * DEGREE,
            None => typed_angle(text@) is None,
        },
{
    let letters = characters(text);
    let start: usize = margin(&letters);
    let mut end: usize = tail(&letters, start, letters.len());
    let ghost word = letters@.subrange(start as int, end as int);
    if end > start && letters[end - 1] == '°' {
        proof {
            assert(word.last() == letters@[end - 1]);
            assert(word.drop_last() =~= letters@.subrange(start as int, end - 1));
        }
        end = tail(&letters, start, end - 1);
    } else {
        proof {
            assert(word.len() > 0 ==> word.last() == letters@[end - 1]);
        }
    }
    let ghost bare = letters@.subrange(start as int, end as int);
    proof {
        assert(bare == bare_number(text@));
        assert(bare.len() > 0 ==> bare[0] == letters@[start as int]);
    }
    let minus = end > start && letters[start] == '-';
    let plus = end > start && letters[start] == '+';
    let first: usize = if minus || plus { start + 1 } else { start };
    let ghost number = letters@.subrange(first as int, end as int);
    proof {
        if minus || plus {
            assert(number =~= bare.drop_first());
        }
    }
    match read_degrees(&letters, first, end) {
        Some(angle) => {
            proof {
                let turns = run_value(whole_part(number)) as int / 360;
                law_whole_turns_do_not_matter(angle as int, turns);
                law_whole_turns_do_not_matter(-angle as int, -turns);
                assert(-angle as int + (-turns) * turn() == -(angle + turns * turn())) by (nonlinear_arith);
            }
            Some(normalise(if minus { -angle } else { angle }))
        },
        None => None,
    }
}

/// Where turning from one angle to another ends, the short way round; nowhere
/// else where they are the same already. The angle turned from may have gone
/// round any number of times.
pub open spec fn nearest_turn(current: int, wanted: int) -> int {
    current + folded(wanted - folded(current))
}

/// Finds the angle to go on to.
pub fn turn_to(current: i64, wanted: i64) -> (r: Option<i64>)
    requires
        -0x4000_0000_0000_0000 <= current <= 0x4000_0000_0000_0000,
        -0x4000_0000_0000_0000 <= wanted <= 0x4000_0000_0000_0000,
    ensures
        match r {
            Some(next) => next == nearest_turn(current as int, wanted as int) && next != current,
            None => nearest_turn(current as int, wanted as int) == current,
        },
{
    let step: i64 = normalise(wanted - normalise(current));
    if step == 0 {
        None
    } else {
        Some(current + step)
    }
}

/// Which quarter turn an angle is, where it is one to within a hair. Those are
/// exact, so they are taken whenever they fit.
pub open spec fn quarter_of(angle: int) -> Option<Quarters> {
    let past = angle % turn();
    if past < HAIR {
        Some(Quarters::Zero)
    } else if 90 * DEGREE - HAIR < past < 90 * DEGREE + HAIR {
        Some(Quarters::One)
    } else if 180 * DEGREE - HAIR < past < 180 * DEGREE + HAIR {
        Some(Quarters::Two)
    } else if 270 * DEGREE - HAIR < past < 270 * DEGREE + HAIR {
        Some(Quarters::Three)
    } else {
        None
    }
}

/// Finds the quarter turn that an angle is.
pub fn quarter(angle: i64) -> (r: Option<Quarters>)
    ensures
        r == quarter_of(angle as int),
{
    let past: i128 = past_whole_turns(angle as i128);
    let hair: i128 = 656;
    let right: i128 = 90 * 65_536;
    if past < hair {
        Some(Quarters::Zero)
    } else if right - hair < past && past < right + hair {
        Some(Quarters::One)
    } else if 2 * right - hair < past && past < 2 * right + hair {
        Some(Quarters::Two)
    } else if 3 * right - hair < past && past < 3 * right + hair {
        Some(Quarters::Three)
    } else {
        None
    }
}

/// Folding an angle keeps its direction, and whole turns on top change nothing.
pub proof fn law_whole_turns_do_not_matter(angle: int, turns: int)
    ensures
        folded(angle + turns * turn()) == folded(angle),
        folded(angle) % turn() == angle % turn(),
        folded(folded(angle)) == folded(angle),
        -turn() / 2 <= folded(angle) < turn() / 2,
{
    let half = turn() / 2;
    lemma_mod_bound(angle + half, turn());
    assert(angle + turns * turn() + half == turn() * turns + (angle + half)) by (nonlinear_arith);
    lemma_mod_multiples_vanish(turns, angle + half, turn());
    lemma_fundamental_div_mod(angle + half, turn());
    let gone = (angle + half) / turn();
    assert(folded(angle) == turn() * (-gone) + angle) by (nonlinear_arith)
        requires
            folded(angle) == (angle + half) % turn() - half,
            angle + half == turn() * gone + (angle + half) % turn(),
    ;
    lemma_mod_multiples_vanish(-gone, angle, turn());
    lemma_small_mod((folded(angle) + half) as nat, turn() as nat);
}

/// Turning to an angle ends in its direction, and never goes more than half a
/// turn to get there.
pub proof fn law_turning_goes_the_short_way(current: int, wanted: int)
    ensures
        nearest_turn(current, wanted) % turn() == wanted % turn(),
        -turn() / 2 <= nearest_turn(current, wanted) - current < turn() / 2,
{
    let from = folded(current);
    let step = folded(wanted - from);
    law_whole_turns_do_not_matter(current, 0);
    law_whole_turns_do_not_matter(wanted - from, 0);
    lemma_add_mod_noop(current, step, turn());
    lemma_add_mod_noop(from, wanted - from, turn());
}

/// An angle within a hair of a quarter turn counts as that quarter turn, whichever of
/// the four it is; just short of a whole turn is no turn at all only from above.
pub proof fn law_quarters_are_told_by_a_hair(turns: int, quarters: int, off: int)
    requires
        0 <= quarters <= 3,
        -656 < off < 656,
        quarters == 0 ==> off >= 0,
    ensures
        quarter_of(turns * 23_592_960 + quarters * 5_898_240 + off) == Some(
            if quarters == 0 {
                Quarters::Zero
            } else if quarters == 1 {
                Quarters::One
            } else if quarters == 2 {
                Quarters::Two
            } else {
                Quarters::Three
            },
        ),
{
    assert(turn() == 23_592_960);
    vstd::arithmetic::div_mod::lemma_mod_multiples_vanish(
        turns,
        quarters * 5_898_240 + off,
        23_592_960,
    );
    vstd::arithmetic::mul::lemma_mul_is_commutative(turns, 23_592_960);
    assert((turns * 23_592_960 + quarters * 5_898_240 + off) == 23_592_960 * turns + (quarters
        * 5_898_240 + off));
    vstd::arithmetic::div_mod::lemma_small_mod(
        (quarters * 5_898_240 + off) as nat,
        23_592_960,
    );
}

/// What counts as a quarter turn is no further from it than a hundredth of a degree
/// and a little.
pub proof fn law_a_quarter_is_near(angle: int)
    ensures
        ({
            let past = angle % 23_592_960;
            match quarter_of(angle) {
                Some(Quarters::Zero) => past < 656,
                Some(Quarters::One) => 90 * 65_536 - 656 < past < 90 * 65_536 + 656,
                Some(Quarters::Two) => 180 * 65_536 - 656 < past < 180 * 65_536 + 656,
                Some(Quarters::Three) => 270 * 65_536 - 656 < past < 270 * 65_536 + 656,
                None => true,
            }
        }),
{
}

/// A whole number of degrees that is typed is that many degrees, with a sign or without
/// one, with the sign for degrees behind it or without it, folded into half a turn each
/// way.
pub proof fn law_a_typed_number_is_so_many_degrees(n: nat)
    ensures
        ({
            let number = decimal(n);
            let angle: int = n as int * 65_536;
            let half: int = 11_796_480;
            &&& typed_angle(number) == Some((angle + half) % (2 * half) - half)
            &&& typed_angle(number.push('°')) == Some((angle + half) % (2 * half) - half)
            &&& typed_angle(seq!['+'] + number) == Some((angle + half) % (2 * half) - half)
            &&& typed_angle(seq!['-'] + number) == Some((half - angle) % (2 * half) - half)
        }),
{
    let number = decimal(n);
    let angle: int = n as int * 65_536;
    law_a_written_number_reads_back(n);
    lemma_plain_number(number);
    assert(run_value(number) == n);
    assert(degrees_in(number) == angle);
    let m = number.len() as int;
    assert(is_digit(number[0]) && is_digit(number[m - 1]));
    // The number alone.
    lemma_bare(number);
    // With the sign for degrees behind it.
    let marked = number.push('°');
    assert(marked.last() == '°' && marked[0] == number[0]);
    assert(without_margin(marked) == marked);
    assert(without_tail(marked) == marked);
    assert(marked.drop_last() =~= number);
    assert(without_tail(number) == number);
    assert(bare_number(marked) == number);
    // With a sign in front of it.
    let plus = seq!['+'] + number;
    let minus = seq!['-'] + number;
    assert(plus.drop_first() =~= number && minus.drop_first() =~= number);
    assert(plus[0] == '+' && minus[0] == '-' && plus.last() == number[m - 1] && minus.last()
        == number[m - 1]);
    lemma_bare(plus);
    lemma_bare(minus);
}

/// A text that neither starts nor ends in white space or a sign for degrees is bare.
proof fn lemma_bare(text: Seq<char>)
    requires
        text.len() > 0,
        !is_white(text[0]),
        !is_white(text.last()),
        text.last() != '°',
    ensures
        bare_number(text) == text,
{
}

/// Digits alone have no fraction.
proof fn lemma_plain_number(number: Seq<char>)
    requires
        number.len() > 0,
        forall|i: int| 0 <= i < number.len() ==> is_digit(#[trigger] number[i]),
    ensures
        is_number(number),
        degrees_in(number) == run_value(number) * DEGREE,
{
    lemma_no_point(number);
    assert(whole_part(number) =~= number);
    assert(fraction_part(number) =~= Seq::empty());
    let zeros = six_digits(Seq::empty());
    reveal_with_fuel(run_value, 7);
    let five = zeros.drop_last();
    let four = five.drop_last();
    let three = four.drop_last();
    let two = three.drop_last();
    let one = two.drop_last();
    assert(zeros.last() == '0' && five.last() == '0' && four.last() == '0' && three.last() == '0'
        && two.last() == '0' && one.last() == '0');
    assert(one.drop_last() =~= Seq::<char>::empty());
    assert(run_value(zeros) == 0);
}

/// Digits alone have no point.
proof fn lemma_no_point(number: Seq<char>)
    requires
        forall|i: int| 0 <= i < number.len() ==> is_digit(#[trigger] number[i]),
    ensures
        point_in(number) == number.len(),
    decreases number.len(),
{
    if number.len() > 0 {
        assert(is_digit(number[0]));
        let rest = number.drop_first();
        assert forall|i: int| 0 <= i < rest.len() implies is_digit(#[trigger] rest[i]) by {
            assert(rest[i] == number[i + 1]);
        }
        lemma_no_point(rest);
    }
}

} // verus!
