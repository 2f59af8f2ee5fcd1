//! The order that a file manager shows names in: digit runs by value, letters
//! without regard to case.

use vstd::prelude::*;

use crate::wording::{decimal, lower, lowercase};

verus! {

/// What one step of a name sorts by: a character and, where it is a run of
/// digits, the run's value.
#[derive(Clone, Copy, PartialEq, Eq, Structural, Debug)]
pub struct Key {
    pub code: u32,
    pub value: u128,
}

/// How two names stand to each other.
#[derive(Clone, Copy, PartialEq, Eq, Structural, Debug)]
pub enum Rank {
    Before,
    Same,
    After,
}

/// Whether a character is a decimal digit.
pub open spec fn is_digit(c: char) -> bool {
    '0' <= c && c <= '9'
}

/// How many digits a text starts with.
pub open spec fn run_length(text: Seq<char>) -> nat
    decreases text.len(),
{
    if text.len() == 0 || !is_digit(text[0]) {
        0
    } else {
        1 + run_length(text.drop_first())
    }
}

/// The number that a run of digits writes.
pub open spec fn run_value(digits: Seq<char>) -> nat
    decreases digits.len(),
{
    if digits.len() == 0 {
        0
    } else {
        run_value(digits.drop_last()) * 10 + (digits.last() as nat - 48) as nat
    }
}

/// A pathologically long run of digits counts as the largest value there is.
pub open spec fn capped(n: nat) -> u128 {
    if n <= u128::MAX {
        n as u128
    } else {
        u128::MAX
    }
}

/// What a name sorts by.
pub open spec fn keys(text: Seq<char>) -> Seq<Key>
    decreases text.len(),
    via keys_decreases
{
    if text.len() == 0 {
        Seq::empty()
    } else if is_digit(text[0]) {
        let run = run_length(text) as int;
        seq![Key { code: 48, value: capped(run_value(text.subrange(0, run))) }] + keys(
            text.subrange(run, text.len() as int),
        )
    } else {
        seq![Key { code: lower(text[0]) as u32, value: 0 }] + keys(text.drop_first())
    }
}

#[via_fn]
proof fn keys_decreases(text: Seq<char>) {
    if text.len() > 0 && is_digit(text[0]) {
        lemma_run(text);
    }
}

/// A run of digits is all digits and is not followed by one.
pub proof fn lemma_run(text: Seq<char>)
    ensures
        run_length(text) <= text.len(),
        forall|i: int| 0 <= i < run_length(text) ==> is_digit(#[trigger] text[i]),
        run_length(text) < text.len() ==> !is_digit(text[run_length(text) as int]),
        text.len() > 0 && is_digit(text[0]) ==> run_length(text) >= 1,
    decreases text.len(),
{
    if text.len() > 0 && is_digit(text[0]) {
        let rest = text.drop_first();
        lemma_run(rest);
        assert forall|i: int| 0 <= i < run_length(text) implies is_digit(#[trigger] text[i]) by {
            if i > 0 {
                assert(text[i] == rest[i - 1]);
            }
        }
        if run_length(text) < text.len() {
            assert(text[run_length(text) as int] == rest[run_length(rest) as int]);
        }
    }
}

/// A run is as long as the digits that open the text and no longer.
proof fn lemma_run_is(text: Seq<char>, run: nat)
    requires
        run <= text.len(),
        forall|i: int| 0 <= i < run ==> is_digit(#[trigger] text[i]),
        run < text.len() ==> !is_digit(text[run as int]),
    ensures
        run_length(text) == run,
{
    lemma_run(text);
    if run_length(text) < run {
        assert(is_digit(text[run_length(text) as int]));
    }
    if run < run_length(text) {
        assert(is_digit(text[run as int]));
    }
}

/// The order of two keys: by the character, and by the value of runs.
pub open spec fn key_before(a: Key, b: Key) -> bool {
    a.code < b.code || (a.code == b.code && a.value < b.value)
}

/// Whether one row of keys comes before another, as in a dictionary.
pub open spec fn precedes(a: Seq<Key>, b: Seq<Key>) -> bool
    decreases a.len(),
{
    if b.len() == 0 {
        false
    } else if a.len() == 0 {
        true
    } else if a[0] == b[0] {
        precedes(a.drop_first(), b.drop_first())
    } else {
        key_before(a[0], b[0])
    }
}

/// How two names stand to each other.
pub open spec fn rank(a: Seq<char>, b: Seq<char>) -> Rank {
    if keys(a) == keys(b) {
        Rank::Same
    } else if precedes(keys(a), keys(b)) {
        Rank::Before
    } else {
        Rank::After
    }
}

/// The characters of a text, one by one.
pub fn characters(text: &str) -> (r: Vec<char>)
    ensures
        r@ == text@,
{
    let mut r: Vec<char> = Vec::new();
    for c in it: text.chars()
        invariant
            it.seq() == text@,
            r@ == text@.subrange(0, it.index() as int),
    {
        r.push(c);
        proof {
            assert(r@ =~= text@.subrange(0, it.index() + 1));
        }
    }
    proof {
        assert(r@ =~= text@);
    }
    r
}

/// Reads the run of digits at a place in a name: its value, and where it ends.
pub fn take_number(text: &Vec<char>, from: usize) -> (r: (u128, usize))
    requires
        from <= text@.len(),
    ensures
        r.1 == from + run_length(text@.subrange(from as int, text@.len() as int)),
        r.0 == capped(run_value(text@.subrange(from as int, r.1 as int))),
        from <= r.1 <= text@.len(),
{
    let mut value: u128 = 0;
    let mut at: usize = from;
    let ghost rest = text@.subrange(from as int, text@.len() as int);
    proof {
        assert(text@.subrange(from as int, from as int) =~= Seq::<char>::empty());
    }
    while at < text.len() && '0' <= text[at] && text[at] <= '9'
        invariant
            from <= at <= text@.len(),
            value == capped(run_value(text@.subrange(from as int, at as int))),
            forall|i: int| from <= i < at ==> is_digit(#[trigger] text@[i]),
        decreases text@.len() - at,
    {
        let digit: u128 = (text[at] as u32 - 48) as u128;
        proof {
            let longer = text@.subrange(from as int, at + 1);
            assert(longer.drop_last() =~= text@.subrange(from as int, at as int));
            assert(longer.last() == text@[at as int]);
        }
        // A pathologically long run of digits saturates rather than wrapping.
        value = if value > (u128::MAX - digit) / 10 {
            u128::MAX
        } else {
            value * 10 + digit
        };
        at = at + 1;
    }
    proof {
        lemma_run_is(rest, (at - from) as nat);
    }
    (value, at)
}

/// Works out what a name sorts by.
pub fn keys_of(name: &str) -> (r: Vec<Key>)
    ensures
        r@ == keys(name@),
{
    let text = characters(name);
    let mut r: Vec<Key> = Vec::new();
    let mut at: usize = 0;
    proof {
        assert(text@.subrange(0, text@.len() as int) =~= text@);
        assert(r@ + keys(text@) =~= keys(text@));
    }
    while at < text.len()
        invariant
            at <= text@.len(),
            text@ == name@,
            keys(name@) == r@ + keys(text@.subrange(at as int, text@.len() as int)),
        decreases text@.len() - at,
    {
        let ghost before = r@;
        let ghost rest = text@.subrange(at as int, text@.len() as int);
        let c: char = text[at];
        if '0' <= c && c <= '9' {
            let (value, end) = take_number(&text, at);
            proof {
                let run: int = run_length(rest) as int;
                lemma_run(rest);
                assert(rest.subrange(0, run) =~= text@.subrange(at as int, end as int));
                assert(rest.subrange(run, rest.len() as int) =~= text@.subrange(
                    end as int,
                    text@.len() as int,
                ));
                let key = Key { code: 48, value };
                assert(keys(rest) == seq![key] + keys(rest.subrange(run, rest.len() as int)));
            }
            r.push(Key { code: 48, value });
            at = end;
        } else {
            let small: char = if 'A' <= c && c <= 'Z' {
                (c as u8 + 32) as char
            } else {
                c
            };
            proof {
                assert(rest.drop_first() =~= text@.subrange(at + 1, text@.len() as int));
            }
            r.push(Key { code: small as u32, value: 0 });
            at = at + 1;
        }
        proof {
            assert(r@ + keys(text@.subrange(at as int, text@.len() as int)) =~= before + keys(rest));
        }
    }
    proof {
        assert(keys(text@.subrange(at as int, text@.len() as int)) =~= Seq::<Key>::empty());
        assert(r@ =~= keys(name@));
    }
    r
}

/// Compares two rows of keys, as in a dictionary.
fn compare(a: &Vec<Key>, b: &Vec<Key>) -> (r: Rank)
    ensures
        r == (if a@ == b@ {
            Rank::Same
        } else if precedes(a@, b@) {
            Rank::Before
        } else {
            Rank::After
        }),
{
    let mut at: usize = 0;
    proof {
        assert(a@.subrange(0, a@.len() as int) =~= a@);
        assert(b@.subrange(0, b@.len() as int) =~= b@);
    }
    while at < a.len() && at < b.len() && a[at] == b[at]
        invariant
            at <= a@.len(),
            at <= b@.len(),
            a@.subrange(0, at as int) == b@.subrange(0, at as int),
            precedes(a@, b@) == precedes(
                a@.subrange(at as int, a@.len() as int),
                b@.subrange(at as int, b@.len() as int),
            ),
        decreases a@.len() - at,
    {
        proof {
            let x = a@.subrange(at as int, a@.len() as int);
            let y = b@.subrange(at as int, b@.len() as int);
            assert(x.drop_first() =~= a@.subrange(at + 1, a@.len() as int));
            assert(y.drop_first() =~= b@.subrange(at + 1, b@.len() as int));
            assert(a@.subrange(0, at + 1) =~= a@.subrange(0, at as int).push(a@[at as int]));
            assert(b@.subrange(0, at + 1) =~= b@.subrange(0, at as int).push(b@[at as int]));
        }
        at = at + 1;
    }
    if at == a.len() && at == b.len() {
        proof {
            assert(a@ =~= b@);
        }
        return Rank::Same;
    }
    if at < a.len() && at < b.len() {
        proof {
            assert(a@[at as int] != b@[at as int]);
        }
        let x = a[at];
        let y = b[at];
        if x.code < y.code || (x.code == y.code && x.value < y.value) {
            Rank::Before
        } else {
            Rank::After
        }
    } else if at < b.len() {
        Rank::Before
    } else {
        Rank::After
    }
}

/// How two names stand to each other: digit runs by value, so that IMG_2 comes
/// before IMG_10, and letters without regard to case.
pub fn rank_names(a: &str, b: &str) -> (r: Rank)
    ensures
        r == rank(a@, b@),
{
    compare(&keys_of(a), &keys_of(b))
}

/// Nothing comes before itself.
pub proof fn law_nothing_precedes_itself(a: Seq<Key>)
    ensures
        !precedes(a, a),
    decreases a.len(),
{
    if a.len() > 0 {
        law_nothing_precedes_itself(a.drop_first());
    }
}

/// What comes before something comes before all that follows it.
pub proof fn law_order_carries_over(a: Seq<Key>, b: Seq<Key>, c: Seq<Key>)
    requires
        precedes(a, b),
        precedes(b, c),
    ensures
        precedes(a, c),
    decreases a.len(),
{
    if a.len() > 0 && a[0] == b[0] && b[0] == c[0] {
        law_order_carries_over(a.drop_first(), b.drop_first(), c.drop_first());
    }
}

/// Of two rows of keys that differ, one comes before the other, and not both ways.
pub proof fn law_one_comes_first(a: Seq<Key>, b: Seq<Key>)
    ensures
        a == b || precedes(a, b) || precedes(b, a),
        !(precedes(a, b) && precedes(b, a)),
    decreases a.len(),
{
    if a.len() > 0 && b.len() > 0 && a[0] == b[0] {
        law_one_comes_first(a.drop_first(), b.drop_first());
        if a.drop_first() == b.drop_first() {
            assert(a =~= seq![a[0]] + a.drop_first());
            assert(b =~= seq![b[0]] + b.drop_first());
        }
    } else if a.len() == 0 && b.len() == 0 {
        assert(a =~= b);
    }
}

/// Comparing the other way round gives the opposite answer.
pub proof fn law_swapping_names_swaps_the_answer(a: Seq<char>, b: Seq<char>)
    ensures
        rank(a, b) is Same <==> rank(b, a) is Same,
        rank(a, b) is Before <==> rank(b, a) is After,
        rank(a, a) is Same,
{
    law_one_comes_first(keys(a), keys(b));
}

/// Names sort the same whatever the case of their letters.
pub proof fn law_case_does_not_matter(text: Seq<char>)
    ensures
        keys(lowercase(text)) == keys(text),
    decreases text.len(),
{
    let small = lowercase(text);
    if text.len() > 0 {
        if is_digit(text[0]) {
            let run: int = run_length(text) as int;
            lemma_run(text);
            assert forall|i: int| 0 <= i < run implies is_digit(#[trigger] small[i]) by {
                assert(is_digit(text[i]));
            }
            lemma_run_is(small, run as nat);
            assert(small.subrange(0, run) =~= text.subrange(0, run)) by {
                assert forall|i: int| 0 <= i < run implies small[i] == text[i] by {
                    assert(is_digit(text[i]));
                }
            }
            assert(small.subrange(run, small.len() as int) =~= lowercase(
                text.subrange(run, text.len() as int),
            ));
            law_case_does_not_matter(text.subrange(run, text.len() as int));
        } else {
            assert(small[0] == lower(text[0]));
            assert(lower(lower(text[0])) == lower(text[0]));
            assert(!is_digit(lower(text[0])));
            assert(small.drop_first() =~= lowercase(text.drop_first()));
            law_case_does_not_matter(text.drop_first());
        }
    } else {
        assert(small =~= text);
    }
}

/// A name splits into what its parts sort by wherever no run of digits is cut.
proof fn lemma_keys_of_parts(a: Seq<char>, b: Seq<char>)
    requires
        a.len() > 0 && b.len() > 0 ==> !(is_digit(a.last()) && is_digit(b[0])),
    ensures
        keys(a + b) == keys(a) + keys(b),
    decreases a.len(),
{
    let all = a + b;
    if a.len() == 0 {
        assert(all =~= b);
        assert(keys(a) + keys(b) =~= keys(b));
    } else if b.len() == 0 {
        assert(all =~= a);
        assert(keys(a) + keys(b) =~= keys(a));
    } else if is_digit(a[0]) {
        let run: int = run_length(a) as int;
        lemma_run(a);
        assert forall|i: int| 0 <= i < run implies is_digit(#[trigger] all[i]) by {
            assert(is_digit(a[i]));
        }
        if run == a.len() {
            assert(is_digit(a[run - 1]));
            assert(all[run] == b[0]);
        } else {
            assert(all[run] == a[run]);
        }
        lemma_run_is(all, run as nat);
        let rest = a.subrange(run, a.len() as int);
        assert(all.subrange(0, run) =~= a.subrange(0, run));
        assert(all.subrange(run, all.len() as int) =~= rest + b);
        if rest.len() > 0 {
            assert(rest.last() == a.last());
        }
        lemma_keys_of_parts(rest, b);
        assert(keys(a + b) =~= keys(a) + keys(b));
    } else {
        let rest = a.drop_first();
        assert(all.drop_first() =~= rest + b);
        if rest.len() > 0 {
            assert(rest.last() == a.last());
        }
        lemma_keys_of_parts(rest, b);
        assert(keys(a + b) =~= keys(a) + keys(b));
    }
}

/// Of two names that are the same up to a number, the one with the smaller
/// number comes first, whatever follows and however the numbers are written.
pub proof fn law_numbers_sort_by_value(
    start: Seq<char>,
    small: Seq<char>,
    large: Seq<char>,
    after_small: Seq<char>,
    after_large: Seq<char>,
)
    requires
        start.len() > 0 ==> !is_digit(start.last()),
        small.len() > 0 && large.len() > 0,
        forall|i: int| 0 <= i < small.len() ==> is_digit(#[trigger] small[i]),
        forall|i: int| 0 <= i < large.len() ==> is_digit(#[trigger] large[i]),
        after_small.len() > 0 ==> !is_digit(after_small[0]),
        after_large.len() > 0 ==> !is_digit(after_large[0]),
        run_value(small) < run_value(large),
        run_value(small) < u128::MAX,
    ensures
        rank(start + small + after_small, start + large + after_large) is Before,
{
    lemma_number_then(small, after_small);
    lemma_number_then(large, after_large);
    let a = small + after_small;
    let b = large + after_large;
    assert(a[0] == small[0] && b[0] == large[0]);
    lemma_keys_of_parts(start, a);
    lemma_keys_of_parts(start, b);
    assert(start + small + after_small =~= start + a);
    assert(start + large + after_large =~= start + b);
    lemma_same_start(keys(start), keys(a), keys(b));
    law_nothing_precedes_itself(keys(start + a));
}

proof fn lemma_number_then(digits: Seq<char>, rest: Seq<char>)
    requires
        digits.len() > 0,
        forall|i: int| 0 <= i < digits.len() ==> is_digit(#[trigger] digits[i]),
        rest.len() > 0 ==> !is_digit(rest[0]),
    ensures
        keys(digits + rest).len() > 0,
        keys(digits + rest)[0] == (Key { code: 48, value: capped(run_value(digits)) }),
{
    let all = digits + rest;
    assert forall|i: int| 0 <= i < digits.len() implies is_digit(#[trigger] all[i]) by {
        assert(is_digit(digits[i]));
    }
    lemma_run_is(all, digits.len());
    assert(all.subrange(0, digits.len() as int) =~= digits);
    assert(is_digit(digits[0]));
}

proof fn lemma_same_start(start: Seq<Key>, a: Seq<Key>, b: Seq<Key>)
    ensures
        precedes(start + a, start + b) == precedes(a, b),
    decreases start.len(),
{
    if start.len() == 0 {
        assert(start + a =~= a);
        assert(start + b =~= b);
    } else {
        assert((start + a).drop_first() =~= start.drop_first() + a);
        assert((start + b).drop_first() =~= start.drop_first() + b);
        lemma_same_start(start.drop_first(), a, b);
    }
}

/// Whether place `i` comes before place `j` in a stable order: by its keys, and
/// by where it stood among equals.
pub open spec fn earlier(names: Seq<Seq<Key>>, i: int, j: int) -> bool {
    precedes(names[i], names[j]) || (names[i] == names[j] && i < j)
}

/// Whether `places` lists every place of `names` once, in stable order.
pub open spec fn in_order(places: Seq<usize>, names: Seq<Seq<Key>>) -> bool {
    &&& places.len() == names.len()
    &&& forall|i: int| 0 <= i < places.len() ==> 0 <= #[trigger] places[i] < names.len()
    &&& forall|i: int, j: int|
        0 <= i < j < places.len() ==> #[trigger] earlier(names, places[i] as int, places[j] as int)
}

/// The rows of keys behind a list of them.
pub open spec fn rows(names: Seq<Vec<Key>>) -> Seq<Seq<Key>> {
    names.map_values(|v: Vec<Key>| v@)
}

proof fn lemma_earlier_carries_over(names: Seq<Seq<Key>>, i: int, j: int, k: int)
    requires
        earlier(names, i, j),
        earlier(names, j, k),
    ensures
        earlier(names, i, k),
{
    if precedes(names[i], names[j]) && precedes(names[j], names[k]) {
        law_order_carries_over(names[i], names[j], names[k]);
    }
}

/// An order lists no place twice, and so lists each of them.
pub proof fn law_an_order_lists_each_place_once(places: Seq<usize>, names: Seq<Seq<Key>>)
    requires
        in_order(places, names),
        names.len() <= usize::MAX,
    ensures
        places.no_duplicates(),
        forall|p: usize| p < names.len() ==> places.contains(p),
{
    assert forall|i: int, j: int| 0 <= i < places.len() && 0 <= j < places.len() && i != j implies
        places[i] != places[j] by {
        if i < j {
            assert(earlier(names, places[i] as int, places[j] as int));
        } else {
            assert(earlier(names, places[j] as int, places[i] as int));
        }
        law_nothing_precedes_itself(names[places[i] as int]);
    }
    let all = Set::new(|p: usize| p < names.len());
    let listed = places.to_set();
    places.unique_seq_to_set();
    lemma_places_below(names.len());
    assert(listed.subset_of(all)) by {
        assert forall|p: usize| listed.contains(p) implies all.contains(p) by {
            let i = choose|i: int| 0 <= i < places.len() && places[i] == p;
            assert(places[i] < names.len());
        }
    }
    vstd::set_lib::lemma_subset_equality(listed, all);
    assert forall|p: usize| p < names.len() implies places.contains(p) by {
        assert(all.contains(p));
        assert(listed.contains(p));
    }
}

/// There are `n` places below `n`.
proof fn lemma_places_below(n: nat)
    requires
        n <= usize::MAX,
    ensures
        Set::new(|p: usize| p < n).finite(),
        Set::new(|p: usize| p < n).len() == n,
    decreases n,
{
    let all = Set::new(|p: usize| p < n);
    if n == 0 {
        assert(all =~= Set::empty());
    } else {
        let fewer = Set::new(|p: usize| p < n - 1);
        lemma_places_below((n - 1) as nat);
        assert(all =~= fewer.insert((n - 1) as usize));
    }
}

/// Puts names in order, equals staying as they stood.
pub fn arrange(names: &Vec<Vec<Key>>) -> (r: Vec<usize>)
    ensures
        in_order(r@, rows(names@)),
{
    let ghost all = rows(names@);
    let mut order: Vec<usize> = Vec::new();
    let mut next: usize = 0;
    while next < names.len()
        invariant
            next <= names@.len(),
            all == rows(names@),
            order@.len() == next,
            forall|i: int| 0 <= i < order@.len() ==> 0 <= #[trigger] order@[i] < next,
            forall|i: int, j: int|
                0 <= i < j < order@.len() ==> #[trigger] earlier(
                    all,
                    order@[i] as int,
                    order@[j] as int,
                ),
        decreases names@.len() - next,
    {
        let mut low: usize = 0;
        let mut high: usize = order.len();
        while low < high
            invariant
                low <= high <= order@.len(),
                next < names@.len(),
                all == rows(names@),
                forall|i: int| 0 <= i < order@.len() ==> 0 <= #[trigger] order@[i] < next,
                forall|i: int, j: int|
                    0 <= i < j < order@.len() ==> #[trigger] earlier(
                        all,
                        order@[i] as int,
                        order@[j] as int,
                    ),
                forall|i: int|
                    0 <= i < low ==> earlier(all, #[trigger] order@[i] as int, next as int),
                forall|i: int|
                    high <= i < order@.len() ==> earlier(all, next as int, #[trigger] order@[i] as int),
            decreases high - low,
        {
            let middle: usize = low + (high - low) / 2;
            let place: usize = order[middle];
            match compare(&names[next], &names[place]) {
                Rank::Before => {
                    proof {
                        assert(earlier(all, next as int, place as int));
                        assert forall|i: int| middle <= i < order@.len() implies earlier(
                            all,
                            next as int,
                            #[trigger] order@[i] as int,
                        ) by {
                            if middle < i {
                                assert(earlier(all, order@[middle as int] as int, order@[i] as int));
                                lemma_earlier_carries_over(
                                    all,
                                    next as int,
                                    place as int,
                                    order@[i] as int,
                                );
                            }
                        }
                    }
                    high = middle;
                },
                _ => {
                    proof {
                        law_one_comes_first(all[next as int], all[place as int]);
                        assert(earlier(all, place as int, next as int));
                        assert forall|i: int| 0 <= i < middle + 1 implies earlier(
                            all,
                            #[trigger] order@[i] as int,
                            next as int,
                        ) by {
                            if i < middle {
                                assert(earlier(all, order@[i] as int, order@[middle as int] as int));
                                lemma_earlier_carries_over(
                                    all,
                                    order@[i] as int,
                                    place as int,
                                    next as int,
                                );
                            }
                        }
                    }
                    low = middle + 1;
                },
            }
        }
        let ghost before = order@;
        order.insert(low, next);
        proof {
            assert(order@ == before.insert(low as int, next));
            assert forall|i: int, j: int| 0 <= i < j < order@.len() implies #[trigger] earlier(
                all,
                order@[i] as int,
                order@[j] as int,
            ) by {
                if i < low {
                    assert(order@[i] == before[i]);
                }
                if j > low {
                    assert(order@[j] == before[j - 1]);
                } else if j < low {
                    assert(order@[j] == before[j]);
                }
                if i > low {
                    assert(order@[i] == before[i - 1]);
                }
            }
        }
        next = next + 1;
    }
    order
}

/// A number that was written out reads back as it was, in digits alone, and starts with
/// a zero only where it is zero.
pub proof fn law_a_written_number_reads_back(n: nat)
    ensures
        run_value(decimal(n)) == n,
        decimal(n).len() > 0,
        forall|i: int| 0 <= i < decimal(n).len() ==> is_digit(#[trigger] decimal(n)[i]),
        decimal(n)[0] == '0' <==> n == 0,
    decreases n,
{
    if n >= 10 {
        law_a_written_number_reads_back(n / 10);
        let more = decimal(n / 10);
        let text = decimal(n);
        assert(text.drop_last() =~= more);
        assert(text.last() as nat == 48 + n % 10);
        assert forall|i: int| 0 <= i < text.len() implies is_digit(#[trigger] text[i]) by {
            if i < more.len() {
                assert(text[i] == more[i]);
            }
        }
        assert(text[0] == more[0]);
    } else {
        let text = decimal(n);
        assert(text.drop_last() =~= Seq::empty());
        assert(text.last() as nat == 48 + n);
        assert(run_value(Seq::<char>::empty()) == 0);
    }
}

/// Where two names first differ, the characters there decide by their place in the
/// alphabet, capitals counting as small letters, and digits standing where digits do
/// against anything that is none.
pub proof fn law_the_first_difference_decides(
    start: Seq<char>,
    a: char,
    b: char,
    after_a: Seq<char>,
    after_b: Seq<char>,
)
    requires
        start.len() > 0 ==> !is_digit(start.last()),
        !(is_digit(a) && is_digit(b)),
        (lower(a) as u32) < lower(b) as u32,
    ensures
        rank(start + seq![a] + after_a, start + seq![b] + after_b) is Before,
{
    let (x, y) = (seq![a] + after_a, seq![b] + after_b);
    assert(start + seq![a] + after_a =~= start + x);
    assert(start + seq![b] + after_b =~= start + y);
    lemma_keys_of_parts(start, x);
    lemma_keys_of_parts(start, y);
    lemma_run(x);
    lemma_run(y);
    assert(x[0] == a && y[0] == b);
    let (k, l) = (keys(x)[0], keys(y)[0]);
    assert(keys(x).len() > 0 && k.code == (if is_digit(a) {
        48
    } else {
        lower(a) as u32
    }));
    assert(keys(y).len() > 0 && l.code == (if is_digit(b) {
        48
    } else {
        lower(b) as u32
    }));
    assert(k.code < l.code);
    lemma_same_start(keys(start), keys(x), keys(y));
    law_nothing_precedes_itself(keys(start + x));
}

/// A name comes before every longer one that it begins.
pub proof fn law_the_shorter_name_comes_first(start: Seq<char>, more: Seq<char>)
    requires
        more.len() > 0,
        start.len() > 0 ==> !(is_digit(start.last()) && is_digit(more[0])),
    ensures
        rank(start, start + more) is Before,
{
    lemma_keys_of_parts(start, more);
    lemma_run(more);
    assert(keys(more).len() > 0);
    assert(keys(start) + Seq::<Key>::empty() =~= keys(start));
    lemma_same_start(keys(start), Seq::empty(), keys(more));
    law_nothing_precedes_itself(keys(start));
}

} // verus!
