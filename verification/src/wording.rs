//! Numbers written out in decimal, and the small joins that messages are made of.

use vstd::prelude::*;
use vstd::utf8::encode_utf8;

verus! {

/// The character that stands for one decimal digit.
pub open spec fn numeral(digit: nat) -> char {
    (48 + digit) as u8 as char
}

/// A number in decimal, without leading zeros.
pub open spec fn decimal(n: nat) -> Seq<char>
    decreases n,
{
    if n < 10 {
        seq![numeral(n)]
    } else {
        decimal(n / 10).push(numeral(n % 10))
    }
}

/// The one-character text of a digit.
fn digit_text(digit: u8) -> (r: &'static str)
    requires
        digit < 10,
    ensures
        r@ == seq![numeral(digit as nat)],
{
    proof {
        reveal_strlit("0");
        reveal_strlit("1");
        reveal_strlit("2");
        reveal_strlit("3");
        reveal_strlit("4");
        reveal_strlit("5");
        reveal_strlit("6");
        reveal_strlit("7");
        reveal_strlit("8");
        reveal_strlit("9");
    }
    match digit {
        0 => "0",
        1 => "1",
        2 => "2",
        3 => "3",
        4 => "4",
        5 => "5",
        6 => "6",
        7 => "7",
        8 => "8",
        _ => "9",
    }
}

/// Writes a number out in decimal.
pub fn in_decimal(n: u64) -> (r: String)
    ensures
        r@ == decimal(n as nat),
    decreases n,
{
    let digit: u8 = (n % 10) as u8;
    if n < 10 {
        digit_text(digit).to_owned()
    } else {
        let mut text = in_decimal(n / 10);
        text.append(digit_text(digit));
        text
    }
}

/// Adds a number in decimal to the end of a text.
pub fn append_decimal(text: &mut String, n: u64)
    ensures
        final(text)@ == old(text)@ + decimal(n as nat),
{
    let number = in_decimal(n);
    text.append(number.as_str());
}

/// The lower case of an ASCII capital; any other character stays as it is.
pub open spec fn lower(c: char) -> char {
    if 'A' <= c && c <= 'Z' {
        (c as u8 + 32) as u8 as char
    } else {
        c
    }
}

/// A text with its ASCII capitals in lower case.
pub open spec fn lowercase(text: Seq<char>) -> Seq<char> {
    text.map_values(|c: char| lower(c))
}

/// `str::to_ascii_lowercase` maps every character to its ASCII lower case
/// equivalent and leaves those outside `A` to `Z` alone.
pub assume_specification[ str::to_ascii_lowercase ](text: &str) -> (r: String)
    ensures
        r@ == lowercase(text@),
;

/// Whether two texts are the same, character by character.
pub fn same(a: &str, b: &str) -> (r: bool)
    ensures
        r == (a@ == b@),
{
    let first = a.to_owned();
    let second = b.to_owned();
    first == second
}

/// What a fallible call that gives bytes or a message came to.
pub open spec fn outcome(r: Result<Vec<u8>, String>) -> Result<Seq<u8>, Seq<char>> {
    match r {
        Ok(bytes) => Ok(bytes@),
        Err(message) => Err(message@),
    }
}

/// The lower case of an ASCII capital; any other byte stays as it is.
pub open spec fn lower_byte(b: u8) -> u8 {
    if 0x41 <= b && b <= 0x5A {
        (b + 0x20) as u8
    } else {
        b
    }
}

/// Bytes with their ASCII capitals in lower case.
pub open spec fn lower_bytes(bytes: Seq<u8>) -> Seq<u8> {
    bytes.map_values(|b: u8| lower_byte(b))
}

/// Puts the ASCII capitals among some bytes in lower case.
pub fn to_lower(bytes: &Vec<u8>) -> (r: Vec<u8>)
    ensures
        r@ == lower_bytes(bytes@),
{
    let mut r: Vec<u8> = Vec::new();
    let mut at: usize = 0;
    while at < bytes.len()
        invariant
            at <= bytes@.len(),
            r@ == lower_bytes(bytes@.subrange(0, at as int)),
        decreases bytes@.len() - at,
    {
        let b: u8 = bytes[at];
        r.push(if 0x41 <= b && b <= 0x5A { b + 0x20 } else { b });
        at = at + 1;
        proof {
            assert(r@ =~= lower_bytes(bytes@.subrange(0, at as int)));
        }
    }
    proof {
        assert(bytes@.subrange(0, at as int) =~= bytes@);
    }
    r
}

/// Whether bytes are the same, one by one.
pub fn same_bytes(a: &[u8], b: &[u8]) -> (r: bool)
    ensures
        r == (a@ == b@),
{
    if a.len() != b.len() {
        return false;
    }
    let mut at: usize = 0;
    while at < a.len()
        invariant
            at <= a@.len(),
            a@.len() == b@.len(),
            forall|i: int| 0 <= i < at ==> a@[i] == b@[i],
        decreases a@.len() - at,
    {
        if a[at] != b[at] {
            return false;
        }
        at = at + 1;
    }
    proof {
        assert(a@ =~= b@);
    }
    true
}

/// The texts behind a list of them.
pub open spec fn texts(list: Seq<&'static str>) -> Seq<Seq<char>> {
    list.map_values(|t: &'static str| t@)
}

/// Whether bytes are one of some texts in UTF-8.
pub open spec fn among(bytes: Seq<u8>, list: Seq<Seq<char>>) -> bool {
    exists|i: int| 0 <= i < list.len() && encode_utf8(#[trigger] list[i]) == bytes
}

/// Looks for bytes among some texts.
pub fn is_among(bytes: &[u8], list: &Vec<&'static str>) -> (r: bool)
    ensures
        r == among(bytes@, texts(list@)),
{
    let mut at: usize = 0;
    while at < list.len()
        invariant
            at <= list@.len(),
            forall|i: int| 0 <= i < at ==> encode_utf8(#[trigger] texts(list@)[i]) != bytes@,
        decreases list@.len() - at,
    {
        let entry: &'static str = list[at];
        if same_bytes(entry.as_bytes(), bytes) {
            proof {
                assert(encode_utf8(texts(list@)[at as int]) == bytes@);
            }
            return true;
        }
        at = at + 1;
    }
    false
}

/// The twenty-six capitals become the small letters thirty-two places on, and nothing
/// else changes, whether it comes as a character or as a byte.
pub proof fn law_capitals_become_small(c: char, b: u8)
    ensures
        65 <= c as u32 <= 90 ==> lower(c) as u32 == c as u32 + 32,
        (c as u32) < 65 || c as u32 > 90 ==> lower(c) == c,
        65 <= b <= 90 ==> lower_byte(b) == b + 32,
        b < 65 || b > 90 ==> lower_byte(b) == b,
        c as u32 == b as u32 && b < 128 ==> lower(c) as u32 == lower_byte(b) as u32,
{
}

/// Putting a text in lower case a second time changes nothing, and neither its length
/// nor the place of a letter changes the first time.
pub proof fn law_lower_case_stays_lower_case(text: Seq<char>, bytes: Seq<u8>)
    ensures
        lowercase(text).len() == text.len(),
        lower_bytes(bytes).len() == bytes.len(),
        lowercase(lowercase(text)) == lowercase(text),
        lower_bytes(lower_bytes(bytes)) == lower_bytes(bytes),
{
    assert(lowercase(lowercase(text)) =~= lowercase(text));
    assert(lower_bytes(lower_bytes(bytes)) =~= lower_bytes(bytes));
}

} // verus!
