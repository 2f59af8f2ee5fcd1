//! Hitting a file size.
//!
//! Two levers do it. JPEG has a quality dial, so a search over quality finds
//! the best-looking file that fits; when even the lowest quality is too big,
//! the picture is scaled down and the search runs again. Formats without a
//! dial have only the second lever.
//!
//! The other direction is real too: upload forms that demand a minimum size.
//! Raising quality is not enough on its own, so the file is padded with a
//! metadata block the format already has a place for: a JPEG comment, a PNG
//! text chunk. The picture is untouched and the file stays valid.

use vstd::prelude::*;

use vstd::arithmetic::div_mod::{lemma_div_denominator, lemma_fundamental_div_mod};
use vstd::arithmetic::power2::{lemma_pow2_pos, pow2};

use crate::double::{
    below, clamped, full, half_even, lemma_half_even_is_near, less, nearest, nearest_double, nearest_to_whole,
    nearest_whole, product, root, root_of, scale_side, scaled_side, times, whole, Double,
};
use crate::export::{big_endian, encode, encoded, end_chunk, is_jpeg, Target};
use crate::picture::{may_scale_to, resample, roomy, Picture};
use crate::wording::{append_decimal, decimal, in_decimal, outcome, same};

verus! {

pub const KB: u64 = 1024;

pub const MB: u64 = 1024 * KB;

/// Quality is not worth searching below this: the picture is ruined well
/// before it, and shrinking the image looks better than the mush.
pub const MIN_QUALITY: u8 = 15;

pub const MAX_QUALITY: u8 = 100;

/// Each round shrinks the picture and searches quality again.
pub const SHRINK_ROUNDS: usize = 5;

/// No file needs more filler than this, and an amount past it is a sign the
/// shortfall was worked out wrongly rather than a request to honour.
pub const MOST_PADDING: u64 = 512 * MB;

/// Never shrink below this on the longest edge: a target small enough to need
/// it is better refused than met with a thumbnail.
pub const MIN_EDGE: u32 = 32;

/// The most that one JPEG comment holds.
pub const MOST_COMMENT: u64 = 65_533;

/// A size in words: whole kilobytes, or megabytes to one decimal, the even one
/// where two are as near.
pub open spec fn described(bytes: nat) -> Seq<char> {
    if bytes >= MB {
        let tenths = half_even(whole(bytes) * 10, MB as nat);
        decimal(tenths / 10) + "."@ + decimal(tenths % 10) + " MB"@
    } else if bytes >= KB {
        decimal(half_even(bytes, KB as nat)) + " KB"@
    } else {
        decimal(bytes) + " bytes"@
    }
}

/// Human sizes, for saying what happened.
pub fn describe(bytes: u64) -> (r: String)
    ensures
        r@ == described(bytes as nat),
{
    if bytes >= MB {
        let tenths: u64 = nearest_whole(nearest_to_whole(bytes) * 10, MB as u128) as u64;
        let mut text = in_decimal(tenths / 10);
        text.append(".");
        append_decimal(&mut text, tenths % 10);
        text.append(" MB");
        text
    } else if bytes >= KB {
        let mut text = in_decimal(nearest_whole(bytes as u128, KB as u128) as u64);
        text.append(" KB");
        text
    } else {
        let mut text = in_decimal(bytes);
        text.append(" bytes");
        text
    }
}

/// One bit of a checksum worked through: the polynomial of PNG, reflected.
pub open spec fn crc_bit(crc: u32) -> u32 {
    if crc & 1 != 0 {
        (crc >> 1) ^ 0xEDB8_8320
    } else {
        crc >> 1
    }
}

/// Several bits worked through.
pub open spec fn crc_bits(crc: u32, bits: nat) -> u32
    decreases bits,
{
    if bits == 0 {
        crc
    } else {
        crc_bit(crc_bits(crc, (bits - 1) as nat))
    }
}

/// The checksum's register after some data.
pub open spec fn crc_register(data: Seq<u8>) -> u32
    decreases data.len(),
{
    if data.len() == 0 {
        0xFFFF_FFFF
    } else {
        crc_bits(crc_register(data.drop_last()) ^ (data.last() as u32), 8)
    }
}

/// The checksum that PNG puts behind every chunk: CRC-32.
pub fn crc32(data: &[u8]) -> (r: u32)
    ensures
        r == !crc_register(data@),
{
    let mut crc: u32 = 0xFFFF_FFFF;
    let mut at: usize = 0;
    while at < data.len()
        invariant
            at <= data@.len(),
            crc == crc_register(data@.subrange(0, at as int)),
        decreases data@.len() - at,
    {
        proof {
            let upto = data@.subrange(0, at + 1);
            assert(upto.drop_last() =~= data@.subrange(0, at as int));
            assert(upto.last() == data@[at as int]);
        }
        let ghost before = crc;
        crc = crc ^ (data[at] as u32);
        let ghost start = crc;
        let mut bits: u8 = 0;
        while bits < 8
            invariant
                bits <= 8,
                crc == crc_bits(start, bits as nat),
            decreases 8 - bits,
        {
            crc = if crc & 1 != 0 {
                (crc >> 1) ^ 0xEDB8_8320
            } else {
                crc >> 1
            };
            bits = bits + 1;
        }
        at = at + 1;
    }
    proof {
        assert(data@.subrange(0, at as int) =~= data@);
    }
    !crc
}

/// A step of the checksum loses nothing: two registers that differ still do after it.
proof fn lemma_a_bit_is_reversible(a: u32, b: u32)
    requires
        crc_bit(a) == crc_bit(b),
    ensures
        a == b,
{
    assert((if a & 1 != 0 { (a >> 1) ^ 0xEDB8_8320u32 } else { a >> 1 }) == (if b & 1 != 0 {
        (b >> 1) ^ 0xEDB8_8320u32
    } else {
        b >> 1
    }) ==> a == b) by (bit_vector);
}

/// Nor do several.
proof fn lemma_bits_are_reversible(a: u32, b: u32, bits: nat)
    requires
        crc_bits(a, bits) == crc_bits(b, bits),
    ensures
        a == b,
    decreases bits,
{
    if bits > 0 {
        let less = (bits - 1) as nat;
        lemma_a_bit_is_reversible(crc_bits(a, less), crc_bits(b, less));
        lemma_bits_are_reversible(a, b, less);
    }
}

/// Bytes that differ in one place, however little, have different checksums: no
/// single bit can change unnoticed.
pub proof fn law_a_changed_byte_changes_the_checksum(a: Seq<u8>, b: Seq<u8>, place: int)
    requires
        a.len() == b.len(),
        0 <= place < a.len(),
        a[place] != b[place],
        forall|i: int| 0 <= i < a.len() && i != place ==> a[i] == b[i],
    ensures
        !crc_register(a) != !crc_register(b),
    decreases a.len(),
{
    let (x, y) = (crc_register(a.drop_last()), crc_register(b.drop_last()));
    let (p, q) = (a.last() as u32, b.last() as u32);
    if place == a.len() - 1 {
        assert(a.drop_last() =~= b.drop_last());
        assert(p != q ==> x ^ p != x ^ q) by (bit_vector);
    } else {
        law_a_changed_byte_changes_the_checksum(a.drop_last(), b.drop_last(), place);
        assert(x != y ==> x ^ p != y ^ p) by (bit_vector);
    }
    if crc_register(a) == crc_register(b) {
        lemma_bits_are_reversible(x ^ p, y ^ q, 8);
    }
    let (r, s) = (crc_register(a), crc_register(b));
    assert(r != s ==> !r != !s) by (bit_vector);
}

/// A number as four bytes, the lowest first.
pub open spec fn lowest_first(n: u32) -> Seq<u8> {
    seq![
        (n & 0xFF) as u8,
        ((n >> 8) & 0xFF) as u8,
        ((n >> 16) & 0xFF) as u8,
        ((n >> 24) & 0xFF) as u8,
    ]
}

/// What the first byte of a register's own checksum makes of it.
proof fn lemma_first_byte(crc: u32)
    ensures
        crc_bits(crc ^ ((!crc) & 0xFF), 8) == (crc >> 8) ^ 0x2D02_EF8Du32,
{
    let a = crc ^ ((!crc) & 0xFF);
    reveal_with_fuel(crc_bits, 9);
    let b = crc_bit(a);
    let c = crc_bit(b);
    let d = crc_bit(c);
    let e = crc_bit(d);
    let f = crc_bit(e);
    let g = crc_bit(f);
    let h = crc_bit(g);
    let i = crc_bit(h);
    assert(i == (crc >> 8) ^ 0x2D02_EF8Du32) by (bit_vector)
        requires
            a == crc ^ ((!crc) & 0xFF),
            b == (if a & 1 != 0 { (a >> 1) ^ 0xEDB8_8320u32 } else { a >> 1 }),
            c == (if b & 1 != 0 { (b >> 1) ^ 0xEDB8_8320u32 } else { b >> 1 }),
            d == (if c & 1 != 0 { (c >> 1) ^ 0xEDB8_8320u32 } else { c >> 1 }),
            e == (if d & 1 != 0 { (d >> 1) ^ 0xEDB8_8320u32 } else { d >> 1 }),
            f == (if e & 1 != 0 { (e >> 1) ^ 0xEDB8_8320u32 } else { e >> 1 }),
            g == (if f & 1 != 0 { (f >> 1) ^ 0xEDB8_8320u32 } else { f >> 1 }),
            h == (if g & 1 != 0 { (g >> 1) ^ 0xEDB8_8320u32 } else { g >> 1 }),
            i == (if h & 1 != 0 { (h >> 1) ^ 0xEDB8_8320u32 } else { h >> 1 }),
    ;
}

/// What the second byte of a register's own checksum makes of it.
proof fn lemma_second_byte(crc: u32)
    ensures
        crc_bits(((crc >> 8) ^ 0x2D02_EF8Du32) ^ (((!crc) >> 8) & 0xFF), 8) == (crc >> 16) ^ 0xBE26_12FFu32,
{
    let a = ((crc >> 8) ^ 0x2D02_EF8Du32) ^ (((!crc) >> 8) & 0xFF);
    reveal_with_fuel(crc_bits, 9);
    let b = crc_bit(a);
    let c = crc_bit(b);
    let d = crc_bit(c);
    let e = crc_bit(d);
    let f = crc_bit(e);
    let g = crc_bit(f);
    let h = crc_bit(g);
    let i = crc_bit(h);
    assert(i == (crc >> 16) ^ 0xBE26_12FFu32) by (bit_vector)
        requires
            a == ((crc >> 8) ^ 0x2D02_EF8Du32) ^ (((!crc) >> 8) & 0xFF),
            b == (if a & 1 != 0 { (a >> 1) ^ 0xEDB8_8320u32 } else { a >> 1 }),
            c == (if b & 1 != 0 { (b >> 1) ^ 0xEDB8_8320u32 } else { b >> 1 }),
            d == (if c & 1 != 0 { (c >> 1) ^ 0xEDB8_8320u32 } else { c >> 1 }),
            e == (if d & 1 != 0 { (d >> 1) ^ 0xEDB8_8320u32 } else { d >> 1 }),
            f == (if e & 1 != 0 { (e >> 1) ^ 0xEDB8_8320u32 } else { e >> 1 }),
            g == (if f & 1 != 0 { (f >> 1) ^ 0xEDB8_8320u32 } else { f >> 1 }),
            h == (if g & 1 != 0 { (g >> 1) ^ 0xEDB8_8320u32 } else { g >> 1 }),
            i == (if h & 1 != 0 { (h >> 1) ^ 0xEDB8_8320u32 } else { h >> 1 }),
    ;
}

/// What the third byte of a register's own checksum makes of it.
proof fn lemma_third_byte(crc: u32)
    ensures
        crc_bits(((crc >> 16) ^ 0xBE26_12FFu32) ^ (((!crc) >> 16) & 0xFF), 8) == (crc >> 24) ^ 0x00BE_2612u32,
{
    let a = ((crc >> 16) ^ 0xBE26_12FFu32) ^ (((!crc) >> 16) & 0xFF);
    reveal_with_fuel(crc_bits, 9);
    let b = crc_bit(a);
    let c = crc_bit(b);
    let d = crc_bit(c);
    let e = crc_bit(d);
    let f = crc_bit(e);
    let g = crc_bit(f);
    let h = crc_bit(g);
    let i = crc_bit(h);
    assert(i == (crc >> 24) ^ 0x00BE_2612u32) by (bit_vector)
        requires
            a == ((crc >> 16) ^ 0xBE26_12FFu32) ^ (((!crc) >> 16) & 0xFF),
            b == (if a & 1 != 0 { (a >> 1) ^ 0xEDB8_8320u32 } else { a >> 1 }),
            c == (if b & 1 != 0 { (b >> 1) ^ 0xEDB8_8320u32 } else { b >> 1 }),
            d == (if c & 1 != 0 { (c >> 1) ^ 0xEDB8_8320u32 } else { c >> 1 }),
            e == (if d & 1 != 0 { (d >> 1) ^ 0xEDB8_8320u32 } else { d >> 1 }),
            f == (if e & 1 != 0 { (e >> 1) ^ 0xEDB8_8320u32 } else { e >> 1 }),
            g == (if f & 1 != 0 { (f >> 1) ^ 0xEDB8_8320u32 } else { f >> 1 }),
            h == (if g & 1 != 0 { (g >> 1) ^ 0xEDB8_8320u32 } else { g >> 1 }),
            i == (if h & 1 != 0 { (h >> 1) ^ 0xEDB8_8320u32 } else { h >> 1 }),
    ;
}

/// What the fourth byte of a register's own checksum makes of it.
proof fn lemma_fourth_byte(crc: u32)
    ensures
        crc_bits(((crc >> 24) ^ 0x00BE_2612u32) ^ (((!crc) >> 24) & 0xFF), 8) == 0xDEBB_20E3u32,
{
    let a = ((crc >> 24) ^ 0x00BE_2612u32) ^ (((!crc) >> 24) & 0xFF);
    reveal_with_fuel(crc_bits, 9);
    let b = crc_bit(a);
    let c = crc_bit(b);
    let d = crc_bit(c);
    let e = crc_bit(d);
    let f = crc_bit(e);
    let g = crc_bit(f);
    let h = crc_bit(g);
    let i = crc_bit(h);
    assert(i == 0xDEBB_20E3u32) by (bit_vector)
        requires
            a == ((crc >> 24) ^ 0x00BE_2612u32) ^ (((!crc) >> 24) & 0xFF),
            b == (if a & 1 != 0 { (a >> 1) ^ 0xEDB8_8320u32 } else { a >> 1 }),
            c == (if b & 1 != 0 { (b >> 1) ^ 0xEDB8_8320u32 } else { b >> 1 }),
            d == (if c & 1 != 0 { (c >> 1) ^ 0xEDB8_8320u32 } else { c >> 1 }),
            e == (if d & 1 != 0 { (d >> 1) ^ 0xEDB8_8320u32 } else { d >> 1 }),
            f == (if e & 1 != 0 { (e >> 1) ^ 0xEDB8_8320u32 } else { e >> 1 }),
            g == (if f & 1 != 0 { (f >> 1) ^ 0xEDB8_8320u32 } else { f >> 1 }),
            h == (if g & 1 != 0 { (g >> 1) ^ 0xEDB8_8320u32 } else { g >> 1 }),
            i == (if h & 1 != 0 { (h >> 1) ^ 0xEDB8_8320u32 } else { h >> 1 }),
    ;
}

/// Data with its own checksum behind it, the lowest byte first, has a checksum that
/// is the same whatever the data.
pub proof fn law_a_checksum_behind_its_data_leaves_a_constant(data: Seq<u8>)
    ensures
        !crc_register(data + lowest_first(!crc_register(data))) == 0x2144_DF1C,
{
    let crc = crc_register(data);
    let sum = lowest_first(!crc);
    let whole = data + sum;
    let a = whole.drop_last();
    let b = a.drop_last();
    let c = b.drop_last();
    assert(c.drop_last() =~= data);
    assert(c.last() == sum[0] && b.last() == sum[1] && a.last() == sum[2] && whole.last() == sum[3]);
    let n = !crc;
    assert((n & 0xFF) < 256 && ((n >> 8) & 0xFF) < 256 && ((n >> 16) & 0xFF) < 256 && ((n >> 24)
        & 0xFF) < 256) by (bit_vector);
    lemma_first_byte(crc);
    lemma_second_byte(crc);
    lemma_third_byte(crc);
    lemma_fourth_byte(crc);
    assert(sum[0] as u32 == n & 0xFF && sum[1] as u32 == (n >> 8) & 0xFF);
    assert(sum[2] as u32 == (n >> 16) & 0xFF && sum[3] as u32 == (n >> 24) & 0xFF);
    assert(crc_register(c) == crc_bits(crc ^ (sum[0] as u32), 8));
    assert(crc_register(b) == crc_bits(crc_register(c) ^ (sum[1] as u32), 8));
    assert(crc_register(a) == crc_bits(crc_register(b) ^ (sum[2] as u32), 8));
    assert(crc_register(whole) == crc_bits(crc_register(a) ^ (sum[3] as u32), 8));
    assert(!0xDEBB_20E3u32 == 0x2144_DF1Cu32) by (bit_vector);
}

/// So many spaces.
pub open spec fn spaces(count: nat) -> Seq<u8> {
    Seq::new(count, |i: int| 0x20u8)
}

/// A number in four bytes, the most significant first.
pub open spec fn four_bytes(n: nat) -> Seq<u8> {
    seq![
        ((n / 0x100_0000) % 256) as u8,
        ((n / 0x1_0000) % 256) as u8,
        ((n / 0x100) % 256) as u8,
        (n % 256) as u8,
    ]
}

/// Adds spaces to the end of some bytes.
fn push_spaces(out: &mut Vec<u8>, count: u64)
    ensures
        final(out)@ == old(out)@ + spaces(count as nat),
{
    let ghost before = out@;
    let mut done: u64 = 0;
    while done < count
        invariant
            done <= count,
            out@ == before + spaces(done as nat),
        decreases count - done,
    {
        out.push(0x20);
        done = done + 1;
        proof {
            assert(out@ =~= before + spaces(done as nat));
        }
    }
    proof {
        assert(out@ =~= before + spaces(count as nat));
    }
}

/// Adds a number in four bytes to the end of some bytes.
fn push_four_bytes(out: &mut Vec<u8>, n: u32)
    ensures
        final(out)@ == old(out)@ + four_bytes(n as nat),
{
    let ghost before = out@;
    out.push(((n / 0x100_0000) % 256) as u8);
    out.push(((n / 0x1_0000) % 256) as u8);
    out.push(((n / 0x100) % 256) as u8);
    out.push((n % 256) as u8);
    proof {
        assert(out@ =~= before + four_bytes(n as nat));
    }
}

/// Adds part of some bytes to the end of others.
fn push_part(out: &mut Vec<u8>, bytes: &Vec<u8>, from: usize, to: usize)
    requires
        from <= to <= bytes@.len(),
    ensures
        final(out)@ == old(out)@ + bytes@.subrange(from as int, to as int),
{
    let ghost before = out@;
    let mut at: usize = from;
    while at < to
        invariant
            from <= at <= to <= bytes@.len(),
            out@ == before + bytes@.subrange(from as int, at as int),
        decreases to - at,
    {
        out.push(bytes[at]);
        at = at + 1;
        proof {
            assert(out@ =~= before + bytes@.subrange(from as int, at as int));
        }
    }
    proof {
        assert(out@ =~= before + bytes@.subrange(from as int, to as int));
    }
}

/// JPEG comments that take up `wanted` bytes, or up to four bytes fewer where
/// what is left cannot hold one.
pub open spec fn comments(wanted: nat) -> Seq<u8>
    decreases wanted,
{
    if wanted <= 4 {
        Seq::empty()
    } else {
        let payload = if wanted - 4 < MOST_COMMENT { (wanted - 4) as nat } else { MOST_COMMENT as nat };
        comment(payload) + comments((wanted - 4 - payload) as nat)
    }
}

/// One JPEG comment: the marker, a length that counts its own two bytes, and
/// so many spaces.
pub open spec fn comment(payload: nat) -> Seq<u8> {
    seq![0xFFu8, 0xFE, ((payload + 2) / 256) as u8, ((payload + 2) % 256) as u8] + spaces(payload)
}

/// Whether a file starts with the start-of-image marker of JPEG.
pub open spec fn starts_jpeg(bytes: Seq<u8>) -> bool {
    bytes.len() >= 2 && bytes[0] == 0xFF && bytes[1] == 0xD8
}

/// A JPEG with comments behind its start marker; any other file as it was.
pub open spec fn padded_jpeg(bytes: Seq<u8>, wanted: nat) -> Seq<u8> {
    if starts_jpeg(bytes) {
        bytes.subrange(0, 2) + comments(wanted) + bytes.subrange(2, bytes.len() as int)
    } else {
        bytes
    }
}

/// A JPEG comment segment holds up to 65533 bytes, so long padding becomes
/// several. They go straight after the start marker, where a comment belongs.
pub fn pad_jpeg(bytes: Vec<u8>, wanted: u64) -> (r: Vec<u8>)
    ensures
        r@ == padded_jpeg(bytes@, wanted as nat),
{
    if bytes.len() < 2 || bytes[0] != 0xFF || bytes[1] != 0xD8 {
        return bytes;
    }
    let mut out: Vec<u8> = Vec::new();
    push_part(&mut out, &bytes, 0, 2);
    let ghost start = bytes@.subrange(0, 2);
    let mut left: u64 = wanted;
    proof {
        assert(out@ =~= start);
        assert(start + comments(wanted as nat) =~= out@ + comments(left as nat));
    }
    while left > 4
        invariant
            out@ + comments(left as nat) == start + comments(wanted as nat),
        decreases left,
    {
        let ghost before = out@;
        let payload: u64 = if left - 4 < MOST_COMMENT { left - 4 } else { MOST_COMMENT };
        out.push(0xFF);
        out.push(0xFE);
        out.push(((payload + 2) / 256) as u8);
        out.push(((payload + 2) % 256) as u8);
        push_spaces(&mut out, payload);
        proof {
            assert(out@ =~= before + comment(payload as nat));
            let rest = comments((left - 4 - payload) as nat);
            assert(comments(left as nat) == comment(payload as nat) + rest);
            assert(before + (comment(payload as nat) + rest) =~= out@ + rest);
        }
        left = left - 4 - payload;
    }
    proof {
        assert(comments(left as nat) =~= Seq::<u8>::empty());
        assert(out@ =~= start + comments(wanted as nat));
    }
    push_part(&mut out, &bytes, 2, bytes.len());
    out
}

/// Offset of the final chunk's length field.
pub fn find_iend(bytes: &[u8]) -> (r: Option<usize>)
    ensures
        match r {
            Some(at) => end_chunk(bytes@, 8) == Some(at as int),
            None => end_chunk(bytes@, 8) is None,
        },
{
    let mut at: usize = 8;
    while at <= bytes.len() && bytes.len() - at >= 8
        invariant
            end_chunk(bytes@, 8) == end_chunk(bytes@, at as int),
        decreases bytes@.len() - at,
    {
        let ghost length: nat = big_endian(bytes@.subrange(at as int, at + 4));
        proof {
            let name = bytes@.subrange(at + 4, at + 8);
            let end = seq![0x49u8, 0x45, 0x4E, 0x44];
            if name[0] == 0x49 && name[1] == 0x45 && name[2] == 0x4E && name[3] == 0x44 {
                assert(name =~= end);
            } else {
                assert(name[0] != end[0] || name[1] != end[1] || name[2] != end[2] || name[3] != end[3]);
            }
        }
        if bytes[at + 4] == 0x49 && bytes[at + 5] == 0x45 && bytes[at + 6] == 0x4E && bytes[at + 7]
            == 0x44 {
            return Some(at);
        }
        let step: u64 = bytes[at] as u64 * 0x100_0000 + bytes[at + 1] as u64 * 0x1_0000 + bytes[at
            + 2] as u64 * 0x100 + bytes[at + 3] as u64 + 12;
        proof {
            assert(step == length + 12);
        }
        if step > (bytes.len() - at) as u64 {
            proof {
                assert(end_chunk(bytes@, at + 12 + length) is None);
            }
            return None;
        }
        at = at + step as usize;
    }
    None
}

/// The data of a text chunk: a keyword, and so many spaces as its text.
pub open spec fn note(payload: nat) -> Seq<u8> {
    seq![0x43u8, 0x6F, 0x6D, 0x6D, 0x65, 0x6E, 0x74, 0x00] + spaces(payload)
}

/// A text chunk with so many spaces in it: the length, the type, the data and
/// the checksum over the type and the data.
pub open spec fn text_chunk(payload: nat) -> Seq<u8> {
    let body = seq![0x74u8, 0x45, 0x58, 0x74] + note(payload);
    four_bytes(payload + 8) + body + four_bytes((!crc_register(body)) as nat)
}

/// A PNG with a text chunk in front of its end chunk; a file without an end
/// chunk, and one for which the chunk would be empty, as it was.
pub open spec fn padded_png(bytes: Seq<u8>, wanted: nat) -> Seq<u8> {
    match end_chunk(bytes, 8) {
        Some(end) if wanted > 20 => bytes.subrange(0, end) + text_chunk((wanted - 20) as nat)
            + bytes.subrange(end, bytes.len() as int),
        _ => bytes,
    }
}

/// A PNG text chunk, inserted before the end chunk.
pub fn pad_png(bytes: Vec<u8>, wanted: u64) -> (r: Vec<u8>)
    requires
        wanted <= MOST_PADDING,
    ensures
        r@ == padded_png(bytes@, wanted as nat),
{
    let end: usize = match find_iend(bytes.as_slice()) {
        Some(end) => end,
        None => return bytes,
    };
    if wanted <= 20 {
        return bytes;
    }
    let payload: u64 = wanted - 20;
    let mut body: Vec<u8> = vec![0x74, 0x45, 0x58, 0x74, 0x43, 0x6F, 0x6D, 0x6D, 0x65, 0x6E, 0x74, 0x00];
    push_spaces(&mut body, payload);
    proof {
        assert(body@ =~= seq![0x74u8, 0x45, 0x58, 0x74] + note(payload as nat));
        lemma_end_chunk_inside(bytes@, 8);
    }
    let mut out: Vec<u8> = Vec::new();
    push_part(&mut out, &bytes, 0, end);
    push_four_bytes(&mut out, (payload + 8) as u32);
    push_part(&mut out, &body, 0, body.len());
    push_four_bytes(&mut out, crc32(body.as_slice()));
    push_part(&mut out, &bytes, end, bytes.len());
    proof {
        assert(body@.subrange(0, body@.len() as int) =~= body@);
        assert(out@ =~= padded_png(bytes@, wanted as nat));
    }
    out
}

/// An end chunk lies inside the file.
proof fn lemma_end_chunk_inside(bytes: Seq<u8>, at: int)
    ensures
        end_chunk(bytes, at) matches Some(end) ==> at <= end && end + 8 <= bytes.len(),
    decreases (if at > bytes.len() { 0 } else { bytes.len() - at }),
{
    if at + 8 <= bytes.len() && end_chunk(bytes, at) is Some {
        lemma_end_chunk_inside(bytes, at + 12 + big_endian(bytes.subrange(at, at + 4)));
    }
}

/// What filling a file up by `wanted` bytes gives, by the format's own notes.
pub open spec fn padded(bytes: Seq<u8>, extension: Seq<char>, wanted: nat) -> Result<
    Seq<u8>,
    Seq<char>,
> {
    if wanted > MOST_PADDING {
        Err(described(wanted) + " is too much padding to add."@)
    } else if wanted == 0 {
        Ok(bytes)
    } else if is_jpeg(extension) {
        Ok(padded_jpeg(bytes, wanted))
    } else if extension == "png"@ {
        Ok(padded_png(bytes, wanted))
    } else {
        Ok(bytes)
    }
}

/// Grow a file to meet a minimum, using whatever the format keeps notes in.
///
/// Returns the file unchanged when it has nowhere to put them. A caller that
/// worked out the shortfall with a subtraction that went negative would ask
/// for an exabyte of filler, and the allocation would take the process with
/// it: that is refused.
pub fn pad(bytes: Vec<u8>, target: &Target, wanted: u64) -> (r: Result<Vec<u8>, String>)
    ensures
        outcome(r) == padded(bytes@, target.extension@, wanted as nat),
{
    if wanted == 0 {
        return Ok(bytes);
    }
    if wanted > MOST_PADDING {
        let mut text = describe(wanted);
        text.append(" is too much padding to add.");
        return Err(text);
    }
    if target.lossy() {
        Ok(pad_jpeg(bytes, wanted))
    } else if same(target.extension, "png") {
        Ok(pad_png(bytes, wanted))
    } else {
        Ok(bytes)
    }
}

/// Comments fall short of the room they were to take by four bytes at most.
pub proof fn law_comments_fill_the_room(wanted: nat)
    ensures
        comments(wanted).len() <= wanted <= comments(wanted).len() + 4,
    decreases wanted,
{
    if wanted > 4 {
        let payload = if wanted - 4 < MOST_COMMENT { (wanted - 4) as nat } else { MOST_COMMENT as nat };
        law_comments_fill_the_room((wanted - 4 - payload) as nat);
    }
}

/// A JPEG stripped of the comments that it starts with: what a reader that
/// steps over comments goes on to.
pub open spec fn after_comments(bytes: Seq<u8>) -> Seq<u8>
    decreases bytes.len(),
{
    if bytes.len() >= 4 && bytes[0] == 0xFF && bytes[1] == 0xFE && 2 <= bytes[2] * 256 + bytes[3]
        && bytes.len() >= 2 + bytes[2] * 256 + bytes[3] {
        after_comments(bytes.subrange(2 + bytes[2] * 256 + bytes[3], bytes.len() as int))
    } else {
        bytes
    }
}

/// The padding of a JPEG is comments and nothing else: a reader that steps
/// over comments finds behind them what it would have found without them.
pub proof fn law_jpeg_padding_is_all_comments(wanted: nat, rest: Seq<u8>)
    ensures
        after_comments(comments(wanted) + rest) == after_comments(rest),
    decreases wanted,
{
    if wanted <= 4 {
        assert(comments(wanted) + rest =~= rest);
    } else {
        let payload = if wanted - 4 < MOST_COMMENT { (wanted - 4) as nat } else { MOST_COMMENT as nat };
        let more = comments((wanted - 4 - payload) as nat);
        let all = comments(wanted) + rest;
        assert(all =~= comment(payload) + (more + rest));
        assert(all[2] * 256 + all[3] == payload + 2);
        assert(all.subrange(4 + payload as int, all.len() as int) =~= more + rest);
        law_jpeg_padding_is_all_comments((wanted - 4 - payload) as nat, rest);
    }
}

/// Reading a number back from its four bytes.
proof fn lemma_four_bytes(n: nat)
    requires
        n < 0x1_0000_0000,
    ensures
        big_endian(four_bytes(n)) == n,
{
    let x: int = n as int;
    lemma_div_denominator(x, 0x100, 0x100);
    lemma_div_denominator(x, 0x1_0000, 0x100);
    let (upper, middle, lower) = (x / 0x100_0000, x / 0x1_0000, x / 0x100);
    assert(upper == middle / 0x100 && middle == lower / 0x100);
    lemma_fundamental_div_mod(x, 0x100);
    lemma_fundamental_div_mod(lower, 0x100);
    lemma_fundamental_div_mod(middle, 0x100);
    assert(upper < 256);
    let bytes = four_bytes(n);
    assert(bytes[0] == upper && bytes[1] == middle % 0x100 && bytes[2] == lower % 0x100 && bytes[3]
        == x % 0x100);
}

/// Bytes behind the end chunk, and bytes put in front of it as a chunk of
/// their own, do not keep the end chunk from being found.
proof fn lemma_end_chunk_moves(bytes: Seq<u8>, at: int, chunk: Seq<u8>)
    requires
        0 <= at,
        end_chunk(bytes, at) is Some,
        chunk.len() >= 12,
        chunk.len() == 12 + big_endian(chunk.subrange(0, 4)),
        chunk.subrange(4, 8) != seq![0x49u8, 0x45, 0x4E, 0x44],
    ensures
        ({
            let end = end_chunk(bytes, at)->0;
            end_chunk(
                bytes.subrange(0, end) + chunk + bytes.subrange(end, bytes.len() as int),
                at,
            ) == Some(end + chunk.len())
        }),
    decreases (if at > bytes.len() { 0 } else { bytes.len() - at }),
{
    let end = end_chunk(bytes, at)->0;
    let longer = bytes.subrange(0, end) + chunk + bytes.subrange(end, bytes.len() as int);
    lemma_end_chunk_inside(bytes, at);
    if end == at {
        assert(longer.subrange(at, at + 4) =~= chunk.subrange(0, 4));
        assert(longer.subrange(at + 4, at + 8) =~= chunk.subrange(4, 8));
        let next: int = at + chunk.len();
        assert(longer.subrange(next + 4, next + 8) =~= bytes.subrange(end + 4, end + 8));
        assert(bytes.subrange(end + 4, end + 8) == seq![0x49u8, 0x45, 0x4E, 0x44]) by {
            lemma_end_chunk_is_named(bytes, at);
        }
        assert(end_chunk(longer, next) == Some(next));
    } else {
        let next: int = at + 12 + big_endian(bytes.subrange(at, at + 4));
        assert(bytes.subrange(at + 4, at + 8) != seq![0x49u8, 0x45, 0x4E, 0x44]);
        lemma_end_chunk_inside(bytes, next);
        assert(longer.subrange(at, at + 4) =~= bytes.subrange(at, at + 4));
        assert(longer.subrange(at + 4, at + 8) =~= bytes.subrange(at + 4, at + 8));
        lemma_end_chunk_moves(bytes, next, chunk);
    }
}

proof fn lemma_end_chunk_is_named(bytes: Seq<u8>, at: int)
    requires
        end_chunk(bytes, at) is Some,
    ensures
        bytes.subrange(end_chunk(bytes, at)->0 + 4, end_chunk(bytes, at)->0 + 8) == seq![
            0x49u8,
            0x45,
            0x4E,
            0x44,
        ],
    decreases (if at > bytes.len() { 0 } else { bytes.len() - at }),
{
    if at + 8 <= bytes.len() && bytes.subrange(at + 4, at + 8) != seq![0x49u8, 0x45, 0x4E, 0x44] {
        lemma_end_chunk_is_named(bytes, at + 12 + big_endian(bytes.subrange(at, at + 4)));
    }
}

/// A padded PNG still is the signature, its chunks and the end chunk, which
/// the filler pushed back by exactly its own length.
pub proof fn law_a_padded_png_keeps_its_end(bytes: Seq<u8>, wanted: nat)
    requires
        end_chunk(bytes, 8) is Some,
        20 < wanted <= MOST_PADDING,
    ensures
        end_chunk(padded_png(bytes, wanted), 8) == Some(end_chunk(bytes, 8)->0 + wanted),
        padded_png(bytes, wanted).len() == bytes.len() + wanted,
{
    let payload: nat = (wanted - 20) as nat;
    let chunk = text_chunk(payload);
    lemma_four_bytes(payload + 8);
    lemma_end_chunk_inside(bytes, 8);
    assert(chunk.len() == wanted);
    assert(chunk.subrange(0, 4) =~= four_bytes(payload + 8));
    assert(chunk.subrange(4, 8)[0] == 0x74);
    assert(seq![0x49u8, 0x45, 0x4E, 0x44][0] == 0x49);
    lemma_end_chunk_moves(bytes, 8, chunk);
}

/// Whether the chunks of a PNG from `at` up to its end chunk are sound: of each, the
/// last four bytes, read as a number, are the checksum of all that stands between its
/// length and them.
pub open spec fn chunks_are_sound(bytes: Seq<u8>, at: int) -> bool
    decreases (if at > bytes.len() { 0 } else { bytes.len() - at }),
{
    if at < 0 || at + 12 > bytes.len() {
        false
    } else {
        let length = bytes[at] * 0x100_0000 + bytes[at + 1] * 0x1_0000 + bytes[at + 2] * 0x100
            + bytes[at + 3];
        let end = at + 12 + length;
        &&& end <= bytes.len()
        &&& bytes[end - 4] * 0x100_0000 + bytes[end - 3] * 0x1_0000 + bytes[end - 2] * 0x100
            + bytes[end - 1] == !crc_register(bytes.subrange(at + 4, end - 4))
        &&& (bytes[at + 4] == 0x49 && bytes[at + 5] == 0x45 && bytes[at + 6] == 0x4E && bytes[at
            + 7] == 0x44) || chunks_are_sound(bytes, end)
    }
}

/// A sound PNG that is filled up is a sound PNG: every chunk of it, the filler too,
/// carries the checksum of its type and its data.
pub proof fn law_a_padded_png_stays_sound(bytes: Seq<u8>, wanted: nat)
    requires
        chunks_are_sound(bytes, 8),
        wanted <= MOST_PADDING,
    ensures
        chunks_are_sound(padded_png(bytes, wanted), 8),
        wanted > 20 ==> padded_png(bytes, wanted).len() == bytes.len() + wanted,
        wanted <= 20 ==> padded_png(bytes, wanted) == bytes,
{
    if wanted > 20 {
        lemma_sound_ends(bytes, 8);
        let chunk = text_chunk((wanted - 20) as nat);
        lemma_text_chunk((wanted - 20) as nat);
        lemma_sound_with_a_chunk(bytes, 8, chunk);
        lemma_end_chunk_inside(bytes, 8);
    }
}

/// The filler of a PNG goes in front of the end chunk, and nothing else changes: what
/// was there stays, in the same order. The filler is one text chunk, with a keyword,
/// a zero behind it, and spaces.
pub proof fn law_the_filler_is_one_text_chunk(bytes: Seq<u8>, wanted: nat)
    requires
        end_chunk(bytes, 8) is Some,
        20 < wanted <= MOST_PADDING,
    ensures
        ({
            let end = end_chunk(bytes, 8)->0;
            let r = padded_png(bytes, wanted);
            let length = r[end] * 0x100_0000 + r[end + 1] * 0x1_0000 + r[end + 2] * 0x100 + r[end + 3];
            let sum = end + wanted - 4;
            &&& r.subrange(0, end) == bytes.subrange(0, end)
            &&& r.subrange(end + wanted, r.len() as int) == bytes.subrange(end, bytes.len() as int)
            &&& bytes[end + 4] == 0x49 && bytes[end + 5] == 0x45 && bytes[end + 6] == 0x4E && bytes[end
                + 7] == 0x44
            &&& length == wanted - 12
            &&& r[end + 4] == 0x74 && r[end + 5] == 0x45 && r[end + 6] == 0x58 && r[end + 7] == 0x74
            &&& r[end + 8] == 0x43 && r[end + 9] == 0x6F && r[end + 10] == 0x6D && r[end + 11] == 0x6D
                && r[end + 12] == 0x65 && r[end + 13] == 0x6E && r[end + 14] == 0x74 && r[end + 15] == 0
            &&& forall|i: int| end + 16 <= i < sum ==> #[trigger] r[i] == 0x20
            &&& r[sum] * 0x100_0000 + r[sum + 1] * 0x1_0000 + r[sum + 2] * 0x100 + r[sum + 3]
                == !crc_register(r.subrange(end + 4, sum))
        }),
{
    let end = end_chunk(bytes, 8)->0;
    let chunk = text_chunk((wanted - 20) as nat);
    let r = padded_png(bytes, wanted);
    let sum = end + wanted - 4;
    lemma_text_chunk((wanted - 20) as nat);
    lemma_end_chunk_inside(bytes, 8);
    lemma_end_chunk_is_named(bytes, 8);
    let name = bytes.subrange(end + 4, end + 8);
    assert(name[0] == 0x49 && name[1] == 0x45 && name[2] == 0x4E && name[3] == 0x44);
    assert(r.subrange(0, end) =~= bytes.subrange(0, end));
    assert(r.subrange(end + wanted, r.len() as int) =~= bytes.subrange(end, bytes.len() as int));
    assert forall|i: int| 0 <= i < wanted implies #[trigger] r[end + i] == chunk[i] by {}
    assert(r.subrange(end + 4, sum) =~= chunk.subrange(4, wanted - 4));
    assert forall|i: int| end + 16 <= i < sum implies #[trigger] r[i] == 0x20 by {
        assert(r[end + (i - end)] == chunk[i - end]);
    }
}

/// What a text chunk holds, byte by byte.
proof fn lemma_text_chunk(payload: nat)
    requires
        payload + 20 < 0x1_0000_0000,
    ensures
        ({
            let c = text_chunk(payload);
            let n: int = payload as int + 16;
            &&& c.len() == payload + 20
            &&& c[0] * 0x100_0000 + c[1] * 0x1_0000 + c[2] * 0x100 + c[3] == payload + 8
            &&& c[4] == 0x74 && c[5] == 0x45 && c[6] == 0x58 && c[7] == 0x74
            &&& c[8] == 0x43 && c[9] == 0x6F && c[10] == 0x6D && c[11] == 0x6D && c[12] == 0x65
                && c[13] == 0x6E && c[14] == 0x74 && c[15] == 0
            &&& forall|i: int| 16 <= i < n ==> #[trigger] c[i] == 0x20
            &&& c[n] * 0x100_0000 + c[n + 1] * 0x1_0000 + c[n + 2] * 0x100 + c[n + 3]
                == !crc_register(c.subrange(4, n))
        }),
{
    let c = text_chunk(payload);
    let body = seq![0x74u8, 0x45, 0x58, 0x74] + note(payload);
    let sum: nat = (!crc_register(body)) as nat;
    let n: int = payload as int + 16;
    lemma_four_bytes(payload + 8);
    lemma_four_bytes(sum);
    assert(c.subrange(4, n) =~= body);
    assert(c[0] == four_bytes(payload + 8)[0] && c[1] == four_bytes(payload + 8)[1] && c[2]
        == four_bytes(payload + 8)[2] && c[3] == four_bytes(payload + 8)[3]);
    assert(c[n] == four_bytes(sum)[0] && c[n + 1] == four_bytes(sum)[1] && c[n + 2] == four_bytes(
        sum,
    )[2] && c[n + 3] == four_bytes(sum)[3]);
    assert forall|i: int| 16 <= i < n implies #[trigger] c[i] == 0x20 by {
        assert(c[i] == body[i - 4]);
    }
    assert(c[4] == body[0] && c[5] == body[1] && c[6] == body[2] && c[7] == body[3]);
    assert(c[8] == body[4] && c[9] == body[5] && c[10] == body[6] && c[11] == body[7]);
    assert(c[12] == body[8] && c[13] == body[9] && c[14] == body[10] && c[15] == body[11]);
}

/// The chunks of a sound PNG lead to an end chunk.
proof fn lemma_sound_ends(bytes: Seq<u8>, at: int)
    requires
        chunks_are_sound(bytes, at),
    ensures
        end_chunk(bytes, at) is Some,
    decreases (if at > bytes.len() { 0 } else { bytes.len() - at }),
{
    let name = bytes.subrange(at + 4, at + 8);
    let end = seq![0x49u8, 0x45, 0x4E, 0x44];
    if name[0] == 0x49 && name[1] == 0x45 && name[2] == 0x4E && name[3] == 0x44 {
        assert(name =~= end);
    } else {
        assert(name[0] != end[0] || name[1] != end[1] || name[2] != end[2] || name[3] != end[3]);
        lemma_sound_ends(bytes, at + 12 + big_endian(bytes.subrange(at, at + 4)));
    }
}

/// A sound chunk in front of the end chunk of a sound PNG leaves it sound.
proof fn lemma_sound_with_a_chunk(bytes: Seq<u8>, at: int, chunk: Seq<u8>)
    requires
        0 <= at,
        chunks_are_sound(bytes, at),
        end_chunk(bytes, at) is Some,
        chunk.len() >= 12,
        chunk[0] * 0x100_0000 + chunk[1] * 0x1_0000 + chunk[2] * 0x100 + chunk[3] == chunk.len() - 12,
        chunk[4] == 0x74,
        ({
            let n: int = chunk.len() - 4;
            chunk[n] * 0x100_0000 + chunk[n + 1] * 0x1_0000 + chunk[n + 2] * 0x100 + chunk[n + 3]
                == !crc_register(chunk.subrange(4, n))
        }),
    ensures
        ({
            let end = end_chunk(bytes, at)->0;
            chunks_are_sound(
                bytes.subrange(0, end) + chunk + bytes.subrange(end, bytes.len() as int),
                at,
            )
        }),
    decreases (if at > bytes.len() { 0 } else { bytes.len() - at }),
{
    let end = end_chunk(bytes, at)->0;
    let r = bytes.subrange(0, end) + chunk + bytes.subrange(end, bytes.len() as int);
    let name = bytes.subrange(at + 4, at + 8);
    let last = seq![0x49u8, 0x45, 0x4E, 0x44];
    let step: int = bytes[at] * 0x100_0000 + bytes[at + 1] * 0x1_0000 + bytes[at + 2] * 0x100
        + bytes[at + 3] + 12;
    assert(step == 12 + big_endian(bytes.subrange(at, at + 4)));
    lemma_end_chunk_inside(bytes, at);
    if name[0] == 0x49 && name[1] == 0x45 && name[2] == 0x4E && name[3] == 0x44 {
        assert(name =~= last);
        assert(end == at);
        let n: int = chunk.len() as int;
        assert(r.subrange(at + 4, at + n - 4) =~= chunk.subrange(4, n - 4));
        assert forall|i: int| 0 <= i < n implies #[trigger] r[at + i] == chunk[i] by {}
        assert(r[at + 0] == chunk[0] && r[at + 1] == chunk[1] && r[at + 2] == chunk[2] && r[at + 3]
            == chunk[3] && r[at + 4] == chunk[4]);
        assert(r[at + (n - 4)] == chunk[n - 4] && r[at + (n - 3)] == chunk[n - 3] && r[at + (n - 2)]
            == chunk[n - 2] && r[at + (n - 1)] == chunk[n - 1]);
        let next = at + n;
        assert forall|i: int| at <= i < bytes.len() implies r[#[trigger] (i + n)] == bytes[i] by {}
        assert(r[next] == bytes[at] && r[next + 1] == bytes[at + 1] && r[next + 2] == bytes[at + 2]
            && r[next + 3] == bytes[at + 3]) by {
            assert(r[at + n] == bytes[at] && r[at + 1 + n] == bytes[at + 1] && r[at + 2 + n]
                == bytes[at + 2] && r[at + 3 + n] == bytes[at + 3]);
        }
        assert(r[at + 4 + n] == bytes[at + 4] && r[at + 5 + n] == bytes[at + 5] && r[at + 6 + n]
            == bytes[at + 6] && r[at + 7 + n] == bytes[at + 7]);
        let e = at + step;
        assert(r[e - 4 + n] == bytes[e - 4] && r[e - 3 + n] == bytes[e - 3] && r[e - 2 + n] == bytes[e
            - 2] && r[e - 1 + n] == bytes[e - 1]);
        assert(r.subrange(next + 4, next + step - 4) =~= bytes.subrange(at + 4, at + step - 4));
        assert(chunks_are_sound(r, next));
    } else {
        assert(name[0] != last[0] || name[1] != last[1] || name[2] != last[2] || name[3] != last[3]);
        lemma_end_chunk_inside(bytes, at + step);
        lemma_sound_with_a_chunk(bytes, at + step, chunk);
        assert(r.subrange(at + 4, at + step - 4) =~= bytes.subrange(at + 4, at + step - 4));
        assert forall|i: int| 0 <= i < end implies #[trigger] r[i] == bytes[i] by {}
    }
}

/// A JPEG that is filled up still starts with its start marker, and a reader that
/// steps over comments finds behind it what it would have found; the filler is all
/// in those comments. Any other file is left alone.
pub proof fn law_a_padded_jpeg_reads_the_same(bytes: Seq<u8>, wanted: nat)
    ensures
        ({
            let r = padded_jpeg(bytes, wanted);
            let is_jpeg_file = bytes.len() >= 2 && bytes[0] == 0xFF && bytes[1] == 0xD8;
            &&& !is_jpeg_file ==> r == bytes
            &&& is_jpeg_file ==> {
                &&& r.len() >= 2 && r[0] == 0xFF && r[1] == 0xD8
                &&& after_comments(r.subrange(2, r.len() as int)) == after_comments(
                    bytes.subrange(2, bytes.len() as int),
                )
                &&& bytes.len() + wanted <= r.len() + 4
                &&& r.len() <= bytes.len() + wanted
                &&& wanted > 4 ==> r[2] == 0xFF && r[3] == 0xFE
            }
        }),
{
    if starts_jpeg(bytes) {
        let r = padded_jpeg(bytes, wanted);
        let rest = bytes.subrange(2, bytes.len() as int);
        assert(r.subrange(2, r.len() as int) =~= comments(wanted) + rest);
        law_jpeg_padding_is_all_comments(wanted, rest);
        law_comments_fill_the_room(wanted);
        if wanted > 4 {
            let payload = if wanted - 4 < MOST_COMMENT {
                (wanted - 4) as nat
            } else {
                MOST_COMMENT as nat
            };
            assert(comments(wanted)[0] == comment(payload)[0]);
            assert(comments(wanted)[1] == comment(payload)[1]);
        }
    }
}

/// What a size-targeting run settled on.
pub struct Fit {
    pub bytes: Vec<u8>,
    /// The quality the search chose, where the format has a dial.
    pub quality: Option<u8>,
    pub width: u32,
    pub height: u32,
    /// Filler added to reach a minimum size, in bytes.
    pub padding: u64,
}

impl Fit {
    /// How large the file is.
    pub fn size(&self) -> (r: u64)
        ensures
            r == self.bytes@.len(),
    {
        self.bytes.len() as u64
    }

    /// Whether this is a file of these bytes, for a picture of this size.
    pub open spec fn is(
        self,
        bytes: Seq<u8>,
        quality: Option<u8>,
        width: u32,
        height: u32,
        padding: int,
    ) -> bool {
        &&& self.bytes@ == bytes
        &&& self.quality == quality
        &&& self.width == width
        &&& self.height == height
        &&& self.padding == padding
    }
}

/// The quality that halving the range from `low` to `high` settles on, trying
/// the middle and going on above it where the file fits and below it where it
/// does not; nothing where no file that was tried fits.
pub open spec fn settled(
    image: Picture,
    label: Seq<char>,
    extension: Seq<char>,
    wanted: nat,
    low: int,
    high: int,
) -> Result<Option<u8>, Seq<char>>
    decreases high - low + 1,
{
    if low > high {
        Ok(None)
    } else {
        let middle = low + (high - low) / 2;
        match encoded(image, label, extension, middle as u8) {
            Err(message) => Err(message),
            Ok(bytes) => if bytes.len() <= wanted {
                match settled(image, label, extension, wanted, middle + 1, high) {
                    Ok(None) => Ok(Some(middle as u8)),
                    better => better,
                }
            } else {
                settled(image, label, extension, wanted, low, middle - 1)
            },
        }
    }
}

/// The file that the search ends with, and its quality where there is one.
pub open spec fn searched(
    image: Picture,
    label: Seq<char>,
    extension: Seq<char>,
    wanted: nat,
) -> Result<Option<(Option<u8>, Seq<u8>)>, Seq<char>> {
    if is_jpeg(extension) {
        match settled(image, label, extension, wanted, MIN_QUALITY as int, MAX_QUALITY as int) {
            Err(message) => Err(message),
            Ok(None) => Ok(None),
            Ok(Some(quality)) => Ok(
                Some((Some(quality), encoded(image, label, extension, quality)->Ok_0)),
            ),
        }
    } else {
        match encoded(image, label, extension, MAX_QUALITY) {
            Err(message) => Err(message),
            Ok(bytes) => Ok(if bytes.len() <= wanted { Some((None, bytes)) } else { None }),
        }
    }
}

/// The best-looking encoding that fits, or `None` when even the worst is over.
pub fn search_quality(image: &Picture, target: &Target, wanted: u64) -> (r: Result<
    Option<Fit>,
    String,
>)
    requires
        image.wf(),
    ensures
        match searched(*image, target.label@, target.extension@, wanted as nat) {
            Err(message) => r matches Err(text) && text@ == message,
            Ok(None) => r matches Ok(None),
            Ok(Some((quality, bytes))) => r matches Ok(Some(fit)) && fit.is(
                bytes,
                quality,
                image.width,
                image.height,
                0,
            ),
        },
{
    if !target.lossy() {
        let bytes = match encode(image, target, MAX_QUALITY) {
            Ok(bytes) => bytes,
            Err(message) => return Err(message),
        };
        return if bytes.len() as u64 <= wanted {
            Ok(
                Some(
                    Fit {
                        bytes,
                        quality: None,
                        width: image.width,
                        height: image.height,
                        padding: 0,
                    },
                ),
            )
        } else {
            Ok(None)
        };
    }
    let mut low: u8 = MIN_QUALITY;
    let mut high: u8 = MAX_QUALITY;
    let mut best: Option<(u8, Vec<u8>)> = None;
    let ghost goal = settled(
        *image,
        target.label@,
        target.extension@,
        wanted as nat,
        MIN_QUALITY as int,
        MAX_QUALITY as int,
    );
    while low <= high
        invariant
            image.wf(),
            is_jpeg(target.extension@),
            goal == settled(
                *image,
                target.label@,
                target.extension@,
                wanted as nat,
                MIN_QUALITY as int,
                MAX_QUALITY as int,
            ),
            MIN_QUALITY <= low <= MAX_QUALITY + 1,
            MIN_QUALITY - 1 <= high <= MAX_QUALITY,
            goal == (match settled(
                *image,
                target.label@,
                target.extension@,
                wanted as nat,
                low as int,
                high as int,
            ) {
                Ok(None) => match best {
                    Some(pair) => Ok(Some(pair.0)),
                    None => Ok(None),
                },
                better => better,
            }),
            best matches Some(pair) ==> Ok::<Seq<u8>, Seq<char>>(pair.1@) == encoded(
                *image,
                target.label@,
                target.extension@,
                pair.0,
            ),
        decreases high + 1 - low,
    {
        let middle: u8 = low + (high - low) / 2;
        let bytes = match encode(image, target, middle) {
            Ok(bytes) => bytes,
            Err(message) => return Err(message),
        };
        if bytes.len() as u64 <= wanted {
            best = Some((middle, bytes));
            low = middle + 1;
        } else {
            high = middle - 1;
        }
    }
    match best {
        Some((quality, bytes)) => Ok(
            Some(
                Fit {
                    bytes,
                    quality: Some(quality),
                    width: image.width,
                    height: image.height,
                    padding: 0,
                },
            ),
        ),
        None => Ok(None),
    }
}

/// Where the search finds nothing, the file at the lowest quality is too big;
/// what it finds is a quality in the range whose file fits.
pub proof fn law_what_the_search_finds_fits(
    image: Picture,
    label: Seq<char>,
    extension: Seq<char>,
    wanted: nat,
    low: int,
    high: int,
)
    requires
        0 <= low <= high + 1,
        high <= 255,
    ensures
        match settled(image, label, extension, wanted, low, high) {
            Ok(Some(quality)) => low <= quality <= high && encoded(image, label, extension, quality)
                is Ok && encoded(image, label, extension, quality)->Ok_0.len() <= wanted,
            Ok(None) => low <= high ==> encoded(image, label, extension, low as u8) is Ok && encoded(
                image,
                label,
                extension,
                low as u8,
            )->Ok_0.len() > wanted,
            Err(_) => low <= high,
        },
    decreases high - low + 1,
{
    if low <= high {
        let middle = low + (high - low) / 2;
        law_what_the_search_finds_fits(image, label, extension, wanted, middle + 1, high);
        law_what_the_search_finds_fits(image, label, extension, wanted, low, middle - 1);
    }
}

/// Where a better quality never makes a smaller file, the search finds the best
/// quality that fits, and finds nothing only where none does.
pub proof fn law_the_search_finds_the_best(
    image: Picture,
    label: Seq<char>,
    extension: Seq<char>,
    wanted: nat,
    low: int,
    high: int,
)
    requires
        0 <= low <= high + 1,
        high <= 255,
        forall|q: u8|
            low <= q <= high ==> #[trigger] encoded(image, label, extension, q) is Ok,
        forall|p: u8, q: u8|
            low <= p <= q <= high ==> (#[trigger] encoded(image, label, extension, p))->Ok_0.len() <= (
            #[trigger] encoded(image, label, extension, q))->Ok_0.len(),
    ensures
        match settled(image, label, extension, wanted, low, high) {
            Ok(Some(best)) => low <= best <= high && forall|q: u8|
                low <= q <= high ==> ((#[trigger] encoded(image, label, extension, q))->Ok_0.len()
                    <= wanted <==> q <= best),
            Ok(None) => forall|q: u8|
                low <= q <= high ==> (#[trigger] encoded(image, label, extension, q))->Ok_0.len()
                    > wanted,
            Err(_) => false,
        },
    decreases high - low + 1,
{
    if low <= high {
        let middle = low + (high - low) / 2;
        let tried = encoded(image, label, extension, middle as u8);
        if tried->Ok_0.len() <= wanted {
            law_the_search_finds_the_best(image, label, extension, wanted, middle + 1, high);
        } else {
            law_the_search_finds_the_best(image, label, extension, wanted, low, middle - 1);
        }
    }
}

/// How much shorter the sides become where the smallest file is `floor` bytes.
///
/// File size goes roughly with area, so the side scales with the root of the
/// ratio; the margin stops it converging from above for ever.
pub open spec fn shrink_ratio(wanted: nat, floor: nat) -> (nat, nat) {
    clamped(
        product(root(nearest(whole(wanted), whole(floor))), nearest(19, 20)),
        nearest(1, 10),
        nearest(9, 10),
    )
}

/// A decimal fraction below one fills its significand and stays below one.
fn decimal_fraction(n: u32, d: u32) -> (r: Double)
    requires
        0 < n < d <= 1000,
    ensures
        r@ == nearest(n as nat, d as nat),
        full() <= r.numerator <= 2 * full(),
        r.numerator <= pow2(r.places as nat),
        r.places <= 128,
{
    let r = nearest_double(n as u128, d as u128);
    proof {
        let unit: nat = pow2(r.places as nat);
        lemma_half_even_is_near((n * unit) as nat, d as nat);
        lemma_pow2_pos(r.places as nat);
        assert(r.numerator <= unit) by (nonlinear_arith)
            requires
                2 * (r.numerator * d) <= 2 * (n * unit) + d,
                n + 1 <= d,
                d > 0,
                unit >= 1,
        ;
    }
    r
}

/// Works out how much shorter the sides become.
fn ratio_for(wanted: u64, floor: u64) -> (r: Double)
    requires
        0 < wanted < floor,
    ensures
        r@ == shrink_ratio(wanted as nat, floor as nat),
        full() <= r.numerator <= 2 * full(),
        r.numerator <= pow2(r.places as nat),
        r.places <= 2000,
{
    let n: u128 = nearest_to_whole(wanted);
    let d: u128 = nearest_to_whole(floor);
    let share = nearest_double(n, d);
    proof {
        let unit: nat = pow2(share.places as nat);
        lemma_half_even_is_near((n * unit) as nat, d as nat);
        lemma_pow2_pos(share.places as nat);
        assert(share.numerator <= 8 * unit) by (nonlinear_arith)
            requires
                2 * (share.numerator * d) <= 2 * (n * unit) + d,
                n <= 4 * d,
                d > 0,
                unit >= 1,
        ;
    }
    let side = root_of(share);
    let margin = decimal_fraction(19, 20);
    let low = decimal_fraction(1, 10);
    let high = decimal_fraction(9, 10);
    let ratio = times(side, margin);
    if less(ratio, low) {
        low
    } else if less(high, ratio) {
        high
    } else {
        proof {
            let unit: nat = pow2(ratio.places as nat);
            let top: nat = pow2(high.places as nat);
            lemma_pow2_pos(high.places as nat);
            assert(ratio.numerator <= unit) by (nonlinear_arith)
                requires
                    ratio.numerator * top <= high.numerator * unit,
                    high.numerator <= top,
                    top > 0,
            ;
        }
        ratio
    }
}

/// How a round of shrinking goes.
pub enum Outcome {
    /// A file fits: its quality, where it has one, and its bytes.
    Done(Option<u8>, Seq<u8>),
    /// The picture has to come down to this width and height.
    Shrink(nat, nat),
}

/// What a round of shrinking decides for a picture.
pub open spec fn decided(
    image: Picture,
    label: Seq<char>,
    extension: Seq<char>,
    wanted: nat,
) -> Result<Outcome, Seq<char>> {
    match searched(image, label, extension, wanted) {
        Err(message) => Err(message),
        Ok(Some((quality, bytes))) => Ok(Outcome::Done(quality, bytes)),
        Ok(None) => match encoded(image, label, extension, MIN_QUALITY) {
            Err(message) => Err(message),
            Ok(floor) => {
                let ratio = shrink_ratio(wanted, floor.len());
                let width = scaled_side(image.width as nat, ratio);
                let height = scaled_side(image.height as nat, ratio);
                if width < MIN_EDGE && height < MIN_EDGE {
                    Err(
                        described(wanted)
                            + " is too small a target for this picture: it would have to shrink past 32 pixels."@,
                    )
                } else {
                    Ok(Outcome::Shrink(width, height))
                }
            },
        },
    }
}

/// A round of shrinking: either a file that fits, or the size to come down to.
pub enum Round {
    Done(Fit),
    Shrink { width: u32, height: u32 },
}

/// Searches for a file that fits, and works out how far the picture has to
/// shrink where there is none.
pub fn shrink_round(image: &Picture, target: &Target, wanted: u64) -> (r: Result<Round, String>)
    requires
        image.wf(),
        wanted > 0,
    ensures
        match decided(*image, target.label@, target.extension@, wanted as nat) {
            Err(message) => r matches Err(text) && text@ == message,
            Ok(Outcome::Done(quality, bytes)) => r matches Ok(Round::Done(fit)) && fit.is(
                bytes,
                quality,
                image.width,
                image.height,
                0,
            ) && bytes.len() <= wanted,
            Ok(Outcome::Shrink(width, height)) => r matches Ok(Round::Shrink { width: w, height: h })
                && w == width && h == height && 0 < width && 0 < height && (width <= image.width || width
                == 1) && (height <= image.height || height == 1),
        },
{
    proof {
        law_what_the_search_finds_fits(
            *image,
            target.label@,
            target.extension@,
            wanted as nat,
            MIN_QUALITY as int,
            MAX_QUALITY as int,
        );
    }
    match search_quality(image, target, wanted) {
        Err(message) => Err(message),
        Ok(Some(fit)) => Ok(Round::Done(fit)),
        Ok(None) => {
            // Too big even at the worst quality: the picture itself has to give.
            let floor = match encode(image, target, MIN_QUALITY) {
                Ok(floor) => floor,
                Err(message) => return Err(message),
            };
            let ratio = ratio_for(wanted, floor.len() as u64);
            let width: u32 = scale_side(image.width, ratio);
            let height: u32 = scale_side(image.height, ratio);
            if width < MIN_EDGE && height < MIN_EDGE {
                let mut text = describe(wanted);
                text.append(
                    " is too small a target for this picture: it would have to shrink past 32 pixels.",
                );
                return Err(text);
            }
            Ok(Round::Shrink { width, height })
        },
    }
}

/// Whether each picture of a run is the one before it brought down to the size
/// that the round on that one asked for.
pub open spec fn shrinking(
    run: Seq<Picture>,
    label: Seq<char>,
    extension: Seq<char>,
    wanted: nat,
) -> bool {
    forall|i: int|
        0 <= i < run.len() - 1 ==> {
            &&& (#[trigger] run[i + 1]).wf()
            &&& decided(run[i], label, extension, wanted) == Ok::<Outcome, Seq<char>>(
                Outcome::Shrink(run[i + 1].width as nat, run[i + 1].height as nat),
            )
            &&& may_scale_to(
                run[i].width,
                run[i].height,
                run[i].rgba@,
                run[i + 1].width,
                run[i + 1].height,
                run[i + 1].rgba@,
            )
        }
}

/// Whether a result is what the rounds on a run of pictures come to.
pub open spec fn concludes(
    run: Seq<Picture>,
    label: Seq<char>,
    extension: Seq<char>,
    wanted: nat,
    r: Result<Fit, String>,
) -> bool {
    if run.len() == SHRINK_ROUNDS + 1 {
        r matches Err(text) && text@ == "Could not get this down to "@ + described(wanted)
            + ". Try a larger target, or resize it first."@
    } else {
        match decided(run.last(), label, extension, wanted) {
            Ok(Outcome::Done(quality, bytes)) => r matches Ok(fit) && fit.is(
                bytes,
                quality,
                run.last().width,
                run.last().height,
                0,
            ),
            Ok(Outcome::Shrink(_, _)) => false,
            Err(message) => r matches Err(text) && text@ == message,
        }
    }
}

/// A side, or a pixel where there is none.
pub open spec fn pixel_or_more(side: u32) -> nat {
    if side >= 1 {
        side as nat
    } else {
        1
    }
}

/// Encode `image` as `target`, as close under `wanted` bytes as it can get.
///
/// Going the other way, when the picture will not fill the target even at
/// full quality, the file is padded up to it.
pub fn fit_to_size(image: &Picture, target: &Target, wanted: u64) -> (r: Result<Fit, String>)
    requires
        image.wf(),
        roomy(pixel_or_more(image.width), pixel_or_more(image.height)),
    ensures
        wanted == 0 ==> (r matches Err(text) && text@ == "Give a size to aim for."@),
        wanted > 0 ==> match encoded(*image, target.label@, target.extension@, MAX_QUALITY) {
            Err(message) => r matches Err(text) && text@ == message,
            Ok(largest) => if largest.len() <= wanted {
                match padded(largest, target.extension@, (wanted - largest.len()) as nat) {
                    Err(message) => r matches Err(text) && text@ == message,
                    Ok(bytes) => r matches Ok(fit) && fit.is(
                        bytes,
                        if is_jpeg(target.extension@) {
                            Some(MAX_QUALITY)
                        } else {
                            None
                        },
                        image.width,
                        image.height,
                        bytes.len() - largest.len(),
                    ),
                }
            } else {
                exists|run: Seq<Picture>|
                    #![trigger shrinking(run, target.label@, target.extension@, wanted as nat)]
                    {
                        &&& 1 <= run.len() <= SHRINK_ROUNDS + 1
                        &&& run[0]@ == image@
                        &&& shrinking(run, target.label@, target.extension@, wanted as nat)
                        &&& concludes(run, target.label@, target.extension@, wanted as nat, r)
                    }
            },
        },
        r matches Ok(fit) ==> fit.bytes@.len() <= wanted,
        r matches Ok(fit) ==> fit.width <= pixel_or_more(image.width) && fit.height <= pixel_or_more(
            image.height,
        ),
{
    if wanted == 0 {
        return Err("Give a size to aim for.".to_owned());
    }
    // The largest this picture goes. If that is already under the target then
    // the job is to grow, not to shrink.
    let largest = match encode(image, target, MAX_QUALITY) {
        Ok(largest) => largest,
        Err(message) => return Err(message),
    };
    let size: u64 = largest.len() as u64;
    if size <= wanted {
        proof {
            law_padding_never_overshoots(largest@, target.extension@, (wanted - size) as nat);
        }
        let bytes = match pad(largest, target, wanted - size) {
            Ok(bytes) => bytes,
            Err(message) => return Err(message),
        };
        let padding: u64 = bytes.len() as u64 - size;
        return Ok(
            Fit {
                bytes,
                quality: if target.lossy() { Some(MAX_QUALITY) } else { None },
                width: image.width,
                height: image.height,
                padding,
            },
        );
    }
    let mut working = image.copy();
    let ghost mut run: Seq<Picture> = seq![working];
    let mut rounds: usize = 0;
    while rounds < SHRINK_ROUNDS
        invariant
            rounds <= SHRINK_ROUNDS,
            wanted > 0,
            run.len() == rounds + 1,
            run[0]@ == image@,
            run.last() == working,
            shrinking(run, target.label@, target.extension@, wanted as nat),
            working.wf(),
            image.wf(),
            working.width <= pixel_or_more(image.width),
            working.height <= pixel_or_more(image.height),
            roomy(pixel_or_more(image.width), pixel_or_more(image.height)),
            encoded(*image, target.label@, target.extension@, MAX_QUALITY) is Ok,
            encoded(*image, target.label@, target.extension@, MAX_QUALITY)->Ok_0.len() > wanted,
        decreases SHRINK_ROUNDS - rounds,
    {
        match shrink_round(&working, target, wanted) {
            Err(message) => {
                return Err(message);
            },
            Ok(Round::Done(fit)) => {
                return Ok(fit);
            },
            Ok(Round::Shrink { width, height }) => {
                proof {
                    let (across, down) = (pixel_or_more(image.width), pixel_or_more(image.height));
                    lemma_roomy(working.width as nat, height as nat, across, down);
                    lemma_roomy(width as nat, height as nat, across, down);
                }
                let ghost before = run;
                working = resample(&working, width, height);
                proof {
                    run = run.push(working);
                    assert forall|i: int| 0 <= i < run.len() - 1 implies (#[trigger] run[i + 1]).wf()
                        && decided(run[i], target.label@, target.extension@, wanted as nat) == Ok::<
                        Outcome,
                        Seq<char>,
                    >(Outcome::Shrink(run[i + 1].width as nat, run[i + 1].height as nat)) by {
                        if i < before.len() - 1 {
                            assert(run[i + 1] == before[i + 1]);
                        }
                    }
                }
            },
        }
        rounds = rounds + 1;
    }
    let mut text = "Could not get this down to ".to_owned();
    text.append(describe(wanted).as_str());
    text.append(". Try a larger target, or resize it first.");
    Err(text)
}

proof fn lemma_roomy(width: nat, height: nat, most_width: nat, most_height: nat)
    requires
        width <= most_width,
        height <= most_height,
        roomy(most_width, most_height),
    ensures
        roomy(width, height),
{
    assert(width * height <= most_width * most_height) by (nonlinear_arith)
        requires
            width <= most_width,
            height <= most_height,
    ;
}

/// Filling a file up never takes it past the size that was asked for.
pub proof fn law_padding_never_overshoots(bytes: Seq<u8>, extension: Seq<char>, wanted: nat)
    ensures
        padded(bytes, extension, wanted) matches Ok(longer) ==> bytes.len() <= longer.len()
            <= bytes.len() + wanted,
{
    law_comments_fill_the_room(wanted);
    lemma_end_chunk_inside(bytes, 8);
}

/// A JPEG is filled up to within four bytes of the size that was asked for. A
/// PNG that has its end chunk reaches it exactly once a chunk with text fits.
pub proof fn law_padding_reaches_the_size(bytes: Seq<u8>, extension: Seq<char>, wanted: nat)
    requires
        wanted <= MOST_PADDING,
    ensures
        is_jpeg(extension) && starts_jpeg(bytes) ==> padded(bytes, extension, wanted) is Ok && padded(
            bytes,
            extension,
            wanted,
        )->Ok_0.len() + 4 >= bytes.len() + wanted,
        extension == "png"@ && end_chunk(bytes, 8) is Some && wanted > 20 ==> padded(
            bytes,
            extension,
            wanted,
        ) is Ok && padded(bytes, extension, wanted)->Ok_0.len() == bytes.len() + wanted,
{
    law_comments_fill_the_room(wanted);
    lemma_end_chunk_inside(bytes, 8);
    reveal_strlit("png");
    reveal_strlit("jpg");
    reveal_strlit("jpeg");
    assert("png"@[0] == 'p' && "jpg"@[0] == 'j' && "jpeg"@[0] == 'j');
}

/// A picture is only given up where both of its sides would come under thirty-two
/// pixels: a long thin one may still shrink.
pub proof fn law_a_thin_picture_may_still_shrink(
    image: Picture,
    label: Seq<char>,
    extension: Seq<char>,
    wanted: nat,
)
    requires
        searched(image, label, extension, wanted) == Ok::<
            Option<(Option<u8>, Seq<u8>)>,
            Seq<char>,
        >(None),
        encoded(image, label, extension, 15) is Ok,
    ensures
        ({
            let floor = encoded(image, label, extension, 15)->Ok_0.len();
            let width = scaled_side(image.width as nat, shrink_ratio(wanted, floor));
            let height = scaled_side(image.height as nat, shrink_ratio(wanted, floor));
            match decided(image, label, extension, wanted) {
                Ok(Outcome::Shrink(w, h)) => w == width && h == height && (w >= 32 || h >= 32),
                Ok(Outcome::Done(_, _)) => false,
                Err(message) => width < 32 && height < 32 && message == described(wanted)
                    + " is too small a target for this picture: it would have to shrink past 32 pixels."@,
            }
        }),
{
}

/// A search may take five rounds, and gives up after them.
pub proof fn law_five_rounds_are_allowed(
    run: Seq<Picture>,
    label: Seq<char>,
    extension: Seq<char>,
    wanted: nat,
    r: Result<Fit, String>,
)
    requires
        run.len() > 0,
        concludes(run, label, extension, wanted, r),
    ensures
        run.len() <= 5 && (decided(run.last(), label, extension, wanted) matches Ok(outcome)
            && outcome is Done) ==> (r matches Ok(fit) && fit.padding == 0 && fit.width
            == run.last().width && fit.height == run.last().height),
        run.len() == 6 ==> (r matches Err(text) && text@ == "Could not get this down to "@
            + described(wanted) + ". Try a larger target, or resize it first."@),
{
}

/// Nothing is added where nothing is wanted, nor to a format that has no place for
/// filler; more than five hundred and twelve megabytes are refused for every format.
pub proof fn law_filler_goes_where_it_is_ignored(bytes: Seq<u8>, extension: Seq<char>, wanted: nat)
    ensures
        wanted == 0 ==> padded(bytes, extension, wanted) == Ok::<Seq<u8>, Seq<char>>(bytes),
        wanted <= 536_870_912 && extension != "jpg"@ && extension != "jpeg"@ && extension != "png"@
            ==> padded(bytes, extension, wanted) == Ok::<Seq<u8>, Seq<char>>(bytes),
        wanted <= 536_870_912 ==> padded(bytes, extension, wanted) is Ok,
        wanted > 536_870_912 ==> padded(bytes, extension, wanted) == Err::<Seq<u8>, Seq<char>>(
            described(wanted) + " is too much padding to add."@,
        ),
{
}

} // verus!
