//! The strip of neighbouring images along the bottom.
//!
//! How many thumbnails fit is decided from the width actually handed to the
//! strip. The current image sits in the middle, and the strip never shows the
//! same file twice: a folder of three images gets three slots, not a repeating
//! carousel.

use vstd::arithmetic::div_mod::{lemma_fundamental_div_mod, lemma_mod_bound, lemma_small_mod};
use vstd::prelude::*;

use crate::paths::{alike, FilePath};
use crate::wording::{append_decimal, decimal, in_decimal};

verus! {

/// Big enough to recognise a photo, small enough that several fit.
pub const THUMB_W: i32 = 76;

pub const THUMB_H: i32 = 58;

pub const SPACING: i32 = 4;

/// Past this the thumbnails stop helping and start costing decodes.
pub const MAX_SLOTS: usize = 11;

/// Longest edge a thumbnail is generated at, in pixels. Twice the slot size so it
/// still looks sharp on a dense screen.
pub const THUMB_EDGE: u32 = 160;

/// How many slots fit into a width: one at least, and no more than help.
pub open spec fn fitting_slots(available: int) -> int {
    if available <= 0 {
        1
    } else {
        let fits = (available + SPACING) / (THUMB_W + SPACING);
        if fits < 1 {
            1
        } else if fits > MAX_SLOTS {
            MAX_SLOTS as int
        } else {
            fits
        }
    }
}

/// A wider strip shows no fewer thumbnails, a narrow one still shows one, and none
/// shows more than help.
pub proof fn law_a_wider_strip_shows_no_fewer(narrow: int, wide: int)
    requires
        narrow <= wide,
    ensures
        1 <= fitting_slots(narrow) <= fitting_slots(wide) <= MAX_SLOTS,
{
}

/// Works out how many slots fit.
pub fn slots_that_fit(available: i32) -> (r: usize)
    ensures
        r == fitting_slots(available as int),
{
    if available <= 0 {
        return 1;
    }
    let fits: i64 = (available as i64 + SPACING as i64) / (THUMB_W as i64 + SPACING as i64);
    if fits < 1 {
        1
    } else if fits > 11 {
        MAX_SLOTS
    } else {
        fits as usize
    }
}

/// What the strip shows.
pub struct Strip {
    /// Which file each slot shows, by its place in the folder.
    pub targets: Vec<usize>,
    /// Where in the folder one is, for a person.
    pub counter: String,
}

/// Which file a slot shows: the current one in the middle, its neighbours to
/// either side, wrapping at both ends.
pub open spec fn target_of(slot: int, slots: int, index: int, count: int) -> int {
    (index + slot - slots / 2) % count
}

/// How many slots a folder gets: never more than it has files.
pub open spec fn slots_for(available: int, count: int) -> int {
    if fitting_slots(available) <= count {
        fitting_slots(available)
    } else {
        count
    }
}

/// Lays the strip out. `None` for one image, or none: there is nothing to browse.
pub fn layout(count: usize, index: usize, available: i32) -> (r: Option<Strip>)
    requires
        index < count || count < 2,
        count <= isize::MAX,
    ensures
        match r {
            None => count < 2,
            Some(strip) => {
                let slots = slots_for(available as int, count as int);
                &&& count >= 2
                &&& strip.targets@.len() == slots
                &&& forall|slot: int|
                    0 <= slot < slots ==> #[trigger] strip.targets@[slot] == target_of(
                        slot,
                        slots,
                        index as int,
                        count as int,
                    )
                &&& strip.counter@ == decimal((index + 1) as nat) + "/"@ + decimal(count as nat)
            },
        },
{
    if count < 2 {
        return None;
    }
    let fits: usize = slots_that_fit(available);
    let slots: usize = if fits <= count { fits } else { count };
    let centre: usize = slots / 2;
    let mut targets: Vec<usize> = Vec::new();
    let mut slot: usize = 0;
    while slot < slots
        invariant
            slot <= slots,
            slots <= 11,
            slots <= count,
            centre == slots as int / 2,
            2 <= count <= isize::MAX,
            index < count,
            targets@.len() == slot,
            forall|i: int|
                0 <= i < slot ==> #[trigger] targets@[i] == target_of(
                    i,
                    slots as int,
                    index as int,
                    count as int,
                ),
        decreases slots - slot,
    {
        let ahead: usize = index + slot;
        let target: usize = if ahead < centre {
            ahead + count - centre
        } else if ahead - centre >= count {
            ahead - centre - count
        } else {
            ahead - centre
        };
        proof {
            let n: int = index + slot - centre;
            if ahead < centre {
                vstd::arithmetic::div_mod::lemma_mod_add_multiples_vanish(n, count as int);
                lemma_small_mod((n + count) as nat, count as nat);
            } else if ahead - centre >= count {
                vstd::arithmetic::div_mod::lemma_mod_sub_multiples_vanish(n, count as int);
                lemma_small_mod((n - count) as nat, count as nat);
            } else {
                lemma_small_mod(n as nat, count as nat);
            }
        }
        targets.push(target);
        slot = slot + 1;
    }
    let mut counter = in_decimal(index as u64 + 1);
    counter.append("/");
    append_decimal(&mut counter, count as u64);
    Some(Strip { targets, counter })
}

/// The middle slot shows the current image, and no two slots show the same file.
pub proof fn law_no_file_shows_twice(slots: int, index: int, count: int, a: int, b: int)
    requires
        0 < slots <= count,
        0 <= index < count,
        0 <= a < b < slots,
    ensures
        target_of(slots / 2, slots, index, count) == index,
        target_of(a, slots, index, count) != target_of(b, slots, index, count),
        0 <= target_of(a, slots, index, count) < count,
{
    lemma_small_mod(index as nat, count as nat);
    let x: int = index + a - slots / 2;
    let y: int = index + b - slots / 2;
    lemma_mod_bound(x, count);
    if x % count == y % count {
        lemma_fundamental_div_mod(x, count);
        lemma_fundamental_div_mod(y, count);
        let (p, q): (int, int) = (x / count, y / count);
        assert(false) by (nonlinear_arith)
            requires
                y - x == count * q - count * p,
                0 < y - x,
                y - x < count,
        ;
    }
}

/// The slots that show a file, for a thumbnail that comes late: the strip may have
/// moved on, so only those still showing this file are filled.
pub fn slots_showing(showing: &Vec<FilePath>, path: &FilePath) -> (r: Vec<usize>)
    ensures
        forall|i: int|
            0 <= i < r@.len() ==> (#[trigger] r@[i]) < showing@.len() && alike(showing@[r@[i] as int]@, path@),
        forall|slot: usize|
            slot < showing@.len() && alike((#[trigger] showing@[slot as int])@, path@) ==> r@.contains(slot),
        forall|i: int, j: int| 0 <= i < j < r@.len() ==> r@[i] < r@[j],
{
    let mut r: Vec<usize> = Vec::new();
    let mut at: usize = 0;
    while at < showing.len()
        invariant
            at <= showing@.len(),
            forall|i: int|
                0 <= i < r@.len() ==> (#[trigger] r@[i]) < at && alike(showing@[r@[i] as int]@, path@),
            forall|slot: usize|
                slot < at && alike((#[trigger] showing@[slot as int])@, path@) ==> r@.contains(slot),
            forall|i: int, j: int| 0 <= i < j < r@.len() ==> r@[i] < r@[j],
        decreases showing@.len() - at,
    {
        let ghost before = r@;
        if showing[at].same(path) {
            r.push(at);
        }
        proof {
            assert forall|slot: usize| slot < at + 1 && alike((#[trigger] showing@[slot as int])@, path@) implies
                r@.contains(slot) by {
                if slot < at {
                    let k = choose|k: int| 0 <= k < before.len() && before[k] == slot;
                    assert(before.contains(slot));
                    assert(r@[k] == slot);
                } else {
                    assert(r@[r@.len() - 1] == at);
                }
            }
        }
        at = at + 1;
    }
    r
}

/// The strip shows as many files as there is room for, the gaps between them counted,
/// never more than there are, never none, and no more than eleven.
pub proof fn law_the_strip_fills_its_room(available: int, count: int)
    requires
        count >= 1,
    ensures
        ({
            let slots = slots_for(available, count);
            &&& 1 <= slots <= count
            &&& slots <= 11
            &&& slots > 1 ==> 76 * slots + 4 * (slots - 1) <= available
            &&& slots < count && slots < 11 ==> 76 * (slots + 1) + 4 * slots > available
        }),
{
}

/// The files next to each other in the strip are next to each other in the folder, and
/// the last one is followed by the first.
pub proof fn law_neighbours_stay_neighbours(slots: int, index: int, count: int, slot: int)
    requires
        0 < slots <= count,
        0 <= index < count,
        0 <= slot,
        slot + 1 < slots,
    ensures
        ({
            let here = target_of(slot, slots, index, count);
            let next = target_of(slot + 1, slots, index, count);
            next == (if here + 1 == count {
                0
            } else {
                here + 1
            })
        }),
{
    let a: int = index + slot - slots / 2;
    vstd::arithmetic::div_mod::lemma_fundamental_div_mod(a, count);
    vstd::arithmetic::mul::lemma_mul_is_commutative(count, a / count);
    let here: int = a % count;
    vstd::arithmetic::div_mod::lemma_mod_bound(a, count);
    if here + 1 == count {
        vstd::arithmetic::mul::lemma_mul_is_distributive_add_other_way(count, a / count, 1);
        vstd::arithmetic::div_mod::lemma_fundamental_div_mod_converse(
            a + 1,
            count,
            a / count + 1,
            0,
        );
    } else {
        vstd::arithmetic::div_mod::lemma_fundamental_div_mod_converse(
            a + 1,
            count,
            a / count,
            here + 1,
        );
    }
}

} // verus!
