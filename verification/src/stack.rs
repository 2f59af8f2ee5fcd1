//! What is laid over the picture stacks in the order it was made, and the newest
//! of it is taken back first.

use vstd::prelude::*;

verus! {

/// Whether one thing lies below another, by when they were made; by their places
/// where that is the same.
pub open spec fn lies_below(sequences: Seq<u64>, a: usize, b: usize) -> bool {
    sequences[a as int] < sequences[b as int] || (sequences[a as int] == sequences[b as int] && a < b)
}

/// Whether places are those of the first so many things, each of them once, from the
/// oldest to the newest.
pub open spec fn is_stack(sequences: Seq<u64>, places: Seq<usize>, count: nat) -> bool {
    &&& places.len() == count
    &&& forall|i: int| 0 <= i < count ==> #[trigger] places[i] < count
    &&& forall|place: usize| place < count ==> #[trigger] places.contains(place)
    &&& forall|i: int, j: int|
        0 <= i < j < count ==> lies_below(sequences, #[trigger] places[i], #[trigger] places[j])
}

/// Puts things in the order they were made: their places, from the oldest to the
/// newest.
pub fn stacked(sequences: &Vec<u64>) -> (r: Vec<usize>)
    ensures
        is_stack(sequences@, r@, sequences@.len()),
{
    let mut r: Vec<usize> = Vec::new();
    let mut at: usize = 0;
    while at < sequences.len()
        invariant
            at <= sequences@.len(),
            is_stack(sequences@, r@, at as nat),
        decreases sequences@.len() - at,
    {
        let made: u64 = sequences[at];
        let mut below: usize = r.len();
        while below > 0 && sequences[r[below - 1]] > made
            invariant
                at < sequences@.len(),
                made == sequences@[at as int],
                is_stack(sequences@, r@, at as nat),
                below <= r@.len(),
                forall|i: int| below <= i < r@.len() ==> sequences@[#[trigger] r@[i] as int] > made,
            decreases below,
        {
            below = below - 1;
        }
        let ghost before = r@;
        r.insert(below, at);
        proof {
            lemma_one_more(sequences@, before, at, below as int);
        }
        at = at + 1;
    }
    r
}

/// One more thing, put above all that are no newer, makes a stack of a stack.
proof fn lemma_one_more(sequences: Seq<u64>, places: Seq<usize>, at: usize, below: int)
    requires
        at < sequences.len(),
        is_stack(sequences, places, at as nat),
        0 <= below <= places.len(),
        below > 0 ==> sequences[places[below - 1] as int] <= sequences[at as int],
        forall|i: int|
            below <= i < places.len() ==> sequences[#[trigger] places[i] as int]
                > sequences[at as int],
    ensures
        is_stack(sequences, places.insert(below, at), (at + 1) as nat),
{
    let more = places.insert(below, at);
    assert forall|place: usize| place < at + 1 implies #[trigger] more.contains(place) by {
        if place == at {
            assert(more[below] == place);
        } else {
            assert(places.contains(place));
            let i = choose|i: int| 0 <= i < places.len() && places[i] == place;
            assert(more[if i < below { i } else { i + 1 }] == place);
        }
    }
    assert forall|i: int| 0 <= i < at + 1 implies #[trigger] more[i] < at + 1 by {
        if i < below {
            assert(more[i] == places[i]);
        } else if i > below {
            assert(more[i] == places[i - 1]);
        }
    }
    assert forall|i: int, j: int| 0 <= i < j < at + 1 implies lies_below(
        sequences,
        #[trigger] more[i],
        #[trigger] more[j],
    ) by {
        let a = if i < below { i } else { i - 1 };
        let b = if j < below { j } else { j - 1 };
        if i != below && j != below {
            assert(more[i] == places[a] && more[j] == places[b]);
            assert(lies_below(sequences, places[a], places[b]));
        } else if j == below {
            assert(more[i] == places[i]);
            assert(places[i] < at);
            if i < below - 1 {
                assert(lies_below(sequences, places[i], places[below - 1]));
            }
        } else {
            assert(more[j] == places[b]);
        }
    }
}

/// What is laid over a picture.
#[derive(Clone, Copy, PartialEq, Eq, Structural, Debug)]
pub enum Layer {
    Mark,
    Text,
}

/// Which is the newest, of the last mark and the last piece of text.
pub open spec fn newest_of(mark: Option<u64>, text: Option<u64>) -> Option<Layer> {
    match (mark, text) {
        (None, None) => None,
        (Some(_), None) => Some(Layer::Mark),
        (None, Some(_)) => Some(Layer::Text),
        (Some(drawn), Some(typed)) => if drawn > typed {
            Some(Layer::Mark)
        } else {
            Some(Layer::Text)
        },
    }
}

/// Finds what to take back first.
pub fn newest(mark: Option<u64>, text: Option<u64>) -> (r: Option<Layer>)
    ensures
        r == newest_of(mark, text),
{
    match (mark, text) {
        (None, None) => None,
        (Some(_), None) => Some(Layer::Mark),
        (None, Some(_)) => Some(Layer::Text),
        (Some(drawn), Some(typed)) => if drawn > typed {
            Some(Layer::Mark)
        } else {
            Some(Layer::Text)
        },
    }
}

/// There is one way to stack things, so what is drawn and what is written out lie
/// over each other alike.
pub proof fn law_there_is_one_stack(sequences: Seq<u64>, a: Seq<usize>, b: Seq<usize>)
    requires
        is_stack(sequences, a, sequences.len()),
        is_stack(sequences, b, sequences.len()),
    ensures
        a == b,
{
    lemma_no_first_difference(sequences, a, b, sequences.len() as int);
    assert(a =~= b);
}

/// Two stacks of the same things agree in as many places as one likes.
proof fn lemma_no_first_difference(sequences: Seq<u64>, a: Seq<usize>, b: Seq<usize>, upto: int)
    requires
        is_stack(sequences, a, sequences.len()),
        is_stack(sequences, b, sequences.len()),
        0 <= upto <= sequences.len(),
    ensures
        forall|i: int| 0 <= i < upto ==> a[i] == b[i],
    decreases upto,
{
    if upto > 0 {
        lemma_no_first_difference(sequences, a, b, upto - 1);
        let at = upto - 1;
        lemma_next_is_no_higher(sequences, a, b, at);
        lemma_next_is_no_higher(sequences, b, a, at);
    }
}

/// Where two stacks agree so far, the next thing in one lies no higher than the next
/// in the other.
proof fn lemma_next_is_no_higher(sequences: Seq<u64>, a: Seq<usize>, b: Seq<usize>, at: int)
    requires
        is_stack(sequences, a, sequences.len()),
        is_stack(sequences, b, sequences.len()),
        0 <= at < sequences.len(),
        forall|i: int| 0 <= i < at ==> a[i] == b[i],
    ensures
        a[at] == b[at] || lies_below(sequences, a[at], b[at]),
{
    let place = b[at];
    assert(place < sequences.len());
    assert(a.contains(place));
    let i = choose|i: int| 0 <= i < a.len() && a[i] == place;
    if i < at {
        assert(b[i] == b[at]);
        assert(lies_below(sequences, b[i], b[at]));
    } else if i > at {
        assert(lies_below(sequences, a[at], a[i]));
    }
}

/// What is taken back first is what lies on top: of a text and a mark, the one that the
/// stack ends in, and the only one where there is no other.
pub proof fn law_the_top_is_taken_back_first(drawn: u64, typed: u64, places: Seq<usize>)
    requires
        is_stack(seq![typed, drawn], places, 2),
        drawn != typed,
    ensures
        newest_of(Some(drawn), Some(typed)) == Some(
            if places[1] == 1 {
                Layer::Mark
            } else {
                Layer::Text
            },
        ),
        newest_of(Some(drawn), None) == Some(Layer::Mark),
        newest_of(None, Some(typed)) == Some(Layer::Text),
        newest_of(None, None) is None,
{
    let sequences = seq![typed, drawn];
    assert(lies_below(sequences, places[0], places[1]));
    assert(places[0] < 2 && places[1] < 2);
    assert(sequences[0] == typed && sequences[1] == drawn);
}

} // verus!
