//! Paths as the system spells them: bytes, with slashes between the parts.

use vstd::prelude::*;
use vstd::utf8::{decode_utf8, valid_utf8};

use crate::wording::same_bytes;

verus! {

/// Where a file is. The bytes are the system's own, which need not be text.
pub struct FilePath {
    pub bytes: Vec<u8>,
}

impl View for FilePath {
    type V = Seq<u8>;

    open spec fn view(&self) -> Seq<u8> {
        self.bytes@
    }
}

/// A path without the slashes and the single dots that it ends in.
pub open spec fn trimmed(path: Seq<u8>) -> Seq<u8>
    decreases path.len(),
{
    if path.len() >= 1 && path.last() == 0x2F {
        trimmed(path.drop_last())
    } else if path.len() >= 2 && path.last() == 0x2E && path[path.len() - 2] == 0x2F {
        trimmed(path.drop_last())
    } else {
        path
    }
}

/// What stands between the slashes of a path, and before the first and behind the
/// last of them.
pub open spec fn between_slashes(path: Seq<u8>) -> Seq<Seq<u8>>
    decreases path.len(),
{
    if path.len() == 0 {
        seq![Seq::empty()]
    } else {
        let less = between_slashes(path.drop_last());
        if path.last() == 0x2F {
            less.push(Seq::empty())
        } else {
            less.drop_last().push(less.last().push(path.last()))
        }
    }
}

/// Those that lead somewhere: not nothing, and no single dot but at the very start.
pub open spec fn leading(parts: Seq<Seq<u8>>) -> Seq<Seq<u8>>
    decreases parts.len(),
{
    if parts.len() == 0 {
        Seq::empty()
    } else {
        let part = parts.last();
        if part.len() == 0 || (part == seq![0x2Eu8] && parts.len() > 1) {
            leading(parts.drop_last())
        } else {
            leading(parts.drop_last()).push(part)
        }
    }
}

/// What a path is made of: whether it starts at the root, and its parts from there.
pub open spec fn components(path: Seq<u8>) -> (bool, Seq<Seq<u8>>) {
    (path.len() > 0 && path[0] == 0x2F, leading(between_slashes(path)))
}

/// Whether two paths lead the same way, however many slashes and single dots they
/// spell it with.
pub open spec fn alike(a: Seq<u8>, b: Seq<u8>) -> bool {
    components(a) == components(b)
}

/// What stands behind the last of some byte, or everything where there is none.
pub open spec fn behind_last(bytes: Seq<u8>, mark: u8) -> Seq<u8>
    decreases bytes.len(),
{
    if bytes.len() == 0 || bytes.last() == mark {
        Seq::empty()
    } else {
        behind_last(bytes.drop_last(), mark).push(bytes.last())
    }
}

/// The last part of a path, unless it only says where another directory is.
pub open spec fn name_of(path: Seq<u8>) -> Option<Seq<u8>> {
    let last = behind_last(trimmed(path), 0x2F);
    if last.len() == 0 || last == seq![0x2Eu8] || last == seq![0x2Eu8, 0x2E] {
        None
    } else {
        Some(last)
    }
}

/// What stands behind the last dot of a file's name, a dot at its start aside.
pub open spec fn extension_of(path: Seq<u8>) -> Option<Seq<u8>> {
    match name_of(path) {
        None => None,
        Some(name) => {
            let last = behind_last(name, 0x2E);
            if last.len() + 1 < name.len() {
                Some(last)
            } else {
                None
            }
        },
    }
}

/// A file's name without its extension and the dot before it.
pub open spec fn stem_of(path: Seq<u8>) -> Option<Seq<u8>> {
    match name_of(path) {
        None => None,
        Some(name) => {
            let last = behind_last(name, 0x2E);
            if last.len() + 1 < name.len() {
                Some(name.subrange(0, name.len() - last.len() - 1))
            } else {
                Some(name)
            }
        },
    }
}

/// The text that bytes stand for, what is no text in them replaced.
pub uninterp spec fn lossy_text(bytes: Seq<u8>) -> Seq<char>;

/// `String::from_utf8_lossy` reads bytes as UTF-8. Bytes that are UTF-8 come out
/// as the text they encode; what is not is replaced, in a way left unsaid but
/// for its depending on the bytes alone.
#[verifier::external_body]
pub(crate) fn read_lossily(bytes: &[u8]) -> (r: String)
    ensures
        r@ == lossy_text(bytes@),
        valid_utf8(bytes@) ==> r@ == decode_utf8(bytes@),
{
    String::from_utf8_lossy(bytes).into_owned()
}

/// How long a path is without the slashes and single dots that it ends in.
fn trimmed_length(path: &Vec<u8>) -> (r: usize)
    ensures
        r <= path@.len(),
        path@.subrange(0, r as int) == trimmed(path@),
{
    let mut end: usize = path.len();
    proof {
        assert(path@.subrange(0, end as int) =~= path@);
    }
    while (end >= 1 && path[end - 1] == 0x2F) || (end >= 2 && path[end - 1] == 0x2E && path[end - 2]
        == 0x2F)
        invariant
            end <= path@.len(),
            trimmed(path@.subrange(0, end as int)) == trimmed(path@),
        decreases end,
    {
        proof {
            let kept = path@.subrange(0, end as int);
            assert(kept.drop_last() =~= path@.subrange(0, end - 1));
        }
        end = end - 1;
    }
    end
}

/// Where what stands behind the last of some byte begins.
fn last_start(bytes: &Vec<u8>, end: usize, mark: u8) -> (r: usize)
    requires
        end <= bytes@.len(),
    ensures
        r <= end,
        bytes@.subrange(r as int, end as int) == behind_last(bytes@.subrange(0, end as int), mark),
{
    let mut start: usize = end;
    let ghost all = bytes@.subrange(0, end as int);
    proof {
        assert(behind_last(bytes@.subrange(0, end as int), mark) =~= behind_last(all, mark));
        assert(behind_last(all, mark) + bytes@.subrange(end as int, end as int) =~= behind_last(
            all,
            mark,
        ));
    }
    while start > 0 && bytes[start - 1] != mark
        invariant
            start <= end <= bytes@.len(),
            all == bytes@.subrange(0, end as int),
            behind_last(all, mark) == behind_last(bytes@.subrange(0, start as int), mark)
                + bytes@.subrange(start as int, end as int),
        decreases start,
    {
        proof {
            let kept = bytes@.subrange(0, start as int);
            assert(kept.drop_last() =~= bytes@.subrange(0, start - 1));
            assert(kept.last() == bytes@[start - 1]);
            let less = behind_last(kept.drop_last(), mark);
            assert(less.push(kept.last()) + bytes@.subrange(start as int, end as int) =~= less
                + bytes@.subrange(start - 1, end as int));
        }
        start = start - 1;
    }
    proof {
        let kept = bytes@.subrange(0, start as int);
        if start > 0 {
            assert(kept.last() == bytes@[start - 1]);
        }
        assert(behind_last(kept, mark) =~= Seq::<u8>::empty());
        assert(bytes@.subrange(start as int, end as int) =~= behind_last(all, mark));
    }
    start
}

/// A copy of part of some bytes.
pub(crate) fn part(bytes: &Vec<u8>, from: usize, to: usize) -> (r: Vec<u8>)
    requires
        from <= to <= bytes@.len(),
    ensures
        r@ == bytes@.subrange(from as int, to as int),
{
    let mut r: Vec<u8> = Vec::new();
    let mut at: usize = from;
    while at < to
        invariant
            from <= at <= to <= bytes@.len(),
            r@ == bytes@.subrange(from as int, at as int),
        decreases to - at,
    {
        r.push(bytes[at]);
        at = at + 1;
        proof {
            assert(r@ =~= bytes@.subrange(from as int, at as int));
        }
    }
    r
}

/// The bytes of some parts.
pub open spec fn all_bytes(parts: Seq<Vec<u8>>) -> Seq<Seq<u8>> {
    parts.map_values(|part: Vec<u8>| part@)
}

/// Puts a part behind others, where it leads somewhere.
fn push_part(parts: &mut Vec<Vec<u8>>, part: Vec<u8>, before: Ghost<Seq<Seq<u8>>>, first: bool)
    requires
        all_bytes(old(parts)@) == leading(before@),
        first == (before@.len() == 0),
    ensures
        all_bytes(final(parts)@) == leading(before@.push(part@)),
{
    proof {
        assert(before@.push(part@).drop_last() =~= before@);
        if part@.len() == 1 && part@[0] == 0x2E {
            assert(part@ =~= seq![0x2Eu8]);
        }
    }
    if part.len() == 0 || (part.len() == 1 && part[0] == 0x2E && !first) {
        return;
    }
    let ghost shorter = parts@;
    parts.push(part);
    proof {
        assert(all_bytes(parts@) =~= all_bytes(shorter).push(part@));
    }
}

/// Takes a path apart.
fn parts_of(path: &Vec<u8>) -> (r: Vec<Vec<u8>>)
    ensures
        all_bytes(r@) == leading(between_slashes(path@)),
{
    let mut parts: Vec<Vec<u8>> = Vec::new();
    let mut part: Vec<u8> = Vec::new();
    let mut first: bool = true;
    let mut at: usize = 0;
    let ghost mut before: Seq<Seq<u8>> = Seq::empty();
    proof {
        assert(path@.subrange(0, 0) =~= Seq::<u8>::empty());
        assert(before.push(part@) =~= seq![Seq::<u8>::empty()]);
        assert(all_bytes(parts@) =~= leading(before));
    }
    while at < path.len()
        invariant
            at <= path@.len(),
            between_slashes(path@.subrange(0, at as int)) == before.push(part@),
            all_bytes(parts@) == leading(before),
            first == (before.len() == 0),
        decreases path@.len() - at,
    {
        let byte: u8 = path[at];
        let ghost upto = path@.subrange(0, at + 1);
        proof {
            assert(upto.drop_last() =~= path@.subrange(0, at as int));
            assert(upto.last() == byte);
            assert(before.push(part@).drop_last() =~= before);
        }
        if byte == 0x2F {
            let done = part;
            push_part(&mut parts, done, Ghost(before), first);
            proof {
                before = before.push(done@);
            }
            part = Vec::new();
            first = false;
            proof {
                assert(part@ =~= Seq::<u8>::empty());
            }
        } else {
            part.push(byte);
        }
        at = at + 1;
    }
    proof {
        assert(path@.subrange(0, at as int) =~= path@);
    }
    push_part(&mut parts, part, Ghost(before), first);
    parts
}

impl FilePath {
    /// A copy of the path.
    pub fn copy(&self) -> (r: FilePath)
        ensures
            r@ == self@,
    {
        let bytes = part(&self.bytes, 0, self.bytes.len());
        proof {
            assert(bytes@ =~= self.bytes@);
        }
        FilePath { bytes }
    }

    /// Whether two paths lead the same way.
    pub fn same(&self, other: &FilePath) -> (r: bool)
        ensures
            r == alike(self@, other@),
    {
        let rooted = self.bytes.len() > 0 && self.bytes[0] == 0x2F;
        let other_rooted = other.bytes.len() > 0 && other.bytes[0] == 0x2F;
        if rooted != other_rooted {
            return false;
        }
        let parts = parts_of(&self.bytes);
        let other_parts = parts_of(&other.bytes);
        proof {
            assert(all_bytes(parts@).len() == parts@.len());
            assert(all_bytes(other_parts@).len() == other_parts@.len());
        }
        if parts.len() != other_parts.len() {
            return false;
        }
        let mut at: usize = 0;
        while at < parts.len()
            invariant
                at <= parts@.len() == other_parts@.len(),
                all_bytes(parts@) == components(self@).1,
                all_bytes(other_parts@) == components(other@).1,
                forall|i: int| 0 <= i < at ==> (#[trigger] parts@[i])@ == other_parts@[i]@,
            decreases parts@.len() - at,
        {
            if !same_bytes(parts[at].as_slice(), other_parts[at].as_slice()) {
                proof {
                    assert(all_bytes(parts@)[at as int] != all_bytes(other_parts@)[at as int]);
                }
                return false;
            }
            at = at + 1;
        }
        proof {
            assert(all_bytes(parts@) =~= all_bytes(other_parts@));
        }
        true
    }

    /// The bytes of the last part of the path.
    pub fn name_bytes(&self) -> (r: Option<Vec<u8>>)
        ensures
            match r {
                Some(name) => name_of(self@) == Some(name@),
                None => name_of(self@) is None,
            },
    {
        let end: usize = trimmed_length(&self.bytes);
        let start: usize = last_start(&self.bytes, end, 0x2F);
        let name = part(&self.bytes, start, end);
        proof {
            if name@.len() == 1 && name@[0] == 0x2E {
                assert(name@ =~= seq![0x2Eu8]);
            }
            if name@.len() == 2 && name@[0] == 0x2E && name@[1] == 0x2E {
                assert(name@ =~= seq![0x2Eu8, 0x2E]);
            }
        }
        if name.len() == 0 || (name.len() == 1 && name[0] == 0x2E) || (name.len() == 2 && name[0]
            == 0x2E && name[1] == 0x2E) {
            None
        } else {
            Some(name)
        }
    }

    /// The bytes of the extension.
    pub fn extension_bytes(&self) -> (r: Option<Vec<u8>>)
        ensures
            match r {
                Some(extension) => extension_of(self@) == Some(extension@),
                None => extension_of(self@) is None,
            },
    {
        let name = match self.name_bytes() {
            Some(name) => name,
            None => return None,
        };
        let start: usize = last_start(&name, name.len(), 0x2E);
        proof {
            assert(name@.subrange(0, name@.len() as int) =~= name@);
        }
        if start >= 2 {
            Some(part(&name, start, name.len()))
        } else {
            None
        }
    }

    /// The bytes of the file's name without its extension.
    pub fn stem_bytes(&self) -> (r: Option<Vec<u8>>)
        ensures
            match r {
                Some(stem) => stem_of(self@) == Some(stem@),
                None => stem_of(self@) is None,
            },
    {
        let name = match self.name_bytes() {
            Some(name) => name,
            None => return None,
        };
        let start: usize = last_start(&name, name.len(), 0x2E);
        proof {
            assert(name@.subrange(0, name@.len() as int) =~= name@);
        }
        if start >= 2 {
            Some(part(&name, 0, start - 1))
        } else {
            Some(name)
        }
    }
}

/// A name is its stem, a dot and its extension where it has one, and its stem alone
/// where it has none; the extension holds no dot, and neither the stem nor the name is
/// empty or holds a slash.
pub proof fn law_a_name_is_its_stem_and_extension(path: Seq<u8>)
    ensures
        (name_of(path) is Some) == (stem_of(path) is Some),
        name_of(path) is None ==> extension_of(path) is None,
        name_of(path) matches Some(name) ==> {
            let stem = stem_of(path)->0;
            &&& name.len() > 0 && stem.len() > 0
            &&& forall|i: int| 0 <= i < name.len() ==> #[trigger] name[i] != 0x2F
            &&& match extension_of(path) {
                Some(extension) => name == stem + seq![0x2Eu8] + extension && forall|i: int|
                    0 <= i < extension.len() ==> #[trigger] extension[i] != 0x2E,
                None => stem == name && forall|i: int|
                    0 < i < name.len() ==> #[trigger] name[i] != 0x2E,
            }
        },
{
    lemma_behind_last(trimmed(path), 0x2F);
    if let Some(name) = name_of(path) {
        lemma_behind_last(name, 0x2E);
        let last = behind_last(name, 0x2E);
        let n = name.len() - last.len();
        if last.len() + 1 < name.len() {
            assert(name =~= name.subrange(0, n - 1) + seq![0x2Eu8] + last);
        } else {
            assert forall|i: int| 0 < i < name.len() implies #[trigger] name[i] != 0x2E by {
                assert(name.subrange(n, name.len() as int)[i - n] == name[i]);
            }
        }
    }
}

/// What stands behind the last mark is an end of the whole without the mark, and the
/// mark stands in front of it.
proof fn lemma_behind_last(bytes: Seq<u8>, mark: u8)
    ensures
        ({
            let last = behind_last(bytes, mark);
            let n = bytes.len() - last.len();
            &&& 0 <= n
            &&& bytes.subrange(n, bytes.len() as int) == last
            &&& n > 0 ==> bytes[n - 1] == mark
            &&& forall|i: int| 0 <= i < last.len() ==> #[trigger] last[i] != mark
        }),
    decreases bytes.len(),
{
    if bytes.len() > 0 && bytes.last() != mark {
        let fewer = bytes.drop_last();
        lemma_behind_last(fewer, mark);
        let less = behind_last(fewer, mark);
        let last = behind_last(bytes, mark);
        let n = bytes.len() - last.len();
        assert(bytes.subrange(n, bytes.len() as int) =~= last) by {
            assert forall|i: int| 0 <= i < less.len() implies #[trigger] less[i] == bytes[n + i] by {
                assert(fewer.subrange(n, fewer.len() as int)[i] == fewer[n + i]);
            }
        }
    } else if bytes.len() > 0 {
        assert(bytes.subrange(bytes.len() as int, bytes.len() as int) =~= Seq::empty());
    } else {
        assert(bytes.subrange(0, 0) =~= Seq::empty());
    }
}

} // verus!
