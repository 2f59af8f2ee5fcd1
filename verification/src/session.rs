//! One image being edited: the pixels so far, and the way back and forth
//! through the edits made to them.

use crate::picture::Picture;
use crate::wording::{append_decimal, decimal};
use vstd::prelude::*;

verus! {

/// How many states of history are kept. Each is a full copy of the image, so
/// this trades memory for depth the way every editor has to.
pub const HISTORY_LIMIT: usize = 8;

/// An edit session, which belongs to one image.
pub struct Session {
    /// The pixels as edited so far, once they have been read.
    pub working: Option<Picture>,
    /// What the pixels were before each edit, the oldest first.
    pub history: Vec<Picture>,
    /// What has been undone, the last undone at the end.
    pub undone: Vec<Picture>,
    /// Whether anything was edited since the file was last read or written.
    pub dirty: bool,
}

/// A session as values.
pub struct Editing {
    pub working: Option<Picture>,
    pub past: Seq<Picture>,
    pub ahead: Seq<Picture>,
    pub dirty: bool,
}

impl View for Session {
    type V = Editing;

    open spec fn view(&self) -> Editing {
        Editing {
            working: self.working,
            past: self.history@,
            ahead: self.undone@,
            dirty: self.dirty,
        }
    }
}

impl Editing {
    /// A session in which nothing has happened.
    pub open spec fn fresh() -> Editing {
        Editing { working: None, past: Seq::empty(), ahead: Seq::empty(), dirty: false }
    }

    /// No more states are kept than the limit allows.
    pub open spec fn wf(self) -> bool {
        self.past.len() + self.ahead.len() <= HISTORY_LIMIT
    }

    /// A state put on the history: the oldest makes room, and what had been
    /// undone is out of reach.
    pub open spec fn remembering(self, previous: Picture) -> Editing {
        let all = self.past.push(previous);
        Editing {
            working: self.working,
            past: if all.len() > HISTORY_LIMIT {
                all.drop_first()
            } else {
                all
            },
            ahead: Seq::empty(),
            dirty: true,
        }
    }

    /// An edit that turned one picture into another.
    pub open spec fn edited(self, previous: Picture, baked: Picture) -> Editing {
        Editing { working: Some(baked), ..self.remembering(previous) }
    }

    /// One step back, where there is one.
    pub open spec fn back(self) -> Editing {
        if self.past.len() == 0 {
            self
        } else {
            Editing {
                working: Some(self.past.last()),
                past: self.past.drop_last(),
                ahead: match self.working {
                    Some(current) => self.ahead.push(current),
                    None => self.ahead,
                },
                dirty: self.dirty,
            }
        }
    }

    /// One step forth, where one was taken back.
    pub open spec fn forth(self) -> Editing {
        if self.ahead.len() == 0 {
            self
        } else {
            Editing {
                working: Some(self.ahead.last()),
                past: match self.working {
                    Some(current) => self.past.push(current),
                    None => self.past,
                },
                ahead: self.ahead.drop_last(),
                dirty: self.dirty,
            }
        }
    }

    /// The same session with the pixels at hand.
    pub open spec fn reading(self, image: Picture) -> Editing {
        Editing { working: Some(image), ..self }
    }

    /// Whether there is something to undo, something to redo, and something unsaved.
    pub open spec fn offered(self, has_marks: bool, has_text: bool) -> (bool, bool, bool) {
        (self.past.len() > 0 || has_marks || has_text, self.ahead.len() > 0, self.dirty)
    }

    /// What is to be done about pending edits.
    pub open spec fn baking(self, on_screen: bool, pending: bool, cropped: bool) -> Bake {
        if !on_screen {
            Bake::Nothing
        } else if self.working is None {
            Bake::NotReady
        } else if !pending && !cropped {
            Bake::Nothing
        } else {
            Bake::Start
        }
    }

    /// Some number of steps back.
    pub open spec fn back_by(self, steps: nat) -> Editing
        decreases steps,
    {
        if steps == 0 {
            self
        } else {
            self.back().back_by((steps - 1) as nat)
        }
    }

    /// The session once a picture has been written over the file.
    pub open spec fn written(image: Picture) -> Editing {
        Editing { working: Some(image), ..Editing::fresh() }
    }
}

/// What the line about pending edits says.
pub open spec fn edit_note(steps: nat) -> Seq<char> {
    if steps == 0 {
        "Edited. Save to write it back."@
    } else if steps == 1 {
        "1 edit. Save to write it back."@
    } else {
        decimal(steps) + " edits. Save to write it back."@
    }
}

/// What the buttons and the line about pending edits show.
pub struct EditState {
    pub undo: bool,
    pub redo: bool,
    pub note_visible: bool,
    pub note: String,
}

/// What asking for everything pending to be folded in comes to.
#[derive(Clone, Copy, PartialEq, Eq, Structural, Debug)]
pub enum Bake {
    /// There is nothing to do.
    Nothing,
    /// The pixels have not been read yet.
    NotReady,
    /// The pending edits are to be applied.
    Start,
}

/// What asking to save comes to.
#[derive(Clone, Copy, PartialEq, Eq, Structural, Debug)]
pub enum Saving {
    /// No file is open.
    Nothing,
    /// The file is as it would be written.
    NoChanges,
    /// The file would be overwritten, which is worth asking about.
    Ask,
}

impl Session {
    /// The limit on what is kept.
    pub open spec fn wf(self) -> bool {
        self@.wf()
    }

    /// A session in which nothing has happened.
    pub fn new() -> (r: Session)
        ensures
            r@ == Editing::fresh(),
            r.wf(),
    {
        let r = Session { working: None, history: Vec::new(), undone: Vec::new(), dirty: false };
        proof {
            assert(r@.past =~= Seq::empty());
            assert(r@.ahead =~= Seq::empty());
        }
        r
    }

    /// Throws the session away.
    pub fn reset_editing(&mut self)
        ensures
            final(self)@ == Editing::fresh(),
            final(self).wf(),
    {
        *self = Session::new();
    }

    /// Whether the file has to be read before anything can be edited: there is
    /// one, and its pixels are not here yet.
    pub fn needs_reading(&self, file_open: bool) -> (r: bool)
        ensures
            r == (self@.working is None && file_open),
    {
        self.working.is_none() && file_open
    }

    /// Takes the pixels that were read.
    pub fn opened(&mut self, image: Picture)
        requires
            old(self).wf(),
        ensures
            final(self)@ == old(self)@.reading(image),
            final(self).wf(),
    {
        self.working = Some(image);
    }

    /// What folding everything pending into the pixels asks for.
    pub fn bake(&self, on_screen: bool, pending: bool, cropped: bool) -> (r: Bake)
        ensures
            r == self@.baking(on_screen, pending, cropped),
    {
        if !on_screen {
            Bake::Nothing
        } else if self.working.is_none() {
            Bake::NotReady
        } else if !pending && !cropped {
            Bake::Nothing
        } else {
            Bake::Start
        }
    }

    /// Keeps what the pixels were, so that an edit can be undone.
    pub fn push_history(&mut self, previous: Picture)
        requires
            old(self).wf(),
        ensures
            final(self)@ == old(self)@.remembering(previous),
            final(self).wf(),
    {
        self.history.push(previous);
        if self.history.len() > HISTORY_LIMIT {
            self.history.remove(0);
            proof {
                assert(self.history@ =~= old(self).history@.push(previous).drop_first());
            }
        }
        self.undone = Vec::new();
        self.dirty = true;
        proof {
            assert(self@.ahead =~= Seq::empty());
        }
    }

    /// Takes the outcome of an edit: the pixels before it and after it.
    pub fn baked(&mut self, previous: Picture, baked: Picture)
        requires
            old(self).wf(),
        ensures
            final(self)@ == old(self)@.edited(previous, baked),
            final(self).wf(),
    {
        self.push_history(previous);
        self.working = Some(baked);
    }

    /// Goes one edit back. Says whether there was one.
    pub fn undo(&mut self) -> (r: bool)
        requires
            old(self).wf(),
        ensures
            r == (old(self)@.past.len() > 0),
            final(self)@ == old(self)@.back(),
            final(self).wf(),
    {
        match self.history.pop() {
            None => false,
            Some(previous) => {
                let current = self.working.take();
                self.working = Some(previous);
                if let Some(current) = current {
                    self.undone.push(current);
                }
                proof {
                    assert(self@.past =~= old(self)@.past.drop_last());
                }
                true
            },
        }
    }

    /// Goes one edit forth again. Says whether one had been undone.
    pub fn redo(&mut self) -> (r: bool)
        requires
            old(self).wf(),
        ensures
            r == (old(self)@.ahead.len() > 0),
            final(self)@ == old(self)@.forth(),
            final(self).wf(),
    {
        match self.undone.pop() {
            None => false,
            Some(next) => {
                let current = self.working.take();
                self.working = Some(next);
                if let Some(current) = current {
                    self.history.push(current);
                }
                proof {
                    assert(self@.ahead =~= old(self)@.ahead.drop_last());
                }
                true
            },
        }
    }

    /// The picture went over the file, so the session carries on from it with
    /// nothing left pending.
    pub fn saved(&mut self, image: Picture)
        ensures
            final(self)@ == Editing::written(image),
            final(self).wf(),
    {
        *self = Session::new();
        self.working = Some(image);
    }

    /// Whether there is anything that leaving would lose.
    pub fn unsaved(&self, pending: bool) -> (r: bool)
        ensures
            r == (self@.dirty || pending),
    {
        self.dirty || pending
    }

    /// What asking to save comes to.
    pub fn save_default(&self, file_open: bool, pending: bool) -> (r: Saving)
        ensures
            r == (if !file_open {
                Saving::Nothing
            } else if self@.dirty || pending {
                Saving::Ask
            } else {
                Saving::NoChanges
            }),
    {
        if !file_open {
            Saving::Nothing
        } else if self.unsaved(pending) {
            Saving::Ask
        } else {
            Saving::NoChanges
        }
    }

    /// What the buttons and the line about pending edits show. Strokes and words
    /// still lying on the picture can be undone as well.
    pub fn update_edit_state(&self, has_marks: bool, has_text: bool) -> (r: EditState)
        ensures
            (r.undo, r.redo, r.note_visible) == self@.offered(has_marks, has_text),
            r.note@ == edit_note(self@.past.len()),
    {
        let steps: usize = self.history.len();
        let note = if steps == 0 {
            "Edited. Save to write it back.".to_owned()
        } else if steps == 1 {
            "1 edit. Save to write it back.".to_owned()
        } else {
            let mut note = String::new();
            append_decimal(&mut note, steps as u64);
            note.append(" edits. Save to write it back.");
            proof {
                assert(note@ =~= edit_note(steps as nat));
            }
            note
        };
        EditState {
            undo: steps > 0 || has_marks || has_text,
            redo: self.undone.len() > 0,
            note_visible: self.dirty,
            note,
        }
    }
}

/// Redoing what was just undone leaves the session as it was.
pub proof fn law_redo_takes_an_undo_back(session: Editing)
    requires
        session.working is Some,
        session.past.len() > 0,
    ensures
        session.back().forth() == session,
{
    let there = session.back();
    assert(there.ahead.drop_last() =~= session.ahead);
    assert(there.past.push(there.working->Some_0) =~= session.past);
}

/// Undoing what was just redone leaves the session as it was.
pub proof fn law_undo_takes_a_redo_back(session: Editing)
    requires
        session.working is Some,
        session.ahead.len() > 0,
    ensures
        session.forth().back() == session,
{
    let there = session.forth();
    assert(there.past.drop_last() =~= session.past);
    assert(there.ahead.push(there.working->Some_0) =~= session.ahead);
}

/// Undoing an edit brings back the pixels that were edited, and keeps the edit
/// at hand.
pub proof fn law_an_edit_can_be_undone(session: Editing, previous: Picture, baked: Picture)
    requires
        session.wf(),
    ensures
        session.edited(previous, baked).back().working == Some(previous),
        session.edited(previous, baked).back().forth() == session.edited(previous, baked),
{
    let after = session.edited(previous, baked);
    assert(after.past.last() == previous);
    law_redo_takes_an_undo_back(after);
}

/// Undoing as often as there are edits kept ends at the oldest state kept, with
/// every state on the way at hand again.
pub proof fn law_undoing_everything_reaches_the_oldest(session: Editing)
    requires
        session.working is Some,
        session.past.len() > 0,
    ensures
        session.back_by(session.past.len()).working == Some(session.past[0]),
        session.back_by(session.past.len()).past.len() == 0,
        session.back_by(session.past.len()).ahead.len() == session.ahead.len()
            + session.past.len(),
    decreases session.past.len(),
{
    let there = session.back();
    if session.past.len() > 1 {
        law_undoing_everything_reaches_the_oldest(there);
        assert(there.past[0] == session.past[0]);
    } else {
        assert(there.back_by(0) == there);
    }
}

/// Neither undoing nor redoing makes the session forget that it was edited; only
/// writing or leaving does.
pub proof fn law_stepping_keeps_what_is_unsaved(session: Editing, steps: nat)
    ensures
        session.back_by(steps).dirty == session.dirty,
        session.forth().dirty == session.dirty,
    decreases steps,
{
    if steps > 0 {
        law_stepping_keeps_what_is_unsaved(session.back(), (steps - 1) as nat);
    }
}

/// The history keeps the newest eight states in their order: an edit adds the state
/// before it, drops the oldest where there is no more room, and leaves nothing to redo.
pub proof fn law_history_keeps_the_newest(
    session: Editing,
    previous: Picture,
    baked: Picture,
    back: int,
)
    requires
        session.wf(),
    ensures
        ({
            let after = session.edited(previous, baked);
            let (n, m) = (session.past.len() as int, after.past.len() as int);
            &&& m == (if n < 8 {
                n + 1
            } else {
                8
            })
            &&& after.past[m - 1] == previous
            &&& 1 <= back < m ==> after.past[m - 1 - back] == session.past[n - back]
            &&& after.ahead.len() == 0
            &&& after.dirty
            &&& after.working == Some(baked)
        }),
{
}

/// After a file is written there is nothing to undo, nothing to redo and nothing unsaved,
/// and its pixels stay at hand; a fresh start has not even those.
pub proof fn law_writing_starts_anew(image: Picture)
    ensures
        Editing::written(image).working == Some(image),
        Editing::written(image).back() == Editing::written(image),
        Editing::written(image).forth() == Editing::written(image),
        !Editing::written(image).dirty,
        Editing::fresh().working is None,
        Editing::fresh().back() == Editing::fresh(),
        Editing::fresh().forth() == Editing::fresh(),
        !Editing::fresh().dirty,
{
}

/// Marks and text that are not baked yet can be taken back and never brought back, and
/// whether there is anything unsaved does not depend on them.
pub proof fn law_marks_can_be_taken_back(session: Editing, has_marks: bool, has_text: bool)
    ensures
        session.offered(has_marks, has_text).0 <==> session.past.len() >= 1 || has_marks || has_text,
        session.offered(has_marks, has_text).1 == session.offered(false, false).1,
        session.offered(has_marks, has_text).2 == session.offered(false, false).2,
        session.working is Some && session.past.len() > 0 ==> session.back().offered(
            has_marks,
            has_text,
        ).1,
        session.forth() != session ==> session.offered(has_marks, has_text).1,
{
}

/// Pending edits and a crop are baked alike, whichever there is, and only onto pixels
/// that were read and are on screen.
pub proof fn law_either_edit_is_baked(
    session: Editing,
    on_screen: bool,
    pending: bool,
    cropped: bool,
)
    ensures
        session.baking(on_screen, pending, cropped) == session.baking(on_screen, cropped, pending),
        session.baking(on_screen, pending, cropped) is Start <==> on_screen && session.working
            is Some && (pending || cropped),
        session.baking(on_screen, pending, cropped) is NotReady <==> on_screen && session.working
            is None,
{
}

/// Reading the pixels takes no edit back, forgets none, and saves none.
pub proof fn law_reading_changes_no_history(session: Editing, image: Picture)
    ensures
        session.reading(image).working == Some(image),
        session.reading(image).past == session.past,
        session.reading(image).ahead == session.ahead,
        session.reading(image).dirty == session.dirty,
{
}

} // verus!
