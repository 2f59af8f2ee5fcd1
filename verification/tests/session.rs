use glance::picture::Picture;
use glance::session::{Bake, Saving, Session, HISTORY_LIMIT};

fn picture(shade: u8) -> Picture {
    Picture { width: 1, height: 1, rgba: vec![shade; 4] }
}

fn shade(picture: &Option<Picture>) -> Option<u8> {
    picture.as_ref().map(|p| p.rgba[0])
}

/// A session with this many edits, the pixels counting up from zero.
fn edited(edits: u8) -> Session {
    let mut session = Session::new();
    session.opened(picture(0));
    for edit in 0..edits {
        session.baked(picture(edit), picture(edit + 1));
    }
    session
}

#[test]
fn undo_and_redo_walk_the_edits() {
    let mut session = edited(3);
    assert_eq!(shade(&session.working), Some(3));
    for expected in [2, 1, 0] {
        assert!(session.undo());
        assert_eq!(shade(&session.working), Some(expected));
    }
    assert!(!session.undo());
    assert_eq!(shade(&session.working), Some(0));
    for expected in [1, 2, 3] {
        assert!(session.redo());
        assert_eq!(shade(&session.working), Some(expected));
    }
    assert!(!session.redo());
    assert!(session.dirty);
}

#[test]
fn a_new_edit_forgets_what_was_undone() {
    let mut session = edited(2);
    assert!(session.undo());
    session.baked(picture(1), picture(9));
    assert!(!session.redo());
    assert!(session.undo());
    assert_eq!(shade(&session.working), Some(1));
}

#[test]
fn history_keeps_the_newest_states() {
    let mut session = edited(12);
    assert_eq!(session.history.len(), HISTORY_LIMIT);
    let mut steps = 0;
    while session.undo() {
        steps += 1;
    }
    assert_eq!(steps, 8);
    assert_eq!(shade(&session.working), Some(4));
}

#[test]
fn saving_starts_clean() {
    let mut session = edited(3);
    session.saved(picture(77));
    assert_eq!(shade(&session.working), Some(77));
    assert!(!session.dirty && session.history.is_empty() && session.undone.is_empty());
    assert!(!session.unsaved(false));
    assert!(session.unsaved(true));
    let mut session = edited(3);
    session.reset_editing();
    assert!(session.working.is_none() && !session.dirty);
    assert!(session.needs_reading(true));
    assert!(!session.needs_reading(false));
    assert!(!edited(0).needs_reading(true));
}

#[test]
fn baking_needs_pixels_and_something_to_bake() {
    let empty = Session::new();
    let open = edited(0);
    assert_eq!(empty.bake(false, true, true), Bake::Nothing);
    assert_eq!(empty.bake(true, true, false), Bake::NotReady);
    assert_eq!(open.bake(true, false, false), Bake::Nothing);
    assert_eq!(open.bake(true, true, false), Bake::Start);
    assert_eq!(open.bake(true, false, true), Bake::Start);
}

#[test]
fn saving_asks_only_about_changes() {
    assert_eq!(edited(1).save_default(false, true), Saving::Nothing);
    assert_eq!(edited(0).save_default(true, false), Saving::NoChanges);
    assert_eq!(edited(0).save_default(true, true), Saving::Ask);
    assert_eq!(edited(1).save_default(true, false), Saving::Ask);
}

#[test]
fn the_panel_says_how_many_edits_there_are() {
    let note = |edits: u8| edited(edits).update_edit_state(false, false).note;
    assert_eq!(note(0), "Edited. Save to write it back.");
    assert_eq!(note(1), "1 edit. Save to write it back.");
    assert_eq!(note(5), "5 edits. Save to write it back.");

    let state = edited(0).update_edit_state(false, false);
    assert!(!state.undo && !state.redo && !state.note_visible);
    assert!(edited(0).update_edit_state(true, false).undo);
    assert!(edited(0).update_edit_state(false, true).undo);
    let mut session = edited(1);
    session.undo();
    let state = session.update_edit_state(false, false);
    assert!(!state.undo && state.redo && state.note_visible);
}
