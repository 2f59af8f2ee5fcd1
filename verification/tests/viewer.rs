use glance::gestures::{clamp_middle, click, is_pannable, scroll, Pan, Panning, Scroll, Zoom};
use glance::crop::PIXEL;
use glance::paths::FilePath;
use glance::viewer::{
    cancel_question, delete_question, edited_subtitle, exported, name_or, removal_failed, removed,
    save_question, saved, Decoded, Dismissal, Landing, Listing, Viewer,
};

fn path(text: &str) -> FilePath {
    FilePath { bytes: text.as_bytes().to_vec() }
}

fn paths(names: &[&str]) -> Vec<FilePath> {
    names.iter().map(|name| path(name)).collect()
}

fn text(path: &FilePath) -> String {
    String::from_utf8(path.bytes.clone()).unwrap()
}

fn image(label: &str) -> Decoded {
    Decoded::Image { label: label.to_string(), width: 640, height: 480 }
}

/// A window with an image up, in a folder of three.
fn showing() -> Viewer {
    let mut viewer = Viewer::new();
    let (generation, _) = viewer.load(&path("/d/b.png"));
    let siblings = Some(paths(&["/d/a.png", "/d/b.png", "/d/c.png"]));
    viewer.landed(generation, &path("/d/b.png"), &path("/d/b.png"), siblings, image("PNG"));
    viewer
}

#[test]
fn a_load_shows_its_name_and_then_its_size() {
    let mut viewer = Viewer::new();
    let (generation, heading) = viewer.load(&path("/d/b.png"));
    assert_eq!((heading.title.as_str(), heading.subtitle.as_str()), ("b.png", "Loading…"));
    let landing = viewer.landed(generation, &path("/d/b.png"), &path("/d/b.png"), None, image("PNG"));
    assert!(matches!(landing, Landing::Show { heading }
        if heading.title == "b.png" && heading.subtitle == "PNG · 640 × 480"));
    assert!(viewer.playlist.is_none());
    assert_eq!(viewer.load(&path("/")).1.title, "Image");
}

#[test]
fn an_overtaken_load_is_discarded() {
    let mut viewer = showing();
    let (slow, _) = viewer.load(&path("/d/a.png"));
    let (fast, _) = viewer.load(&path("/d/c.png"));
    let landing =
        viewer.landed(slow, &path("/d/a.png"), &path("/d/a.png"), Some(Vec::new()), image("GIF"));
    assert!(matches!(landing, Landing::Superseded));
    assert_eq!(viewer.playlist.as_ref().unwrap().len(), 3);
    assert_eq!(viewer.fail().title, "b.png");
    let landing = viewer.landed(fast, &path("/d/c.png"), &path("/d/c.png"), None, image("GIF"));
    assert!(matches!(landing, Landing::Show { heading } if heading.title == "c.png"));
}

#[test]
fn a_failed_load_restores_the_heading() {
    let mut viewer = showing();
    let (generation, _) = viewer.load(&path("/d/c.png"));
    let failed = Decoded::Failed { message: "no".to_string() };
    let landing = viewer.landed(generation, &path("/d/c.png"), &path("/d/c.png"), None, failed);
    assert!(matches!(landing, Landing::Fail { heading, message }
        if heading.title == "b.png" && heading.subtitle == "PNG · 640 × 480" && message == "no"));
    let idle = Viewer::new().fail();
    assert_eq!((idle.title.as_str(), idle.subtitle.as_str()), ("Simple Viewer", ""));
}

#[test]
fn navigation_is_off_while_busy() {
    let mut viewer = showing();
    assert!(viewer.update_navigation());
    assert!(viewer.set_transform_open(true, true));
    assert!(!viewer.update_navigation());
    assert!(viewer.set_transform_open(false, true));
    assert!(!viewer.set_editing(true));
    assert!(!viewer.update_navigation());
    assert!(viewer.set_editing(false));
    assert!(viewer.update_navigation());
    let mut empty = Viewer::new();
    assert!(!empty.update_navigation());
    assert!(!empty.set_transform_open(true, false));
    assert!(!empty.transform_open);
    assert!(!empty.set_editing(false));
    assert!(empty.step(1).is_none());
}

#[test]
fn stepping_moves_through_the_folder() {
    let mut viewer = showing();
    assert_eq!(viewer.step(1).map(|p| text(&p)), Some("/d/c.png".to_string()));
    assert_eq!(viewer.step(1).map(|p| text(&p)), Some("/d/a.png".to_string()));
    assert_eq!(viewer.step(-2).map(|p| text(&p)), Some("/d/b.png".to_string()));
}

#[test]
fn escape_leaves_what_is_on_top() {
    let mut viewer = showing();
    assert_eq!(viewer.dismiss(false), Dismissal::Nothing);
    viewer.set_editing(true);
    assert_eq!(viewer.dismiss(false), Dismissal::AskToCancel);
    viewer.set_transform_open(true, true);
    assert_eq!(viewer.dismiss(false), Dismissal::CloseTransform);
    assert_eq!(viewer.dismiss(true), Dismissal::LeaveFullscreen);
}

#[test]
fn a_listing_is_folded_in() {
    let here = path("/d/b.png");
    let mut viewer = showing();
    let stale = viewer.apply_listing(paths(&["/d/x.png"]), &path("/d/x.png"), &path("/d/x.png"));
    assert!(matches!(stale, Listing::Stale));

    let fresh = paths(&["/d/b.png", "/d/c.png"]);
    assert!(matches!(viewer.apply_listing(fresh, &here, &here), Listing::Kept));
    assert_eq!(viewer.playlist.as_ref().unwrap().len(), 2);
    assert_eq!(viewer.playlist.as_ref().unwrap().index(), 0);

    // Gone: what stood next to it is next.
    let gone = viewer.apply_listing(paths(&["/d/c.png", "/d/z.png"]), &here, &here);
    assert!(matches!(gone, Listing::Load { next } if text(&next) == "/d/c.png"));

    // A lone file has no list; when it goes, the first one left is next.
    let mut lone = Viewer::new();
    lone.load(&here);
    assert!(matches!(lone.apply_listing(paths(&["/d/b.png"]), &here, &here), Listing::Kept));
    assert!(lone.playlist.is_none());
    let gone = lone.apply_listing(paths(&["/d/q.png"]), &here, &here);
    assert!(matches!(gone, Listing::Load { next } if text(&next) == "/d/q.png"));
    assert!(matches!(lone.apply_listing(Vec::new(), &here, &here), Listing::Empty));
}

#[test]
fn a_removed_file_gives_way_to_its_neighbour() {
    let mut viewer = showing();
    let next = |viewer: &Viewer, name: &str| viewer.replacement(&path(name)).map(|p| text(&p));
    assert_eq!(next(&viewer, "/d/b.png"), Some("/d/c.png".to_string()));
    assert_eq!(next(&viewer, "/d/c.png"), Some("/d/b.png".to_string()));
    assert_eq!(next(&viewer, "/d/x.png"), None);
    let heading = viewer.show_empty();
    assert_eq!(heading.title, "Simple Viewer");
    assert!(viewer.current.is_none() && viewer.playlist.is_none() && viewer.shown.is_none());
    assert_eq!(viewer.generation, 1);
    assert_eq!(next(&viewer, "/d/b.png"), None);
}

#[test]
fn questions_name_the_file() {
    let file = path("/d/b.png");
    assert_eq!(
        save_question(&file),
        "“b.png” will be overwritten with these edits, and the original \
         cannot be brought back. Export writes a copy instead."
    );
    assert_eq!(delete_question(&file), "“b.png” will be removed from this folder.");
    assert_eq!(delete_question(&path("/")), "“this image” will be removed from this folder.");
    assert_eq!(removal_failed(&file, "busy"), "Could not remove “b.png”: busy");
    assert_eq!(removed(true), "Image deleted.");
    assert_eq!(removed(false), "Image moved to the bin.");
    assert_eq!(cancel_question(true), "Your unsaved changes to this image will be lost.");
    assert_eq!(cancel_question(false), "This will close the editor.");
    assert_eq!(saved(&file), "Saved b.png");
    assert_eq!(exported(&file), "Exported b.png");
    assert_eq!(exported(&path("/")), "Exported ");
    assert_eq!(edited_subtitle(3, 4), "Edited · 3 × 4");
    assert_eq!(name_or(&FilePath { bytes: b"\xff".to_vec() }, "x"), "\u{fffd}");
}

#[test]
fn a_click_is_no_drag() {
    let mut panning = Panning::new();
    assert_eq!(panning.moved(true, 0, PIXEL - 1, true), Pan::Stay);
    assert_eq!(panning.moved(false, 5 * PIXEL, 0, true), Pan::Stay);
    assert_eq!(panning.moved(true, -PIXEL, 0, true), Pan::Begin { rebase: true });
    assert_eq!(panning.moved(true, 0, 0, true), Pan::Follow);
    panning.rest();
    assert_eq!(panning.moved(true, 0, PIXEL, false), Pan::Begin { rebase: false });
    assert_eq!(click(2, true, true), Zoom::Actual);
    assert_eq!(click(2, true, false), Zoom::Fit);
    assert_eq!(click(1, true, true), Zoom::Stay);
    assert_eq!(click(2, false, true), Zoom::Stay);
}

#[test]
fn the_image_stays_glued_to_the_window() {
    // Twice the middle, for an image 300 long in a window of 100.
    assert_eq!(clamp_middle(1000, 300, 100), 300);
    assert_eq!(clamp_middle(-1000, 300, 100), -100);
    assert_eq!(clamp_middle(41, 300, 100), 41);
    assert_eq!(clamp_middle(41, 80, 100), 100);
    assert!(is_pannable(101 * PIXEL, 0, 100 * PIXEL, 50 * PIXEL));
    assert!(!is_pannable(100 * PIXEL + PIXEL / 2, 0, 100 * PIXEL, 50 * PIXEL));
    assert!(is_pannable(0, 51 * PIXEL, 100 * PIXEL, 50 * PIXEL));
}

#[test]
fn fingers_pan_and_the_wheel_zooms() {
    assert_eq!(scroll(true, true, false), Scroll::Pan);
    assert_eq!(scroll(true, false, false), Scroll::Zoom);
    assert_eq!(scroll(true, true, true), Scroll::Zoom);
    assert_eq!(scroll(true, false, true), Scroll::Zoom);
    for (surface, control) in [(true, true), (true, false), (false, true), (false, false)] {
        assert_eq!(scroll(false, surface, control), Scroll::Ignore);
    }
}
