use glance::compress::{Fit, KB, MB};
use glance::crop::{Aspect, Handle, PIXEL};
use glance::draw::Tool;
use glance::export::{targets, Target};
use glance::panel::{
    chosen_tool, describe_aim, describe_fit, describe_selection, describe_size,
    describe_target_size, describe_tool, describe_words, plan_export, quality, quality_can_be_set,
    sections, shapes, size_pulled, size_typed, size_wanted, ExportStep, Section, Sections,
};
use glance::paths::FilePath;

fn path(text: &str) -> FilePath {
    FilePath { bytes: text.as_bytes().to_vec() }
}

fn target(label: &str) -> Target {
    targets().into_iter().find(|t| t.label == label).unwrap()
}

#[test]
fn the_other_side_follows_as_doubles_round() {
    for natural in [(1u32, 1u32), (3, 2), (4000, 3000), (6000, 4000), (1, 30_000), (30_000, 7)] {
        let ratio = f64::from(natural.0) / f64::from(natural.1).max(1e-9);
        for side in [1u32, 2, 3, 5, 77, 999, 1920, 4000, 29_999, 30_000] {
            let height = (f64::from(side) / ratio).round().max(1.0) as u32;
            assert_eq!(size_typed(natural, side, 9, true, true), (side, height), "{natural:?}");
            let width = (f64::from(side) * ratio).round().max(1.0) as u32;
            assert_eq!(size_typed(natural, 9, side, true, false), (width, side), "{natural:?}");
            assert_eq!(size_typed(natural, side, 9, false, true), (side, 9));
        }
        let own = natural;
        assert_eq!(size_typed(natural, own.0, 5, true, true), own);
        assert_eq!(size_typed(natural, 5, own.1, true, false), own);
    }
}

#[test]
fn sizes_are_described_against_the_original() {
    assert_eq!(describe_size((640, 480), (640, 480)), "Original size, 640 × 480");
    for (width, natural) in [(320u32, 640u32), (1, 640), (1, 200), (3, 200), (999, 1000), (5, 8), (7, 3)] {
        let percent = f64::from(width) / f64::from(natural).max(1e-9) * 100.0;
        assert_eq!(
            describe_size((width, 10), (natural, 480)),
            format!("From {natural} × 480 — {percent:.0}% of the width")
        );
    }
    assert_eq!(describe_selection(Some((12, 34))), "Selection: 12 × 34 px");
    assert_eq!(describe_selection(None), "Draw an area to keep");
}

#[test]
fn a_size_to_aim_at_is_a_number_and_a_unit() {
    assert_eq!(size_wanted(false, 500, false), None);
    assert_eq!(size_wanted(true, 500, false), Some(500 * KB));
    assert_eq!(size_wanted(true, 3, true), Some(3 * MB));
    assert_eq!(size_wanted(true, 0, true), Some(MB));
    assert_eq!(size_wanted(true, u64::MAX / 2, true), Some(u64::MAX));
}

#[test]
fn quality_stays_on_the_dial() {
    assert_eq!(quality(false, 50), None);
    assert_eq!(quality(true, 50), Some(50));
    assert_eq!(quality(true, -3), Some(1));
    assert_eq!(quality(true, 1000), Some(100));
    assert!(quality_can_be_set(true, false));
    assert!(!quality_can_be_set(true, true));
    assert!(!quality_can_be_set(false, false));
}

#[test]
fn the_size_note_says_what_will_happen() {
    assert_eq!(
        describe_target_size(Some(500 * KB), true, None).unwrap(),
        "Quality will be dialled to land just under 500 KB, and the picture \
         scaled down only if quality alone cannot get there."
    );
    assert_eq!(
        describe_target_size(Some(500 * KB), false, Some(1)).unwrap(),
        "This format has no quality dial, so 500 KB can only be reached by \
         scaling the picture down. JPEG will hold more detail at a size."
    );
    assert_eq!(describe_target_size(None, true, Some(KB)).unwrap(), "This file is 1 KB on disk.");
    assert_eq!(describe_target_size(None, true, None), None);
    assert_eq!(describe_aim(500 * KB), "Working towards 500 KB…");
}

#[test]
fn an_export_says_what_it_took() {
    let fit = |quality, width, height, padding| Fit {
        bytes: vec![0; 2048],
        quality,
        width,
        height,
        padding,
    };
    assert_eq!(describe_fit(&fit(None, 4, 3, 0), (4, 3)), "Wrote 2 KB.");
    assert_eq!(describe_fit(&fit(Some(72), 4, 3, 0), (4, 3)), "Wrote 2 KB — quality 72.");
    assert_eq!(
        describe_fit(&fit(Some(72), 2, 3, 1024), (4, 3)),
        "Wrote 2 KB — quality 72, scaled to 2 × 3, 1 KB of padding."
    );
    assert_eq!(describe_fit(&fit(None, 4, 3, 1024), (4, 3)), "Wrote 2 KB — 1 KB of padding.");
}

#[test]
fn the_sidebar_has_seven_sections() {
    let names: Vec<&str> = sections().iter().map(|entry| entry.1).collect();
    assert_eq!(names, ["Rotate & Flip", "Crop", "Resize", "Adjust", "Draw", "Text", "Export"]);
    assert_eq!(sections()[0].0, Section::Rotate);
}

#[test]
fn grips_pull_the_size() {
    let pull = |grip: Handle, dx: i64, dy: i64, keep: bool| {
        size_pulled((400, 200), (400, 200), grip, dx * PIXEL, dy * PIXEL, keep)
    };
    assert_eq!(pull(Handle::East, 100, 70, false), (500, 200));
    assert_eq!(pull(Handle::West, 100, 70, false), (300, 200));
    assert_eq!(pull(Handle::North, 9, -50, false), (400, 250));
    assert_eq!(pull(Handle::SouthEast, 10, 20, false), (410, 220));
    assert_eq!(pull(Handle::East, 100, 0, true), (500, 250));
    assert_eq!(pull(Handle::South, 0, 100, true), (600, 300));
    // At a corner the side that changed by more of itself leads.
    assert_eq!(pull(Handle::SouthEast, 100, 0, true), (500, 250));
    assert_eq!(pull(Handle::NorthWest, 10, 100, true), (200, 100));
    assert_eq!(pull(Handle::Inside, 50, 50, false), (400, 200));
    assert_eq!(pull(Handle::West, 5000, 0, false), (1, 200));
    assert_eq!(pull(Handle::East, 50_000, 0, false), (30_000, 200));
    let half = size_pulled((400, 200), (400, 200), Handle::East, PIXEL / 2, 0, false);
    assert_eq!(half, (401, 200));
    let far = size_pulled((1, 1), (u32::MAX, 0), Handle::NorthWest, i64::MIN, i64::MAX, false);
    assert_eq!(far, (30_000, 1));
}

#[test]
fn one_section_is_open_at_a_time() {
    let all = [
        Section::Rotate,
        Section::Crop,
        Section::Resize,
        Section::Adjust,
        Section::Draw,
        Section::Text,
        Section::Export,
    ];
    let open = |s: &Sections| all.iter().copied().filter(|x| s.is_open(*x)).collect::<Vec<_>>();
    let mut sections = Sections::new();
    assert_eq!(open(&sections), []);
    for section in all {
        sections.toggle(section, true);
        assert_eq!(open(&sections), [section]);
    }
    sections.toggle(Section::Crop, false);
    assert_eq!(open(&sections), [Section::Export]);
    sections.leave();
    assert_eq!(open(&sections), [Section::Export]);
    sections.toggle(Section::Draw, true);
    sections.pixels_replaced();
    assert_eq!(open(&sections), [Section::Draw]);
    sections.start_anew();
    assert_eq!(open(&sections), []);
    sections.toggle(Section::Adjust, true);
    sections.start_anew();
    assert_eq!(open(&sections), [Section::Adjust]);
    sections.leave();
    assert_eq!(open(&sections), []);
    sections.toggle(Section::Text, true);
    sections.pixels_replaced();
    assert_eq!(open(&sections), []);
}

#[test]
fn shapes_to_crop_to() {
    let list = shapes();
    let labels: Vec<&str> = list.iter().map(|s| s.label).collect();
    assert_eq!(labels, ["Free", "1:1", "4:5", "5:4", "3:2", "2:3", "16:9", "9:16"]);
    assert_eq!(list[0].aspect, None);
    assert_eq!(list[6].aspect, Some(Aspect { across: 16, down: 9 }));
}

#[test]
fn the_tool_in_hand_is_the_one_pressed() {
    let pressed = vec![false, false, false, true, false, false];
    assert_eq!(chosen_tool(true, &pressed), Some(Tool::Arrow));
    assert_eq!(chosen_tool(false, &pressed), None);
    assert_eq!(chosen_tool(true, &vec![false; 6]), None);
    assert_eq!(describe_tool(Some(Tool::Highlighter)), "Drag on the picture to draw.");
    assert_eq!(
        describe_tool(Some(Tool::Line)),
        "Drag on the picture from one corner to the other."
    );
    assert_eq!(describe_tool(None), "Pick a tool, then drag on the picture.");
    assert_eq!(describe_words(true, false), "Drag it into place on the picture.");
    assert_eq!(describe_words(false, true), "Click a piece of text on the picture to select it.");
    assert_eq!(describe_words(false, false), "Add lays a new line in the middle of the view.");
}

#[test]
fn an_export_is_refused_before_a_name_is_asked_for() {
    let source = path("/home/me/holiday.photo.png");
    let step = plan_export(Some(&source), Some(&target("ICO")), Some((300, 20)));
    assert!(matches!(step, ExportStep::Refused { reason } if reason.contains("300 × 20")));
    let step = plan_export(Some(&source), Some(&target("JPEG")), Some((300, 20)));
    assert!(matches!(step, ExportStep::Ask { title, initial_name }
        if title == "Export as JPEG" && initial_name == "holiday.photo.jpg"));
    let step = plan_export(Some(&path("/")), Some(&target("ICO")), None);
    assert!(matches!(step, ExportStep::Ask { initial_name, .. } if initial_name == "image.ico"));
    let step = plan_export(Some(&path("/a/.hidden")), Some(&target("PNG")), None);
    assert!(matches!(step, ExportStep::Ask { initial_name, .. } if initial_name == ".hidden.png"));
    assert!(matches!(plan_export(None, Some(&target("PNG")), None), ExportStep::Nothing));
    assert!(matches!(plan_export(Some(&source), None, None), ExportStep::Nothing));
}
