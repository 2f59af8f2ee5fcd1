use glance::filmstrip::{layout, slots_showing, slots_that_fit, MAX_SLOTS};
use glance::paths::FilePath;

fn path(text: &str) -> FilePath {
    FilePath { bytes: text.as_bytes().to_vec() }
}

#[test]
fn as_many_slots_as_fit() {
    assert_eq!(slots_that_fit(-5), 1);
    assert_eq!(slots_that_fit(0), 1);
    assert_eq!(slots_that_fit(75), 1);
    assert_eq!(slots_that_fit(155), 1);
    assert_eq!(slots_that_fit(156), 2);
    assert_eq!(slots_that_fit(i32::MAX), MAX_SLOTS);
}

#[test]
fn the_current_image_sits_in_the_middle() {
    let strip = layout(10, 0, 400).unwrap();
    assert_eq!(strip.targets, [8, 9, 0, 1, 2]);
    assert_eq!(strip.counter, "1/10");
    let strip = layout(10, 9, 400).unwrap();
    assert_eq!(strip.targets, [7, 8, 9, 0, 1]);
    assert_eq!(strip.counter, "10/10");
}

#[test]
fn no_file_shows_twice() {
    for count in 2..20 {
        for index in 0..count {
            for available in [0, 200, 500, 1000, 5000] {
                let mut targets = layout(count, index, available).unwrap().targets;
                assert!(targets.contains(&index));
                let shown = targets.len();
                targets.sort();
                targets.dedup();
                assert_eq!(targets.len(), shown, "{count} {index} {available}");
            }
        }
    }
    assert!(layout(1, 0, 500).is_none());
    assert!(layout(0, 0, 500).is_none());
}

#[test]
fn a_thumbnail_goes_to_every_slot_of_its_file() {
    let showing = vec![path("a"), path("b"), path("a")];
    assert_eq!(slots_showing(&showing, &path("a")), [0, 2]);
    assert_eq!(slots_showing(&showing, &path("c")), []);
}
