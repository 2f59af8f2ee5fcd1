use glance::angles::{angle_typed, normalise, quarter, turn_to, DEGREE};
use glance::export::Quarters;

#[test]
fn typed_angles_wrap() {
    for (typed, shown) in [(400, 40), (-200, 160), (720, 0), (90, 90), (180, -180), (-180, -180), (2, 2)] {
        assert_eq!(normalise(typed * DEGREE), shown * DEGREE, "{typed}");
    }
    for angle in [i64::MIN, i64::MAX, -1, 0, 1, 12_345_678_901_234] {
        let folded = normalise(angle);
        assert!((-180 * DEGREE..180 * DEGREE).contains(&folded));
        assert_eq!((i128::from(angle) - i128::from(folded)) % i128::from(360 * DEGREE), 0);
        assert_eq!(normalise(folded), folded);
    }
}

#[test]
fn turning_goes_the_short_way() {
    assert_eq!(turn_to(170 * DEGREE, -100 * DEGREE), Some(260 * DEGREE));
    assert_eq!(turn_to(730 * DEGREE, 10 * DEGREE), None);
    assert_eq!(turn_to(730 * DEGREE, 0), Some(720 * DEGREE));
    assert_eq!(turn_to(-350 * DEGREE, 5 * DEGREE), Some(-355 * DEGREE));
}

#[test]
fn quarter_turns_are_recognised() {
    assert_eq!(quarter(0), Some(Quarters::Zero));
    assert_eq!(quarter(90 * DEGREE), Some(Quarters::One));
    assert_eq!(quarter(-90 * DEGREE), Some(Quarters::Three));
    assert_eq!(quarter(-180 * DEGREE), Some(Quarters::Two));
    assert_eq!(quarter(450 * DEGREE + 600), Some(Quarters::One));
    assert_eq!(quarter(90 * DEGREE + 655), Some(Quarters::One));
    assert_eq!(quarter(90 * DEGREE - 655), Some(Quarters::One));
    assert_eq!(quarter(655), Some(Quarters::Zero));
    assert_eq!(quarter(656), None);
    assert_eq!(quarter(90 * DEGREE + 656), None);
    assert_eq!(quarter(45 * DEGREE), None);
    assert_eq!(quarter(360 * DEGREE - 100), None);
}

#[test]
fn typed_text_is_read_as_an_angle() {
    for (text, shown) in [
        ("400", 40 * DEGREE),
        ("-200", 160 * DEGREE),
        ("720", 0),
        ("90°", 90 * DEGREE),
        (" 90 ° ", 90 * DEGREE),
        ("+2", 2 * DEGREE),
        ("2.5", 5 * DEGREE / 2),
        (".5", DEGREE / 2),
        ("-.25", -DEGREE / 4),
        ("7.", 7 * DEGREE),
        ("0.000008", 1),
        ("0.0000079999", 0),
        ("0.1", 6554),
        ("36000000000000000000000000000000000000090", 90 * DEGREE),
    ] {
        assert_eq!(angle_typed(text), Some(shown), "{text}");
    }
    for text in ["", " ", "°", ".", "-", "ninety", "9o", "1.2.3", "--1", "1e3", "5 5", "\u{663}"] {
        assert_eq!(angle_typed(text), None, "{text}");
    }
}
