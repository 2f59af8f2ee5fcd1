use glance::settings::{accels, load_theme, Theme};

#[test]
fn a_saved_theme_is_read_back() {
    for theme in [Theme::Light, Theme::Dark, Theme::System] {
        assert_eq!(load_theme(theme.name()), theme);
    }
    assert_eq!(load_theme(" \n dark\u{00A0}\t"), Theme::Dark);
    assert_eq!(load_theme("light\n"), Theme::Light);
    assert_eq!(load_theme("DARK"), Theme::System);
    assert_eq!(load_theme(""), Theme::System);
    assert_eq!(load_theme("dark light"), Theme::System);
}

#[test]
fn typing_keeps_its_keys() {
    let table = accels();
    let entry = |action: &str| table.iter().find(|a| a.action == action).unwrap();
    assert_eq!(entry("win.delete").idle, ["Delete"]);
    assert!(entry("win.delete").typing.is_empty());
    assert!(entry("win.save").typing.contains(&"<Primary>s"));
    assert_eq!(entry("win.export").idle, ["<Primary><Shift>s"]);
    for accel in &table {
        for key in &accel.typing {
            assert!(accel.idle.contains(key), "{} {key}", accel.action);
            assert!(key.len() > 1, "{} {key}", accel.action);
        }
    }
}
