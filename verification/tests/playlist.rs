use std::cmp::Ordering;

use glance::paths::FilePath;
use glance::playlist::{file_name, is_image, natural_cmp, siblings, Playlist};

fn path(text: &str) -> FilePath {
    FilePath { bytes: text.as_bytes().to_vec() }
}

fn text(path: &FilePath) -> String {
    String::from_utf8(path.bytes.clone()).unwrap()
}

#[test]
fn digits_sort_by_value() {
    let mut names = vec!["IMG_10.jpg", "IMG_2.jpg", "IMG_1.jpg"];
    names.sort_by(|a, b| natural_cmp(a, b));
    assert_eq!(names, ["IMG_1.jpg", "IMG_2.jpg", "IMG_10.jpg"]);
}

#[test]
fn ordering_ignores_case() {
    assert_eq!(natural_cmp("apple.png", "Banana.png"), Ordering::Less);
}

#[test]
fn neighbour_prefers_the_next_image() {
    let files = vec![path("a"), path("b"), path("c")];
    let list = Playlist::new(files, &path("b")).unwrap();
    assert_eq!(list.neighbour_of(&path("b")).map(|p| text(&p)), Some("c".to_string()));
    assert_eq!(list.neighbour_of(&path("c")).map(|p| text(&p)), Some("b".to_string()));
    assert_eq!(list.neighbour_of(&path("zzz")).map(|p| text(&p)), None);
}

#[test]
fn stepping_wraps_both_ways() {
    let files = vec![path("a"), path("b"), path("c")];
    let mut list = Playlist::new(files, &path("a")).unwrap();
    assert_eq!(text(&list.step(-1)), "c");
    assert_eq!(text(&list.step(1)), "a");
    assert_eq!(list.position(), 1);
    assert_eq!(text(&list.step(-7)), "c");
    assert_eq!(text(&list.step(isize::MAX)), "a");
    assert_eq!(list.index(), (2 + isize::MAX as usize % 3) % 3);
}

#[test]
fn there_is_nothing_to_walk_alone_or_when_lost() {
    assert!(Playlist::new(vec![path("a")], &path("a")).is_none());
    assert!(Playlist::new(vec![path("a"), path("b")], &path("c")).is_none());
    let mut list = Playlist::new(vec![path("a"), path("b")], &path("b")).unwrap();
    assert_eq!((list.len(), list.index(), list.files().len()), (2, 1, 2));
    assert_eq!(list.jump_to(0).map(|p| text(&p)), Some("a".to_string()));
    assert!(list.jump_to(2).is_none());
    assert_eq!(list.position(), 1);
}

#[test]
fn a_run_too_long_to_count_saturates() {
    let nines = "9".repeat(60);
    let more = "1".repeat(61);
    assert_eq!(natural_cmp(&nines, &more), Ordering::Equal);
    assert_eq!(natural_cmp("7", &more), Ordering::Less);
    assert_eq!(natural_cmp("007", "7"), Ordering::Equal);
    assert_eq!(natural_cmp("a7b", "a7"), Ordering::Greater);
    assert_eq!(natural_cmp("", "a"), Ordering::Less);
    assert_eq!(natural_cmp("a", "1"), Ordering::Greater);
}

#[test]
fn images_are_told_by_their_extension() {
    for name in ["/x/a.PNG", "b.svgz", "c.tar.Nef", "./d.jpeg"] {
        assert!(is_image(&path(name)), "{name}");
    }
    for name in ["png", ".png", "a.txt", "a.png/..", "a.pngx", "/", ""] {
        assert!(!is_image(&path(name)), "{name}");
    }
    assert!(is_image(&path("/x/a.png/")));
}

#[test]
fn names_are_the_last_part_of_a_path() {
    for (given, expected) in [("/x/a.png", "a.png"), ("a/b/", "b"), ("a/.", "a"), ("..", ""), ("/", ""), ("x", "x")] {
        assert_eq!(file_name(&path(given)), expected, "{given}");
        let std_name = std::path::Path::new(given).file_name().map(|n| n.to_string_lossy().into_owned());
        assert_eq!(file_name(&path(given)), std_name.unwrap_or_default());
    }
    for given in ["a.b", "a.", ".b", "a", "x/..", "x/.y.z", "a.b/", "a..b"] {
        let ours = path(given).extension_bytes();
        let std = std::path::Path::new(given).extension().map(|e| e.to_string_lossy().into_owned().into_bytes());
        assert_eq!(ours, std, "{given}");
    }
    // What is not text is replaced, not dropped.
    let odd = FilePath { bytes: vec![b'a', 0xFF, b'b'] };
    assert_eq!(file_name(&odd), "a\u{FFFD}b");
}

#[test]
fn a_folder_comes_in_the_order_a_file_manager_shows() {
    let files = ["/d/IMG_10.jpg", "/d/b.png", "/d/A.png", "/c/img_2.jpg", "/d/IMG_2.jpg", "/d/a.png"];
    let given: Vec<FilePath> = files.iter().map(|f| path(f)).collect();
    let ordered: Vec<String> = siblings(&given).iter().map(text).collect();
    // Names that sort alike stay as they stood.
    assert_eq!(
        ordered,
        ["/d/A.png", "/d/a.png", "/d/b.png", "/c/img_2.jpg", "/d/IMG_2.jpg", "/d/IMG_10.jpg"]
    );
}

#[test]
fn paths_are_the_same_where_they_lead_the_same_way() {
    let spellings = [
        "", ".", "./", "./.", "..", "a", "a/", "a/.", "./a", ".//a", "././a", "a/b", "a//b", "a/./b",
        "a/b/", "a/../b", "/", "//", "/.", "/a", "//a", "/./a", "/a/b", "/a//b/.", "a/.b", ".a", "..a",
    ];
    for a in spellings {
        for b in spellings {
            let same = std::path::Path::new(a) == std::path::Path::new(b);
            assert_eq!(path(a).same(&path(b)), same, "{a:?} and {b:?}");
        }
    }
    let files = vec![path("a/b"), path("a/c")];
    let list = Playlist::new(files, &path("a//c")).unwrap();
    assert_eq!(list.index(), 1);
    assert_eq!(list.neighbour_of(&path("a/./b/")).map(|p| text(&p)), Some("a/c".to_string()));
}
