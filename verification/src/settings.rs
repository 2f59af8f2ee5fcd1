//! What the program remembers and listens to: the theme, and the keys.

use vstd::prelude::*;

use crate::format::{margin, tail, without_margin, without_tail};
use crate::order::characters;
use crate::wording::texts;

verus! {

/// How the window is coloured.
#[derive(Clone, Copy, PartialEq, Eq, Structural, Debug)]
pub enum Theme {
    Light,
    Dark,
    /// Whatever the desktop is set to, and it keeps following it.
    System,
}

/// The theme that a saved word stands for, white space around it aside. Anything
/// else means that the desktop decides.
pub open spec fn theme_of(saved: Seq<char>) -> Theme {
    let word = without_tail(without_margin(saved));
    if word == "light"@ {
        Theme::Light
    } else if word == "dark"@ {
        Theme::Dark
    } else {
        Theme::System
    }
}

/// Whether some characters, between two places, are a word.
fn is_word(text: &Vec<char>, start: usize, end: usize, word: &str) -> (r: bool)
    requires
        start <= end <= text@.len(),
    ensures
        r == (text@.subrange(start as int, end as int) == word@),
{
    let letters = characters(word);
    if letters.len() != end - start {
        return false;
    }
    let mut at: usize = 0;
    while at < letters.len()
        invariant
            at <= letters@.len(),
            letters@ == word@,
            start + letters@.len() == end <= text@.len(),
            forall|i: int| 0 <= i < at ==> text@[start + i] == #[trigger] letters@[i],
        decreases letters@.len() - at,
    {
        if text[start + at] != letters[at] {
            proof {
                assert(text@.subrange(start as int, end as int)[at as int] != word@[at as int]);
            }
            return false;
        }
        at = at + 1;
    }
    proof {
        assert(text@.subrange(start as int, end as int) =~= word@);
    }
    true
}

/// Reads the theme that was saved.
pub fn load_theme(saved: &str) -> (r: Theme)
    ensures
        r == theme_of(saved@),
{
    let text = characters(saved);
    let start: usize = margin(&text);
    let end: usize = tail(&text, start, text.len());
    if is_word(&text, start, end, "light") {
        Theme::Light
    } else if is_word(&text, start, end, "dark") {
        Theme::Dark
    } else {
        Theme::System
    }
}

impl Theme {
    /// The word that the theme is saved as.
    pub fn name(self) -> (r: &'static str)
        ensures
            r@ == (match self {
                Theme::Light => "light"@,
                Theme::Dark => "dark"@,
                Theme::System => "system"@,
            }),
    {
        match self {
            Theme::Light => "light",
            Theme::Dark => "dark",
            Theme::System => "system",
        }
    }
}

/// A theme that was saved is the theme that is read back.
pub proof fn law_a_saved_theme_is_read_back(theme: Theme)
    ensures
        theme_of(
            match theme {
                Theme::Light => "light"@,
                Theme::Dark => "dark"@,
                Theme::System => "system"@,
            },
        ) == theme,
{
    reveal_strlit("light");
    reveal_strlit("dark");
    reveal_strlit("system");
    assert("light"@[0] == 'l' && "dark"@[0] == 'd' && "system"@[0] == 's');
    assert("light"@.last() == 't' && "dark"@.last() == 'k' && "system"@.last() == 'm');
    assert(without_margin("light"@) == "light"@);
    assert(without_margin("dark"@) == "dark"@);
    assert(without_margin("system"@) == "system"@);
    assert(without_tail("light"@) == "light"@);
    assert(without_tail("dark"@) == "dark"@);
    assert(without_tail("system"@) == "system"@);
}

/// An action's keys, and those of them that are safe while a text box has focus.
///
/// A window takes its keys before the focused part of it sees them, so a bare `0`
/// would never reach a size entry and a bare `Delete` would remove the file
/// instead of a digit. While something editable has focus, the bare keys are
/// withdrawn and only the modified forms stay live.
pub struct Accel {
    pub action: &'static str,
    pub idle: Vec<&'static str>,
    pub typing: Vec<&'static str>,
}

/// The texts of an action's keys.
pub struct Keys {
    pub action: Seq<char>,
    pub idle: Seq<Seq<char>>,
    pub typing: Seq<Seq<char>>,
}

impl View for Accel {
    type V = Keys;

    open spec fn view(&self) -> Keys {
        Keys { action: self.action@, idle: texts(self.idle@), typing: texts(self.typing@) }
    }
}

/// All actions that have keys.
pub open spec fn key_table() -> Seq<Keys> {
    seq![
        Keys { action: "win.open"@, idle: seq!["<Primary>o"@], typing: seq!["<Primary>o"@] },
        Keys { action: "win.close"@, idle: seq!["<Primary>w"@], typing: seq!["<Primary>w"@] },
        Keys { action: "app.quit"@, idle: seq!["<Primary>q"@], typing: seq!["<Primary>q"@] },
        Keys { action: "win.zoom-in"@, idle: seq!["<Primary>plus"@, "<Primary>equal"@, "plus"@, "equal"@], typing: seq!["<Primary>plus"@, "<Primary>equal"@] },
        Keys { action: "win.zoom-out"@, idle: seq!["<Primary>minus"@, "minus"@], typing: seq!["<Primary>minus"@] },
        Keys { action: "win.zoom-fit"@, idle: seq!["<Primary>0"@, "0"@], typing: seq!["<Primary>0"@] },
        Keys { action: "win.zoom-actual"@, idle: seq!["<Primary>1"@, "1"@], typing: seq!["<Primary>1"@] },
        Keys { action: "win.rotate-left"@, idle: seq!["bracketleft"@, "<Primary>bracketleft"@], typing: seq!["<Primary>bracketleft"@] },
        Keys { action: "win.rotate-right"@, idle: seq!["bracketright"@, "<Primary>bracketright"@], typing: seq!["<Primary>bracketright"@] },
        Keys { action: "win.rotate-reset"@, idle: seq!["<Primary><Shift>r"@], typing: seq!["<Primary><Shift>r"@] },
        Keys { action: "win.next-image"@, idle: seq!["Right"@, "Page_Down"@, "space"@], typing: Seq::empty() },
        Keys { action: "win.previous-image"@, idle: seq!["Left"@, "Page_Up"@, "BackSpace"@], typing: Seq::empty() },
        Keys { action: "win.transform-open"@, idle: seq!["<Primary>t"@], typing: seq!["<Primary>t"@] },
        Keys { action: "win.dismiss"@, idle: seq!["Escape"@], typing: seq!["Escape"@] },
        Keys { action: "win.fullscreen"@, idle: seq!["F11"@, "<Primary>f"@], typing: seq!["F11"@] },
        Keys { action: "win.delete"@, idle: seq!["Delete"@], typing: Seq::empty() },
        Keys { action: "win.copy"@, idle: seq!["<Primary>c"@], typing: Seq::empty() },
        Keys { action: "win.edit"@, idle: seq!["<Primary>e"@], typing: seq!["<Primary>e"@] },
        Keys { action: "win.resize"@, idle: seq!["<Primary>r"@], typing: seq!["<Primary>r"@] },
        Keys { action: "win.undo"@, idle: seq!["<Primary>z"@], typing: Seq::empty() },
        Keys { action: "win.redo"@, idle: seq!["<Primary><Shift>z"@, "<Primary>y"@], typing: Seq::empty() },
        Keys { action: "win.crop-apply"@, idle: seq!["Return"@, "KP_Enter"@], typing: Seq::empty() },
        Keys { action: "win.save"@, idle: seq!["<Primary>s"@], typing: seq!["<Primary>s"@] },
        Keys { action: "win.export"@, idle: seq!["<Primary><Shift>s"@], typing: seq!["<Primary><Shift>s"@] },
        Keys { action: "win.flip-horizontal"@, idle: seq!["<Primary>h"@], typing: Seq::empty() },
        Keys { action: "win.flip-vertical"@, idle: seq!["<Primary>j"@], typing: Seq::empty() },
    ]
}

/// The keys behind a list of actions.
pub open spec fn all_keys(list: Seq<Accel>) -> Seq<Keys> {
    list.map_values(|accel: Accel| accel@)
}

fn include_keys(
    list: &mut Vec<Accel>,
    action: &'static str,
    idle: Vec<&'static str>,
    typing: Vec<&'static str>,
)
    ensures
        all_keys(final(list)@) == all_keys(old(list)@).push(
            Keys { action: action@, idle: texts(idle@), typing: texts(typing@) },
        ),
{
    let ghost before = list@;
    list.push(Accel { action, idle, typing });
    proof {
        assert(all_keys(list@) =~= all_keys(before).push(
            Keys { action: action@, idle: texts(idle@), typing: texts(typing@) },
        ));
    }
}

/// Lists of as many keys as the names say.
fn no_keys() -> (r: Vec<&'static str>)
    ensures
        texts(r@) == Seq::<Seq<char>>::empty(),
{
    let keys: Vec<&'static str> = Vec::new();
    proof {
        assert(texts(keys@) =~= Seq::<Seq<char>>::empty());
    }
    keys
}

fn one_key(a: &'static str) -> (r: Vec<&'static str>)
    ensures
        texts(r@) == seq![a@],
{
    let keys: Vec<&'static str> = vec![a];
    proof {
        assert(texts(keys@) =~= seq![a@]);
    }
    keys
}

fn two_keys(a: &'static str, b: &'static str) -> (r: Vec<&'static str>)
    ensures
        texts(r@) == seq![a@, b@],
{
    let keys: Vec<&'static str> = vec![a, b];
    proof {
        assert(texts(keys@) =~= seq![a@, b@]);
    }
    keys
}

fn three_keys(a: &'static str, b: &'static str, c: &'static str) -> (r: Vec<&'static str>)
    ensures
        texts(r@) == seq![a@, b@, c@],
{
    let keys: Vec<&'static str> = vec![a, b, c];
    proof {
        assert(texts(keys@) =~= seq![a@, b@, c@]);
    }
    keys
}

fn four_keys(a: &'static str, b: &'static str, c: &'static str, d: &'static str) -> (r: Vec<&'static str>)
    ensures
        texts(r@) == seq![a@, b@, c@, d@],
{
    let keys: Vec<&'static str> = vec![a, b, c, d];
    proof {
        assert(texts(keys@) =~= seq![a@, b@, c@, d@]);
    }
    keys
}

/// Actions and their keys.
pub fn accels() -> (r: Vec<Accel>)
    ensures
        all_keys(r@) == key_table(),
{
    let mut list: Vec<Accel> = Vec::new();
    include_keys(&mut list, "win.open", one_key("<Primary>o"), one_key("<Primary>o"));
    include_keys(&mut list, "win.close", one_key("<Primary>w"), one_key("<Primary>w"));
    include_keys(&mut list, "app.quit", one_key("<Primary>q"), one_key("<Primary>q"));
    include_keys(
        &mut list,
        "win.zoom-in",
        four_keys("<Primary>plus", "<Primary>equal", "plus", "equal"),
        two_keys("<Primary>plus", "<Primary>equal"),
    );
    include_keys(
        &mut list,
        "win.zoom-out",
        two_keys("<Primary>minus", "minus"),
        one_key("<Primary>minus"),
    );
    include_keys(&mut list, "win.zoom-fit", two_keys("<Primary>0", "0"), one_key("<Primary>0"));
    include_keys(&mut list, "win.zoom-actual", two_keys("<Primary>1", "1"), one_key("<Primary>1"));
    include_keys(
        &mut list,
        "win.rotate-left",
        two_keys("bracketleft", "<Primary>bracketleft"),
        one_key("<Primary>bracketleft"),
    );
    include_keys(
        &mut list,
        "win.rotate-right",
        two_keys("bracketright", "<Primary>bracketright"),
        one_key("<Primary>bracketright"),
    );
    include_keys(
        &mut list,
        "win.rotate-reset",
        one_key("<Primary><Shift>r"),
        one_key("<Primary><Shift>r"),
    );
    include_keys(&mut list, "win.next-image", three_keys("Right", "Page_Down", "space"), no_keys());
    include_keys(
        &mut list,
        "win.previous-image",
        three_keys("Left", "Page_Up", "BackSpace"),
        no_keys(),
    );
    include_keys(&mut list, "win.transform-open", one_key("<Primary>t"), one_key("<Primary>t"));
    include_keys(&mut list, "win.dismiss", one_key("Escape"), one_key("Escape"));
    include_keys(&mut list, "win.fullscreen", two_keys("F11", "<Primary>f"), one_key("F11"));
    include_keys(&mut list, "win.delete", one_key("Delete"), no_keys());
    include_keys(&mut list, "win.copy", one_key("<Primary>c"), no_keys());
    include_keys(&mut list, "win.edit", one_key("<Primary>e"), one_key("<Primary>e"));
    include_keys(&mut list, "win.resize", one_key("<Primary>r"), one_key("<Primary>r"));
    include_keys(&mut list, "win.undo", one_key("<Primary>z"), no_keys());
    include_keys(&mut list, "win.redo", two_keys("<Primary><Shift>z", "<Primary>y"), no_keys());
    include_keys(&mut list, "win.crop-apply", two_keys("Return", "KP_Enter"), no_keys());
    include_keys(&mut list, "win.save", one_key("<Primary>s"), one_key("<Primary>s"));
    include_keys(
        &mut list,
        "win.export",
        one_key("<Primary><Shift>s"),
        one_key("<Primary><Shift>s"),
    );
    include_keys(&mut list, "win.flip-horizontal", one_key("<Primary>h"), no_keys());
    include_keys(&mut list, "win.flip-vertical", one_key("<Primary>j"), no_keys());
    proof {
        assert(all_keys(list@) =~= key_table());
    }
    list
}

/// Whether a key can be pressed while typing without typing anything: it carries
/// a modifier, or is one that a text box has nothing to do with.
pub open spec fn types_nothing(key: Seq<char>) -> bool {
    (key.len() > 0 && key[0] == '<') || key == "Escape"@ || key == "F11"@
}

/// Whether the keys that stay live while typing are keys of the action, and none
/// of them would type something.
pub open spec fn is_safe(keys: Keys) -> bool {
    forall|i: int|
        0 <= i < keys.typing.len() ==> types_nothing(#[trigger] keys.typing[i]) && keys.idle.contains(
            keys.typing[i],
        )
}

/// An entry is safe where each key that stays live stands, at these places, among
/// those of the action.
proof fn lemma_entry(keys: Keys, places: Seq<int>)
    requires
        places.len() == keys.typing.len(),
        forall|i: int|
            0 <= i < places.len() ==> types_nothing(keys.typing[i]) && 0 <= #[trigger] places[i]
                < keys.idle.len() && keys.idle[places[i]] == keys.typing[i],
    ensures
        is_safe(keys),
{
    assert forall|i: int| 0 <= i < keys.typing.len() implies types_nothing(
        #[trigger] keys.typing[i],
    ) && keys.idle.contains(keys.typing[i]) by {
        assert(keys.idle[places[i]] == keys.typing[i]);
    }
}

/// While a text box has focus no bare key is taken from it, and no action gains a
/// key that it does not have otherwise.
#[verifier::rlimit(40)]
pub proof fn law_typing_keeps_its_keys(n: int)
    requires
        0 <= n < key_table().len(),
    ensures
        is_safe(key_table()[n]),
{
    reveal_strlit("<Primary>o");
    reveal_strlit("<Primary>w");
    reveal_strlit("<Primary>q");
    reveal_strlit("<Primary>plus");
    reveal_strlit("<Primary>equal");
    reveal_strlit("<Primary>minus");
    reveal_strlit("<Primary>0");
    reveal_strlit("<Primary>1");
    reveal_strlit("<Primary>bracketleft");
    reveal_strlit("<Primary>bracketright");
    reveal_strlit("<Primary><Shift>r");
    reveal_strlit("<Primary>t");
    reveal_strlit("<Primary>e");
    reveal_strlit("<Primary>r");
    reveal_strlit("<Primary>s");
    reveal_strlit("<Primary><Shift>s");
    let keys = key_table()[n];
    let places = if keys.typing.len() == 0 {
        Seq::empty()
    } else if keys.typing.len() == 2 {
        seq![0, 1]
    } else if n == 7 || n == 8 {
        seq![1]
    } else {
        seq![0]
    };
    lemma_entry(keys, places);
}

/// Whether a key stands for an action while nothing is being typed.
pub open spec fn does(key: Seq<char>, action: Seq<char>) -> bool {
    exists|n: int, k: int|
        0 <= n < key_table().len() && 0 <= k < key_table()[n].idle.len() && key_table()[n].action
            == action && #[trigger] key_table()[n].idle[k] == key
}

/// Whether a key still stands for an action while text is being typed.
pub open spec fn still_does(key: Seq<char>, action: Seq<char>) -> bool {
    exists|n: int, k: int|
        0 <= n < key_table().len() && 0 <= k < key_table()[n].typing.len() && key_table()[n].action
            == action && #[trigger] key_table()[n].typing[k] == key
}

/// Every key does what its name suggests, and there is no other key: the left
/// bracket turns left and the right one right, the arrows step, a plain digit or
/// sign zooms, Escape leaves and Return applies.
pub proof fn law_keys_do_what_they_say(key: Seq<char>, action: Seq<char>)
    ensures
        does(key, action) <==> ({
            ||| key == "<Primary>o"@ && action == "win.open"@
            ||| key == "<Primary>w"@ && action == "win.close"@
            ||| key == "<Primary>q"@ && action == "app.quit"@
            ||| key == "<Primary>plus"@ && action == "win.zoom-in"@
            ||| key == "<Primary>equal"@ && action == "win.zoom-in"@
            ||| key == "plus"@ && action == "win.zoom-in"@
            ||| key == "equal"@ && action == "win.zoom-in"@
            ||| key == "<Primary>minus"@ && action == "win.zoom-out"@
            ||| key == "minus"@ && action == "win.zoom-out"@
            ||| key == "<Primary>0"@ && action == "win.zoom-fit"@
            ||| key == "0"@ && action == "win.zoom-fit"@
            ||| key == "<Primary>1"@ && action == "win.zoom-actual"@
            ||| key == "1"@ && action == "win.zoom-actual"@
            ||| key == "bracketleft"@ && action == "win.rotate-left"@
            ||| key == "<Primary>bracketleft"@ && action == "win.rotate-left"@
            ||| key == "bracketright"@ && action == "win.rotate-right"@
            ||| key == "<Primary>bracketright"@ && action == "win.rotate-right"@
            ||| key == "<Primary><Shift>r"@ && action == "win.rotate-reset"@
            ||| key == "Right"@ && action == "win.next-image"@
            ||| key == "Page_Down"@ && action == "win.next-image"@
            ||| key == "space"@ && action == "win.next-image"@
            ||| key == "Left"@ && action == "win.previous-image"@
            ||| key == "Page_Up"@ && action == "win.previous-image"@
            ||| key == "BackSpace"@ && action == "win.previous-image"@
            ||| key == "<Primary>t"@ && action == "win.transform-open"@
            ||| key == "Escape"@ && action == "win.dismiss"@
            ||| key == "F11"@ && action == "win.fullscreen"@
            ||| key == "<Primary>f"@ && action == "win.fullscreen"@
            ||| key == "Delete"@ && action == "win.delete"@
            ||| key == "<Primary>c"@ && action == "win.copy"@
            ||| key == "<Primary>e"@ && action == "win.edit"@
            ||| key == "<Primary>r"@ && action == "win.resize"@
            ||| key == "<Primary>z"@ && action == "win.undo"@
            ||| key == "<Primary><Shift>z"@ && action == "win.redo"@
            ||| key == "<Primary>y"@ && action == "win.redo"@
            ||| key == "Return"@ && action == "win.crop-apply"@
            ||| key == "KP_Enter"@ && action == "win.crop-apply"@
            ||| key == "<Primary>s"@ && action == "win.save"@
            ||| key == "<Primary><Shift>s"@ && action == "win.export"@
            ||| key == "<Primary>h"@ && action == "win.flip-horizontal"@
            ||| key == "<Primary>j"@ && action == "win.flip-vertical"@
        }),
{
    assert(key_table()[0].action == "win.open"@ && key_table()[0].idle[0] == "<Primary>o"@);
    assert(key_table()[1].action == "win.close"@ && key_table()[1].idle[0] == "<Primary>w"@);
    assert(key_table()[2].action == "app.quit"@ && key_table()[2].idle[0] == "<Primary>q"@);
    assert(key_table()[3].action == "win.zoom-in"@ && key_table()[3].idle[0] == "<Primary>plus"@);
    assert(key_table()[3].action == "win.zoom-in"@ && key_table()[3].idle[1] == "<Primary>equal"@);
    assert(key_table()[3].action == "win.zoom-in"@ && key_table()[3].idle[2] == "plus"@);
    assert(key_table()[3].action == "win.zoom-in"@ && key_table()[3].idle[3] == "equal"@);
    assert(key_table()[4].action == "win.zoom-out"@ && key_table()[4].idle[0] == "<Primary>minus"@);
    assert(key_table()[4].action == "win.zoom-out"@ && key_table()[4].idle[1] == "minus"@);
    assert(key_table()[5].action == "win.zoom-fit"@ && key_table()[5].idle[0] == "<Primary>0"@);
    assert(key_table()[5].action == "win.zoom-fit"@ && key_table()[5].idle[1] == "0"@);
    assert(key_table()[6].action == "win.zoom-actual"@ && key_table()[6].idle[0] == "<Primary>1"@);
    assert(key_table()[6].action == "win.zoom-actual"@ && key_table()[6].idle[1] == "1"@);
    assert(key_table()[7].action == "win.rotate-left"@ && key_table()[7].idle[0] == "bracketleft"@);
    assert(key_table()[7].action == "win.rotate-left"@ && key_table()[7].idle[1] == "<Primary>bracketleft"@);
    assert(key_table()[8].action == "win.rotate-right"@ && key_table()[8].idle[0] == "bracketright"@);
    assert(key_table()[8].action == "win.rotate-right"@ && key_table()[8].idle[1] == "<Primary>bracketright"@);
    assert(key_table()[9].action == "win.rotate-reset"@ && key_table()[9].idle[0] == "<Primary><Shift>r"@);
    assert(key_table()[10].action == "win.next-image"@ && key_table()[10].idle[0] == "Right"@);
    assert(key_table()[10].action == "win.next-image"@ && key_table()[10].idle[1] == "Page_Down"@);
    assert(key_table()[10].action == "win.next-image"@ && key_table()[10].idle[2] == "space"@);
    assert(key_table()[11].action == "win.previous-image"@ && key_table()[11].idle[0] == "Left"@);
    assert(key_table()[11].action == "win.previous-image"@ && key_table()[11].idle[1] == "Page_Up"@);
    assert(key_table()[11].action == "win.previous-image"@ && key_table()[11].idle[2] == "BackSpace"@);
    assert(key_table()[12].action == "win.transform-open"@ && key_table()[12].idle[0] == "<Primary>t"@);
    assert(key_table()[13].action == "win.dismiss"@ && key_table()[13].idle[0] == "Escape"@);
    assert(key_table()[14].action == "win.fullscreen"@ && key_table()[14].idle[0] == "F11"@);
    assert(key_table()[14].action == "win.fullscreen"@ && key_table()[14].idle[1] == "<Primary>f"@);
    assert(key_table()[15].action == "win.delete"@ && key_table()[15].idle[0] == "Delete"@);
    assert(key_table()[16].action == "win.copy"@ && key_table()[16].idle[0] == "<Primary>c"@);
    assert(key_table()[17].action == "win.edit"@ && key_table()[17].idle[0] == "<Primary>e"@);
    assert(key_table()[18].action == "win.resize"@ && key_table()[18].idle[0] == "<Primary>r"@);
    assert(key_table()[19].action == "win.undo"@ && key_table()[19].idle[0] == "<Primary>z"@);
    assert(key_table()[20].action == "win.redo"@ && key_table()[20].idle[0] == "<Primary><Shift>z"@);
    assert(key_table()[20].action == "win.redo"@ && key_table()[20].idle[1] == "<Primary>y"@);
    assert(key_table()[21].action == "win.crop-apply"@ && key_table()[21].idle[0] == "Return"@);
    assert(key_table()[21].action == "win.crop-apply"@ && key_table()[21].idle[1] == "KP_Enter"@);
    assert(key_table()[22].action == "win.save"@ && key_table()[22].idle[0] == "<Primary>s"@);
    assert(key_table()[23].action == "win.export"@ && key_table()[23].idle[0] == "<Primary><Shift>s"@);
    assert(key_table()[24].action == "win.flip-horizontal"@ && key_table()[24].idle[0] == "<Primary>h"@);
    assert(key_table()[25].action == "win.flip-vertical"@ && key_table()[25].idle[0] == "<Primary>j"@);
}

/// While text is being typed only keys that type nothing are left, and the clipboard,
/// the arrows, Return, Delete and undo belong to the text.
pub proof fn law_keys_left_to_typing(key: Seq<char>, action: Seq<char>)
    ensures
        still_does(key, action) <==> ({
            ||| key == "<Primary>o"@ && action == "win.open"@
            ||| key == "<Primary>w"@ && action == "win.close"@
            ||| key == "<Primary>q"@ && action == "app.quit"@
            ||| key == "<Primary>plus"@ && action == "win.zoom-in"@
            ||| key == "<Primary>equal"@ && action == "win.zoom-in"@
            ||| key == "<Primary>minus"@ && action == "win.zoom-out"@
            ||| key == "<Primary>0"@ && action == "win.zoom-fit"@
            ||| key == "<Primary>1"@ && action == "win.zoom-actual"@
            ||| key == "<Primary>bracketleft"@ && action == "win.rotate-left"@
            ||| key == "<Primary>bracketright"@ && action == "win.rotate-right"@
            ||| key == "<Primary><Shift>r"@ && action == "win.rotate-reset"@
            ||| key == "<Primary>t"@ && action == "win.transform-open"@
            ||| key == "Escape"@ && action == "win.dismiss"@
            ||| key == "F11"@ && action == "win.fullscreen"@
            ||| key == "<Primary>e"@ && action == "win.edit"@
            ||| key == "<Primary>r"@ && action == "win.resize"@
            ||| key == "<Primary>s"@ && action == "win.save"@
            ||| key == "<Primary><Shift>s"@ && action == "win.export"@
        }),
{
    assert(key_table()[0].action == "win.open"@ && key_table()[0].typing[0] == "<Primary>o"@);
    assert(key_table()[1].action == "win.close"@ && key_table()[1].typing[0] == "<Primary>w"@);
    assert(key_table()[2].action == "app.quit"@ && key_table()[2].typing[0] == "<Primary>q"@);
    assert(key_table()[3].action == "win.zoom-in"@ && key_table()[3].typing[0] == "<Primary>plus"@);
    assert(key_table()[3].action == "win.zoom-in"@ && key_table()[3].typing[1] == "<Primary>equal"@);
    assert(key_table()[4].action == "win.zoom-out"@ && key_table()[4].typing[0] == "<Primary>minus"@);
    assert(key_table()[5].action == "win.zoom-fit"@ && key_table()[5].typing[0] == "<Primary>0"@);
    assert(key_table()[6].action == "win.zoom-actual"@ && key_table()[6].typing[0] == "<Primary>1"@);
    assert(key_table()[7].action == "win.rotate-left"@ && key_table()[7].typing[0] == "<Primary>bracketleft"@);
    assert(key_table()[8].action == "win.rotate-right"@ && key_table()[8].typing[0] == "<Primary>bracketright"@);
    assert(key_table()[9].action == "win.rotate-reset"@ && key_table()[9].typing[0] == "<Primary><Shift>r"@);
    assert(key_table()[12].action == "win.transform-open"@ && key_table()[12].typing[0] == "<Primary>t"@);
    assert(key_table()[13].action == "win.dismiss"@ && key_table()[13].typing[0] == "Escape"@);
    assert(key_table()[14].action == "win.fullscreen"@ && key_table()[14].typing[0] == "F11"@);
    assert(key_table()[17].action == "win.edit"@ && key_table()[17].typing[0] == "<Primary>e"@);
    assert(key_table()[18].action == "win.resize"@ && key_table()[18].typing[0] == "<Primary>r"@);
    assert(key_table()[22].action == "win.save"@ && key_table()[22].typing[0] == "<Primary>s"@);
    assert(key_table()[23].action == "win.export"@ && key_table()[23].typing[0] == "<Primary><Shift>s"@);
}

} // verus!
