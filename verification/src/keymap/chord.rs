//! Keys, chords and bindings: what one press is, and how it is written.
use vstd::prelude::*;
use std::str::FromStr;
use crate::text::{after_prefix, ascii_lower, chars_of, control, has_prefix};
use crate::text::{is_control, join, joined, same_ignoring_case, same_text, split_at_char, split_char};
use crate::text::{number_in, read_number, split_words, texts, to_ascii_lower, words_of};

verus! {

// ---------------------------------------------------------------------------
// Modifiers
// ---------------------------------------------------------------------------

/// The modifier keys held down with a chord, as a set of bits.
///
/// `Shift` is deliberately *not* one of them for printable keys: `a` and `A`
/// are different keys, and the character itself already says which.
#[derive(Debug, Clone, Copy, PartialEq, Eq, PartialOrd, Ord, Hash, Default)]
pub struct Modifiers(u8);

impl View for Modifiers {
    type V = u8;

    closed spec fn view(&self) -> u8 {
        self.0
    }
}

/// Every modifier in `some` is in `held`.
pub open spec fn holds(held: u8, some: u8) -> bool {
    held & some == some
}

impl Modifiers {
    /// No modifiers.
    pub fn none() -> (out: Self)
        ensures
            out@ == 0,
    {
        Modifiers(0)
    }

    /// Control.
    pub fn ctrl() -> (out: Self)
        ensures
            out@ == 1,
    {
        Modifiers(1)
    }

    /// Alt.
    pub fn alt() -> (out: Self)
        ensures
            out@ == 2,
    {
        Modifiers(2)
    }

    /// Shift. Only ever set on a named key; see [`Chord`].
    pub fn shift() -> (out: Self)
        ensures
            out@ == 4,
    {
        Modifiers(4)
    }

    /// Super / Meta / the Windows key / Command.
    pub fn logo() -> (out: Self)
        ensures
            out@ == 8,
    {
        Modifiers(8)
    }

    /// Whether every modifier in `other` is set here.
    pub fn contains(self, other: Self) -> (out: bool)
        ensures
            out == holds(self@, other@),
    {
        self.0 & other.0 == other.0
    }

    /// Whether nothing is held.
    pub fn is_empty(self) -> (out: bool)
        ensures
            out == (self@ == 0),
    {
        self.0 == 0
    }

    /// This set with `other` added.
    pub fn with(self, other: Self) -> (out: Self)
        ensures
            out@ == self@ | other@,
    {
        Modifiers(self.0 | other.0)
    }

    /// This set with `other` removed.
    pub fn without(self, other: Self) -> (out: Self)
        ensures
            out@ == self@ & !other@,
    {
        Modifiers(self.0 & !other.0)
    }

    /// The modifier called `name`.
    fn parse(name: &str) -> (out: Option<Self>)
        ensures
            match out {
                Some(modifier) => modifier_named(name@) == Some(modifier@),
                None => modifier_named(name@) is None,
            },
    {
        let lower = to_ascii_lower(name);
        let lower = lower.as_str();
        if same_text(lower, "ctrl") || same_text(lower, "control") {
            Some(Modifiers::ctrl())
        } else if same_text(lower, "alt") {
            Some(Modifiers::alt())
        } else if same_text(lower, "shift") {
            Some(Modifiers::shift())
        } else if same_text(lower, "super") || same_text(lower, "meta") || same_text(lower, "cmd")
            || same_text(lower, "command") {
            // `cmd` is the same physical modifier as Super, so it is one bit.
            Some(Modifiers::logo())
        } else {
            None
        }
    }

    /// The modifiers as they are written before a key, each with its `+`.
    pub fn to_string(&self) -> (out: String)
        ensures
            out@ == modifiers_text(self@),
    {
        let mut out = String::new();
        if self.contains(Modifiers::ctrl()) {
            out.append("ctrl+");
        }
        if self.contains(Modifiers::alt()) {
            out.append("alt+");
        }
        if self.contains(Modifiers::shift()) {
            out.append("shift+");
        }
        if self.contains(Modifiers::logo()) {
            out.append("super+");
        }
        assert(out@ =~= modifiers_text(self@));
        out
    }
}

/// The modifier called `name`, in any case.
pub open spec fn modifier_named(name: Seq<char>) -> Option<u8> {
    let lower = ascii_lower(name);
    if lower == "ctrl"@ || lower == "control"@ {
        Some(1u8)
    } else if lower == "alt"@ {
        Some(2u8)
    } else if lower == "shift"@ {
        Some(4u8)
    } else if lower == "super"@ || lower == "meta"@ || lower == "cmd"@ || lower == "command"@ {
        Some(8u8)
    } else {
        None
    }
}

/// `text` when the modifier `some` is held, else nothing.
pub open spec fn text_if_held(held: u8, some: u8, text: Seq<char>) -> Seq<char> {
    if holds(held, some) {
        text
    } else {
        Seq::empty()
    }
}

/// The modifiers as they are written before a key, each with its `+`.
pub open spec fn modifiers_text(held: u8) -> Seq<char> {
    text_if_held(held, 1, "ctrl+"@) + text_if_held(held, 2, "alt+"@) + text_if_held(
        held,
        4,
        "shift+"@,
    ) + text_if_held(held, 8, "super+"@)
}

/// Adding a modifier holds it, and every one held before; removing one holds
/// nothing of it.
pub proof fn lemma_modifier_sets(held: u8, some: u8, other: u8)
    ensures
        holds(held | some, some),
        holds(held, other) ==> holds(held | some, other),
        (held & !some) & some == 0,
{
    assert((held | some) & some == some) by (bit_vector);
    assert(held & other == other ==> (held | some) & other == other) by (bit_vector);
    assert((held & !some) & some == 0) by (bit_vector);
}

// ---------------------------------------------------------------------------
// Keys
// ---------------------------------------------------------------------------

/// Named keys that do not produce a character: each spelling accepted in a
/// binding, and the one spelling the key is stored and displayed as.
pub open spec fn named_keys() -> Seq<(Seq<char>, Seq<char>)> {
    seq![
        ("return"@, "Return"@),
        ("enter"@, "Return"@),
        ("escape"@, "Escape"@),
        ("esc"@, "Escape"@),
        ("tab"@, "Tab"@),
        ("space"@, "Space"@),
        ("backspace"@, "BackSpace"@),
        ("delete"@, "Delete"@),
        ("insert"@, "Insert"@),
        ("home"@, "Home"@),
        ("end"@, "End"@),
        ("page_up"@, "Page_Up"@),
        ("pageup"@, "Page_Up"@),
        ("prior"@, "Page_Up"@),
        ("page_down"@, "Page_Down"@),
        ("pagedown"@, "Page_Down"@),
        ("next"@, "Page_Down"@),
        ("up"@, "Up"@),
        ("down"@, "Down"@),
        ("left"@, "Left"@),
        ("right"@, "Right"@),
        ("menu"@, "Menu"@),
        ("f1"@, "F1"@),
        ("f2"@, "F2"@),
        ("f3"@, "F3"@),
        ("f4"@, "F4"@),
        ("f5"@, "F5"@),
        ("f6"@, "F6"@),
        ("f7"@, "F7"@),
        ("f8"@, "F8"@),
        ("f9"@, "F9"@),
        ("f10"@, "F10"@),
        ("f11"@, "F11"@),
        ("f12"@, "F12"@),
    ]
}

/// The table of named keys.
fn named_key_table() -> (out: Vec<(&'static str, &'static str)>)
    ensures
        out@.len() == named_keys().len(),
        forall|i: int|
            0 <= i < out@.len() ==> (#[trigger] out@[i]).0@ == named_keys()[i].0 && out@[i].1@
                == named_keys()[i].1,
{
    vec![
        ("return", "Return"),
        ("enter", "Return"),
        ("escape", "Escape"),
        ("esc", "Escape"),
        ("tab", "Tab"),
        ("space", "Space"),
        ("backspace", "BackSpace"),
        ("delete", "Delete"),
        ("insert", "Insert"),
        ("home", "Home"),
        ("end", "End"),
        ("page_up", "Page_Up"),
        ("pageup", "Page_Up"),
        ("prior", "Page_Up"),
        ("page_down", "Page_Down"),
        ("pagedown", "Page_Down"),
        ("next", "Page_Down"),
        ("up", "Up"),
        ("down", "Down"),
        ("left", "Left"),
        ("right", "Right"),
        ("menu", "Menu"),
        ("f1", "F1"),
        ("f2", "F2"),
        ("f3", "F3"),
        ("f4", "F4"),
        ("f5", "F5"),
        ("f6", "F6"),
        ("f7", "F7"),
        ("f8", "F8"),
        ("f9", "F9"),
        ("f10", "F10"),
        ("f11", "F11"),
        ("f12", "F12"),
    ]
}

/// Keys that are spelled by name but *are* a character.
pub open spec fn punctuation_names() -> Seq<(Seq<char>, char)> {
    seq![
        ("plus"@, '+'),
        ("minus"@, '-'),
        ("equal"@, '='),
        ("slash"@, '/'),
        ("backslash"@, '\\'),
        ("question"@, '?'),
        ("comma"@, ','),
        ("period"@, '.'),
        ("semicolon"@, ';'),
        ("colon"@, ':'),
        ("asterisk"@, '*'),
        ("underscore"@, '_'),
        ("less"@, '<'),
        ("greater"@, '>'),
        ("bracketleft"@, '['),
        ("bracketright"@, ']'),
        ("grave"@, '`'),
        ("apostrophe"@, '\''),
        ("quotedbl"@, '"'),
    ]
}

/// The table of characters spelled by name.
fn punctuation_table() -> (out: Vec<(&'static str, char)>)
    ensures
        out@.len() == punctuation_names().len(),
        forall|i: int|
            0 <= i < out@.len() ==> (#[trigger] out@[i]).0@ == punctuation_names()[i].0
                && out@[i].1 == punctuation_names()[i].1,
{
    vec![
        ("plus", '+'),
        ("minus", '-'),
        ("equal", '='),
        ("slash", '/'),
        ("backslash", '\\'),
        ("question", '?'),
        ("comma", ','),
        ("period", '.'),
        ("semicolon", ';'),
        ("colon", ':'),
        ("asterisk", '*'),
        ("underscore", '_'),
        ("less", '<'),
        ("greater", '>'),
        ("bracketleft", '['),
        ("bracketright", ']'),
        ("grave", '`'),
        ("apostrophe", '\''),
        ("quotedbl", '"'),
    ]
}

/// What the first of `table` from `from` on that is called `name` stands for.
pub open spec fn called<V>(table: Seq<(Seq<char>, V)>, name: Seq<char>, from: int) -> Option<V>
    decreases table.len() - from,
{
    if from < 0 || from >= table.len() {
        None
    } else if table[from].0 == name {
        Some(table[from].1)
    } else {
        called(table, name, from + 1)
    }
}

/// What the first of `table` from `from` on that stands for `value` is
/// called.
pub open spec fn name_of<V>(table: Seq<(Seq<char>, V)>, value: V, from: int) -> Option<Seq<char>>
    decreases table.len() - from,
{
    if from < 0 || from >= table.len() {
        None
    } else if table[from].1 == value {
        Some(table[from].0)
    } else {
        name_of(table, value, from + 1)
    }
}

/// One key on the keyboard.
#[derive(Debug, Clone, Copy, PartialEq, Eq, PartialOrd, Ord, Hash)]
pub enum Key {
    /// A key that produces a character. Case matters: `a` and `A` differ.
    Char(char),
    /// A key that does not, stored as its canonical name.
    Named(&'static str),
}

/// A key, its name as text.
pub enum KeyView {
    /// A key that produces a character.
    Char(char),
    /// A key that does not.
    Named(Seq<char>),
}

impl View for Key {
    type V = KeyView;

    open spec fn view(&self) -> KeyView {
        match *self {
            Key::Char(c) => KeyView::Char(c),
            Key::Named(name) => KeyView::Named(name@),
        }
    }
}

/// A function key's name: `F` and a number.
pub open spec fn is_function_key(name: Seq<char>) -> bool {
    has_prefix(name, "F"@) && number_in(name.skip(1), 255) is Some
}

/// `key` still fires a binding while a text field has focus.
pub open spec fn key_survives(key: KeyView) -> bool {
    match key {
        KeyView::Char(_) => false,
        KeyView::Named(name) => name == "Escape"@ || is_function_key(name),
    }
}

/// The name a keyboard layout gives `key`.
pub open spec fn keysym(key: KeyView) -> Seq<char> {
    match key {
        KeyView::Char(c) => match name_of(punctuation_names(), c, 0) {
            Some(name) => name,
            None => seq![c],
        },
        KeyView::Named(name) => if name == "Space"@ {
            "space"@
        } else {
            name
        },
    }
}

/// The key called `name`.
pub open spec fn key_named(name: Seq<char>) -> Option<KeyView> {
    if name.len() == 1 {
        Some(KeyView::Char(name[0]))
    } else {
        match called(punctuation_names(), ascii_lower(name), 0) {
            Some(c) => Some(KeyView::Char(c)),
            None => match called(named_keys(), ascii_lower(name), 0) {
                Some(canonical) => Some(KeyView::Named(canonical)),
                None => None,
            },
        }
    }
}

/// How `key` is written.
pub open spec fn key_text(key: KeyView) -> Seq<char> {
    match key {
        KeyView::Char(c) => seq![c],
        KeyView::Named(name) => name,
    }
}

impl Key {
    /// Whether this key still fires a binding while a text field has focus.
    ///
    /// Only `Escape` and the function keys do. Everything else a text field
    /// might reasonably consume belongs to the text field while it is
    /// focused.
    fn survives_text_entry(&self) -> (out: bool)
        ensures
            out == key_survives(self@),
    {
        match *self {
            Key::Char(_) => false,
            Key::Named(name) => {
                if same_text(name, "Escape") {
                    return true;
                }
                match after_prefix(name, "F") {
                    Some(rest) => {
                        proof {
                            reveal_strlit("F");
                        }
                        read_number(rest.as_str(), 255).is_some()
                    },
                    None => false,
                }
            },
        }
    }

    /// The keysym name of this key: `question` for `?`, `Return` for Return,
    /// the character itself for a letter or digit.
    pub fn keysym_name(&self) -> (out: String)
        ensures
            out@ == keysym(self@),
    {
        match *self {
            Key::Char(character) => {
                let table = punctuation_table();
                let mut i: usize = 0;
                while i < table.len()
                    invariant
                        i <= table@.len(),
                        table@.len() == punctuation_names().len(),
                        forall|j: int|
                            0 <= j < table@.len() ==> (#[trigger] table@[j]).0@
                                == punctuation_names()[j].0 && table@[j].1
                                == punctuation_names()[j].1,
                        name_of(punctuation_names(), character, 0) == name_of(
                            punctuation_names(),
                            character,
                            i as int,
                        ),
                        self@ == KeyView::Char(character),
                    decreases table@.len() - i,
                {
                    if table[i].1 == character {
                        return table[i].0.to_owned();
                    }
                    i += 1;
                }
                let mut out = String::new();
                out.push(character);
                assert(out@ =~= seq![character]);
                out
            },
            Key::Named(name) => {
                // The one canonical spelling that is not its own keysym.
                if same_text(name, "Space") {
                    "space".to_owned()
                } else {
                    name.to_owned()
                }
            },
        }
    }

    /// The key called `name`.
    fn parse(name: &str) -> (out: Option<Self>)
        ensures
            match out {
                Some(key) => key_named(name@) == Some(key@),
                None => key_named(name@) is None,
            },
    {
        let chars = chars_of(name);
        if chars.len() == 1 {
            return Some(Key::Char(chars[0]));
        }
        let lower = to_ascii_lower(name);
        let table = punctuation_table();
        let mut i: usize = 0;
        while i < table.len()
            invariant
                i <= table@.len(),
                name@.len() != 1,
                lower@ == ascii_lower(name@),
                table@.len() == punctuation_names().len(),
                forall|j: int|
                    0 <= j < table@.len() ==> (#[trigger] table@[j]).0@ == punctuation_names()[j].0
                        && table@[j].1 == punctuation_names()[j].1,
                called(punctuation_names(), lower@, 0) == called(
                    punctuation_names(),
                    lower@,
                    i as int,
                ),
            decreases table@.len() - i,
        {
            if same_text(table[i].0, lower.as_str()) {
                return Some(Key::Char(table[i].1));
            }
            i += 1;
        }
        let names = named_key_table();
        let mut i: usize = 0;
        while i < names.len()
            invariant
                i <= names@.len(),
                name@.len() != 1,
                lower@ == ascii_lower(name@),
                called(punctuation_names(), lower@, 0) is None,
                names@.len() == named_keys().len(),
                forall|j: int|
                    0 <= j < names@.len() ==> (#[trigger] names@[j]).0@ == named_keys()[j].0
                        && names@[j].1@ == named_keys()[j].1,
                called(named_keys(), lower@, 0) == called(named_keys(), lower@, i as int),
            decreases names@.len() - i,
        {
            if same_text(names[i].0, lower.as_str()) {
                return Some(Key::Named(names[i].1));
            }
            i += 1;
        }
        None
    }

    /// The key as it is written in a binding.
    pub fn to_string(&self) -> (out: String)
        ensures
            out@ == key_text(self@),
    {
        match *self {
            Key::Char(character) => {
                let mut out = String::new();
                out.push(character);
                assert(out@ =~= seq![character]);
                out
            },
            Key::Named(name) => name.to_owned(),
        }
    }
}

/// Whether both are the same key.
fn same_key(a: &Key, b: &Key) -> (out: bool)
    ensures
        out == (a@ == b@),
{
    match (a, b) {
        (Key::Char(x), Key::Char(y)) => *x == *y,
        (Key::Named(x), Key::Named(y)) => same_text(x, y),
        _ => false,
    }
}

// ---------------------------------------------------------------------------
// Chords
// ---------------------------------------------------------------------------

/// `char::to_uppercase`: the first character of the uppercase of `c`, which is
/// not ASCII, by Unicode's tables.
pub uninterp spec fn unicode_upper_first(c: char) -> char;

/// The first character of the uppercase of `c`.
pub open spec fn upper_first(c: char) -> char {
    if 'a' <= c && c <= 'z' {
        (c as u32 - 32) as char
    } else if c <= '\u{7f}' {
        c
    } else {
        unicode_upper_first(c)
    }
}

/// `char::to_uppercase` gives the uppercase of a character, one character or
/// more; this is the first of them, which depends on the character alone. An
/// ASCII letter gives its ASCII capital, and any other ASCII character
/// itself.
#[verifier::external_body]
fn to_upper_first(c: char) -> (out: char)
    ensures
        out == (if 'a' <= c && c <= 'z' {
            (c as u32 - 32) as char
        } else if c <= '\u{7f}' {
            c
        } else {
            unicode_upper_first(c)
        }),
{
    c.to_uppercase().next().unwrap_or(c)
}

/// One press: a key with the modifiers held down for it.
///
/// A chord is always stored in the form the keyboard will actually deliver
/// it. For a key that produces a character, `Shift` is folded into the
/// character — `shift+a` *is* `A`. For a named key, `Shift` stays a modifier,
/// since `shift+Tab` produces no character to fold it into.
#[derive(Debug, Clone, Copy, PartialEq, Eq, PartialOrd, Ord, Hash)]
pub struct Chord {
    /// The key pressed.
    pub key: Key,
    /// What was held down with it.
    pub modifiers: Modifiers,
}

/// A chord, its key's name as text.
pub struct ChordView {
    /// The key pressed.
    pub key: KeyView,
    /// What was held down with it.
    pub modifiers: u8,
}

impl View for Chord {
    type V = ChordView;

    open spec fn view(&self) -> ChordView {
        ChordView { key: self.key@, modifiers: self.modifiers@ }
    }
}

/// The chord `key` and `held` make, `Shift` folded into a character.
pub open spec fn chord_of(key: KeyView, held: u8) -> ChordView {
    match key {
        KeyView::Char(c) => if holds(held, 4) {
            ChordView { key: KeyView::Char(upper_first(c)), modifiers: held & !4u8 }
        } else {
            ChordView { key, modifiers: held }
        },
        KeyView::Named(_) => ChordView { key, modifiers: held },
    }
}

/// The chord a platform's key event is: the character it would type, its
/// name when it types nothing or a control, and what was held.
pub open spec fn chord_from_event(
    character: Option<char>,
    name: Option<Seq<char>>,
    held: u8,
) -> Option<ChordView> {
    let by_name = match name {
        Some(name) => match key_named(name) {
            Some(key) => Some(chord_of(key, held)),
            None => None,
        },
        None => None,
    };
    match character {
        Some(c) => if c == ' ' {
            Some(chord_of(KeyView::Named("Space"@), held))
        } else if !control(c) {
            Some(chord_of(KeyView::Char(c), held))
        } else {
            by_name
        },
        None => by_name,
    }
}

/// `chord` fires while a text field has focus.
pub open spec fn survives(chord: ChordView) -> bool {
    (chord.modifiers & !4u8) != 0 || key_survives(chord.key)
}

/// How `chord` is written.
pub open spec fn chord_text(chord: ChordView) -> Seq<char> {
    modifiers_text(chord.modifiers) + key_text(chord.key)
}

impl Chord {
    /// Builds a chord, normalizing `Shift` as described on the type.
    pub fn new(key: Key, modifiers: Modifiers) -> (out: Self)
        ensures
            out@ == chord_of(key@, modifiers@),
    {
        match key {
            Key::Char(character) => {
                if modifiers.contains(Modifiers::shift()) {
                    // `shift+p` and `P` have to be one chord, not two that
                    // never match each other.
                    Chord {
                        key: Key::Char(to_upper_first(character)),
                        modifiers: modifiers.without(Modifiers::shift()),
                    }
                } else {
                    Chord { key, modifiers }
                }
            },
            Key::Named(_) => Chord { key, modifiers },
        }
    }

    /// Builds a chord from a platform key event already reduced to what
    /// every toolkit can supply: the character the key would type, the key's
    /// name when it types nothing (or types a control character), and the
    /// modifiers held with it.
    ///
    /// `None` for a key this build has no name for — a dead key, a keypad
    /// key with no binding — which the caller should let propagate.
    pub fn from_platform_key(
        character: Option<char>,
        name: Option<&str>,
        modifiers: Modifiers,
    ) -> (out: Option<Self>)
        ensures
            match out {
                Some(chord) => chord_from_event(
                    character,
                    match name {
                        Some(name) => Some(name@),
                        None => None,
                    },
                    modifiers@,
                ) == Some(chord@),
                None => chord_from_event(
                    character,
                    match name {
                        Some(name) => Some(name@),
                        None => None,
                    },
                    modifiers@,
                ) is None,
            },
    {
        if let Some(character) = character {
            // Space has a character but no useful one to print in a cheat
            // sheet, so it stays a named key.
            if character == ' ' {
                return Some(Chord::new(Key::Named("Space"), modifiers));
            }
            if !is_control(character) {
                return Some(Chord::new(Key::Char(character), modifiers));
            }
        }
        match name {
            Some(name) => match Key::parse(name) {
                Some(key) => Some(Chord::new(key, modifiers)),
                None => None,
            },
            None => None,
        }
    }

    /// Whether this chord fires while a text field has focus.
    ///
    /// True when it carries `Ctrl`, `Alt` or `Super`, or when its key is one
    /// the text field would not want anyway. This is the rule that keeps `a`
    /// from archiving mail while the user types "already replied".
    pub fn survives_text_entry(&self) -> (out: bool)
        ensures
            out == survives(self@),
    {
        // Shift alone does not make a chord a shortcut: `shift+a` is still
        // the letter A to a text field.
        if !self.modifiers.without(Modifiers::shift()).is_empty() {
            return true;
        }
        self.key.survives_text_entry()
    }

    /// The chord as it is written in a binding.
    pub fn to_string(&self) -> (out: String)
        ensures
            out@ == chord_text(self@),
    {
        let mut out = self.modifiers.to_string();
        out.append(self.key.to_string().as_str());
        out
    }

    /// Reads a chord: modifiers and a key, `+` between them.
    pub fn read(text: &str) -> (out: Result<Self, ParseError>)
        ensures
            match out {
                Ok(chord) => read_chord(text@) == Ok::<ChordView, ParseErrorView>(chord@),
                Err(error) => read_chord(text@) == Err::<ChordView, ParseErrorView>(error@),
            },
    {
        if text.unicode_len() == 0 {
            return Err(ParseError::Empty);
        }
        // A lone `+` is the plus key, not an empty modifier list.
        if same_text(text, "+") {
            return Ok(Chord::new(Key::Char('+'), Modifiers::none()));
        }
        let parts = split_char(text, '+');
        let ghost names = split_at_char(text@, '+');
        proof {
            reveal_with_fuel(split_at_char, 1);
            assert(names.len() >= 1);
            assert(parts@.len() == names.len());
        }
        let last: usize = parts.len() - 1;
        let mut modifiers = Modifiers::none();
        let mut i: usize = 0;
        while i < last
            invariant
                text@.len() != 0,
                text@ != "+"@,
                names == split_at_char(text@, '+'),
                texts(parts@) == names,
                last == parts@.len() - 1,
                i <= last,
                read_modifiers(names.take(i as int)) == Ok::<u8, ParseErrorView>(modifiers@),
            decreases last - i,
        {
            let name = parts[i].as_str();
            proof {
                assert(names[i as int] == name@);
                assert(names.take(i + 1).drop_last() =~= names.take(i as int));
                assert(names.take(i + 1).last() == name@);
                assert(names.drop_last().take(i + 1) =~= names.take(i + 1));
            }
            if same_ignoring_case(name, "mod") {
                proof {
                    lemma_first_error(names.drop_last(), i + 1);
                }
                return Err(ParseError::UnexpandedMod);
            }
            match Modifiers::parse(name) {
                Some(parsed) => {
                    modifiers = modifiers.with(parsed);
                },
                None => {
                    proof {
                        lemma_first_error(names.drop_last(), i + 1);
                    }
                    return Err(ParseError::UnknownModifier { modifier: name.to_owned() });
                },
            }
            i += 1;
        }
        let key = parts[last].as_str();
        proof {
            assert(names.take(last as int) =~= names.drop_last());
            assert(names.last() == key@);
        }
        if key.unicode_len() == 0 {
            return Err(ParseError::NoKey { chord: text.to_owned() });
        }
        match Key::parse(key) {
            Some(key) => Ok(Chord::new(key, modifiers)),
            None => Err(ParseError::UnknownKey { key: key.to_owned() }),
        }
    }
}

impl FromStr for Chord {
    type Err = ParseError;

    fn from_str(text: &str) -> (out: Result<Self, ParseError>)
        ensures
            match out {
                Ok(chord) => read_chord(text@) == Ok::<ChordView, ParseErrorView>(chord@),
                Err(error) => read_chord(text@) == Err::<ChordView, ParseErrorView>(error@),
            },
    {
        Chord::read(text)
    }
}

/// Whether both are the same chord.
pub fn same_chord(a: &Chord, b: &Chord) -> (out: bool)
    ensures
        out == (a@ == b@),
{
    same_key(&a.key, &b.key) && a.modifiers.0 == b.modifiers.0
}

/// The modifiers called `names`, or what is wrong with the first that is not
/// one.
pub open spec fn read_modifiers(names: Seq<Seq<char>>) -> Result<u8, ParseErrorView>
    decreases names.len(),
{
    if names.len() == 0 {
        Ok(0u8)
    } else {
        match read_modifiers(names.drop_last()) {
            Err(error) => Err(error),
            Ok(held) => if ascii_lower(names.last()) == ascii_lower("mod"@) {
                Err(ParseErrorView::UnexpandedMod)
            } else {
                match modifier_named(names.last()) {
                    Some(modifier) => Ok(held | modifier),
                    None => Err(ParseErrorView::UnknownModifier(names.last())),
                }
            },
        }
    }
}

/// An error among the first names is the error of all of them.
proof fn lemma_first_error(names: Seq<Seq<char>>, n: int)
    requires
        0 <= n <= names.len(),
        read_modifiers(names.take(n)) is Err,
    ensures
        read_modifiers(names) == read_modifiers(names.take(n)),
    decreases names.len(),
{
    if n < names.len() {
        assert(names.drop_last().take(n) =~= names.take(n));
        lemma_first_error(names.drop_last(), n);
    } else {
        assert(names.take(n) =~= names);
    }
}

/// The chord `text` writes, or what is wrong with it.
pub open spec fn read_chord(text: Seq<char>) -> Result<ChordView, ParseErrorView> {
    if text.len() == 0 {
        Err(ParseErrorView::Empty)
    } else if text == "+"@ {
        Ok(chord_of(KeyView::Char('+'), 0))
    } else {
        let parts = split_at_char(text, '+');
        match read_modifiers(parts.drop_last()) {
            Err(error) => Err(error),
            Ok(held) => if parts.last().len() == 0 {
                Err(ParseErrorView::NoKey(text))
            } else {
                match key_named(parts.last()) {
                    Some(key) => Ok(chord_of(key, held)),
                    None => Err(ParseErrorView::UnknownKey(parts.last())),
                }
            },
        }
    }
}

// ---------------------------------------------------------------------------
// Bindings
// ---------------------------------------------------------------------------

/// A whole binding: one chord, or a sequence of them like `g g`.
#[derive(Debug, PartialEq, Eq, PartialOrd, Ord, Hash)]
pub struct Binding(Vec<Chord>);

impl Clone for Binding {
    fn clone(&self) -> (out: Self)
        ensures
            out@ == self@,
    {
        proof {
            use_type_invariant(self);
        }
        let mut chords: Vec<Chord> = Vec::new();
        let mut i: usize = 0;
        while i < self.0.len()
            invariant
                i <= self.0@.len(),
                chords@ == self.0@.take(i as int),
            decreases self.0@.len() - i,
        {
            chords.push(self.0[i]);
            i += 1;
            assert(chords@ =~= self.0@.take(i as int));
        }
        assert(chords@ =~= self.0@);
        Binding(chords)
    }
}

/// The views of a sequence of chords.
pub open spec fn chord_views(chords: Seq<Chord>) -> Seq<ChordView> {
    chords.map_values(|chord: Chord| chord@)
}

impl View for Binding {
    type V = Seq<ChordView>;

    closed spec fn view(&self) -> Seq<ChordView> {
        chord_views(self.0@)
    }
}

/// How `chords` are written: one after another, a space between them.
pub open spec fn chords_text(chords: Seq<ChordView>) -> Seq<char> {
    joined(chords.map_values(|chord: ChordView| chord_text(chord)), " "@)
}

/// `chords` starts with `prefix`, and goes on after it.
pub open spec fn goes_on(chords: Seq<ChordView>, prefix: Seq<ChordView>) -> bool {
    chords.len() > prefix.len() && chords.take(prefix.len() as int) == prefix
}

/// The chords the words write, or what is wrong with the first that is none.
pub open spec fn read_chords(words: Seq<Seq<char>>) -> Result<Seq<ChordView>, ParseErrorView>
    decreases words.len(),
{
    if words.len() == 0 {
        Ok(Seq::empty())
    } else {
        match read_chords(words.drop_last()) {
            Err(error) => Err(error),
            Ok(chords) => match read_chord(words.last()) {
                Ok(chord) => Ok(chords.push(chord)),
                Err(error) => Err(error),
            },
        }
    }
}

proof fn lemma_first_bad_chord(words: Seq<Seq<char>>, n: int)
    requires
        0 <= n <= words.len(),
        read_chords(words.take(n)) is Err,
    ensures
        read_chords(words) == read_chords(words.take(n)),
    decreases words.len(),
{
    if n < words.len() {
        assert(words.drop_last().take(n) =~= words.take(n));
        lemma_first_bad_chord(words.drop_last(), n);
    } else {
        assert(words.take(n) =~= words);
    }
}

/// The binding `text` writes, or what is wrong with it.
pub open spec fn read_binding(text: Seq<char>) -> Result<Seq<ChordView>, ParseErrorView> {
    match read_chords(words_of(text)) {
        Ok(chords) => if chords.len() == 0 {
            Err(ParseErrorView::Empty)
        } else {
            Ok(chords)
        },
        Err(error) => Err(error),
    }
}

/// Whether both are the same chords.
pub fn same_chords(a: &[Chord], b: &[Chord]) -> (out: bool)
    ensures
        out == (chord_views(a@) == chord_views(b@)),
{
    if a.len() != b.len() {
        assert(chord_views(a@).len() != chord_views(b@).len());
        return false;
    }
    chords_start(a, b)
}

/// Whether `a` starts with the chords of `b`.
fn chords_start(a: &[Chord], b: &[Chord]) -> (out: bool)
    requires
        b@.len() <= a@.len(),
    ensures
        out == (chord_views(a@).take(b@.len() as int) == chord_views(b@)),
        a@.len() == b@.len() ==> out == (chord_views(a@) == chord_views(b@)),
{
    let mut i: usize = 0;
    while i < b.len()
        invariant
            b@.len() <= a@.len(),
            i <= b@.len(),
            forall|j: int| 0 <= j < i ==> (#[trigger] a@[j])@ == b@[j]@,
        decreases b@.len() - i,
    {
        if !same_chord(&a[i], &b[i]) {
            assert(chord_views(a@).take(b@.len() as int)[i as int] != chord_views(b@)[i as int]);
            assert(chord_views(a@)[i as int] != chord_views(b@)[i as int]);
            return false;
        }
        i += 1;
    }
    assert(chord_views(a@).take(b@.len() as int) =~= chord_views(b@));
    proof {
        if a@.len() == b@.len() {
            assert(chord_views(a@) =~= chord_views(b@));
        }
    }
    true
}

/// How `chords` are written.
pub fn describe_chords(chords: &[Chord]) -> (out: String)
    ensures
        out@ == chords_text(chord_views(chords@)),
{
    let mut parts: Vec<String> = Vec::new();
    let mut i: usize = 0;
    while i < chords.len()
        invariant
            i <= chords@.len(),
            parts@.len() == i,
            forall|j: int|
                0 <= j < i ==> (#[trigger] parts@[j])@ == chord_text(chords@[j]@),
        decreases chords@.len() - i,
    {
        parts.push(chords[i].to_string());
        i += 1;
    }
    assert(texts(parts@) =~= chord_views(chords@).map_values(|chord: ChordView| chord_text(chord)));
    join(parts.as_slice(), " ")
}

impl Binding {
    /// A binding has at least one chord.
    #[verifier::type_invariant]
    spec fn not_empty(self) -> bool {
        self.0@.len() > 0
    }

    /// The chords, in the order they must be pressed.
    pub fn chords(&self) -> (out: &[Chord])
        ensures
            chord_views(out@) == self@,
            out@.len() > 0,
    {
        proof {
            use_type_invariant(self);
        }
        self.0.as_slice()
    }

    /// The first chord, which is what the text-entry rule is applied to.
    pub fn first(&self) -> (out: &Chord)
        ensures
            self@.len() > 0,
            out@ == self@[0],
    {
        proof {
            use_type_invariant(self);
        }
        &self.0[0]
    }

    /// How many presses it takes.
    pub fn len(&self) -> (out: usize)
        ensures
            out == self@.len(),
            out > 0,
    {
        proof {
            use_type_invariant(self);
        }
        self.0.len()
    }

    /// Never true: a binding always has at least one chord.
    pub fn is_empty(&self) -> (out: bool)
        ensures
            !out,
            out == (self@.len() == 0),
    {
        proof {
            use_type_invariant(self);
        }
        false
    }

    /// Whether this binding starts with `prefix` and goes on after it.
    pub fn starts_with(&self, prefix: &[Chord]) -> (out: bool)
        ensures
            out == goes_on(self@, chord_views(prefix@)),
    {
        self.0.len() > prefix.len() && chords_start(self.0.as_slice(), prefix)
    }

    /// The binding as it is written.
    pub fn to_string(&self) -> (out: String)
        ensures
            out@ == chords_text(self@),
    {
        describe_chords(self.0.as_slice())
    }

    /// Reads a binding: chords with white space between them.
    pub fn read(text: &str) -> (out: Result<Self, ParseError>)
        ensures
            match out {
                Ok(binding) => read_binding(text@) == Ok::<Seq<ChordView>, ParseErrorView>(binding@),
                Err(error) => read_binding(text@) == Err::<Seq<ChordView>, ParseErrorView>(error@),
            },
    {
        let words = split_words(text);
        let ghost names = words_of(text@);
        let mut chords: Vec<Chord> = Vec::new();
        let mut i: usize = 0;
        assert(chord_views(chords@) =~= Seq::<ChordView>::empty());
        assert(words@.len() == names.len());
        while i < words.len()
            invariant
                names == words_of(text@),
                texts(words@) == names,
                words@.len() == names.len(),
                i <= words@.len(),
                chords@.len() == i,
                read_chords(names.take(i as int)) == Ok::<Seq<ChordView>, ParseErrorView>(
                    chord_views(chords@),
                ),
            decreases words@.len() - i,
        {
            let ghost before = chord_views(chords@);
            proof {
                assert(names[i as int] == words@[i as int]@);
                assert(names.take(i + 1).drop_last() =~= names.take(i as int));
                assert(names.take(i + 1).last() == names[i as int]);
            }
            match Chord::read(words[i].as_str()) {
                Ok(chord) => {
                    chords.push(chord);
                    assert(chord_views(chords@) =~= before.push(chord@));
                },
                Err(error) => {
                    proof {
                        lemma_first_bad_chord(names, i + 1);
                    }
                    return Err(error);
                },
            }
            i += 1;
        }
        assert(names.take(names.len() as int) =~= names);
        if chords.len() == 0 {
            return Err(ParseError::Empty);
        }
        Ok(Binding(chords))
    }
}

impl FromStr for Binding {
    type Err = ParseError;

    fn from_str(text: &str) -> (out: Result<Self, ParseError>)
        ensures
            match out {
                Ok(binding) => read_binding(text@) == Ok::<Seq<ChordView>, ParseErrorView>(binding@),
                Err(error) => read_binding(text@) == Err::<Seq<ChordView>, ParseErrorView>(error@),
            },
    {
        Binding::read(text)
    }
}

/// Why a binding string could not be read.
#[derive(Debug, Clone, PartialEq, Eq)]
pub enum ParseError {
    /// The binding string was empty or all whitespace.
    Empty,
    /// The platform-neutral `mod` reached the resolver unexpanded.
    ///
    /// Its own variant, because the message would otherwise send someone
    /// looking for a typo in a binding that is spelled exactly right.
    UnexpandedMod,
    /// A `+`-separated part was not a modifier.
    UnknownModifier {
        /// What was written.
        modifier: String,
    },
    /// The chord ended with a modifier and no key.
    NoKey {
        /// The chord as written.
        chord: String,
    },
    /// The key name is not one this build knows.
    UnknownKey {
        /// What was written.
        key: String,
    },
}

/// Why a binding could not be read, with what was written as text.
pub enum ParseErrorView {
    /// Nothing was written.
    Empty,
    /// `mod` was not expanded.
    UnexpandedMod,
    /// A part was not a modifier.
    UnknownModifier(Seq<char>),
    /// The chord ended without a key.
    NoKey(Seq<char>),
    /// The key is not known.
    UnknownKey(Seq<char>),
}

impl View for ParseError {
    type V = ParseErrorView;

    open spec fn view(&self) -> ParseErrorView {
        match *self {
            ParseError::Empty => ParseErrorView::Empty,
            ParseError::UnexpandedMod => ParseErrorView::UnexpandedMod,
            ParseError::UnknownModifier { modifier } => ParseErrorView::UnknownModifier(modifier@),
            ParseError::NoKey { chord } => ParseErrorView::NoKey(chord@),
            ParseError::UnknownKey { key } => ParseErrorView::UnknownKey(key@),
        }
    }
}

/// What an error says.
pub open spec fn error_text(error: ParseErrorView) -> Seq<char> {
    match error {
        ParseErrorView::Empty => "a binding cannot be empty"@,
        ParseErrorView::UnexpandedMod =>
            "`mod` is resolved when the keymap is built, so it cannot reach the resolver; expand it with `postio_config::keys::expand_mod` first"@,
        ParseErrorView::UnknownModifier(modifier) => "`"@ + modifier
            + "` is not a modifier; use mod, ctrl, alt, shift or super"@,
        ParseErrorView::NoKey(chord) => "`"@ + chord + "` ends with a modifier and no key"@,
        ParseErrorView::UnknownKey(key) => "`"@ + key + "` is not a key name"@,
    }
}

impl ParseError {
    /// What is wrong, written to be shown beside the entry it came from.
    pub fn to_string(&self) -> (out: String)
        ensures
            out@ == error_text(self@),
    {
        let mut out = String::new();
        match self {
            ParseError::Empty => {
                return "a binding cannot be empty".to_owned();
            },
            ParseError::UnexpandedMod => {
                return "`mod` is resolved when the keymap is built, so it cannot reach the resolver; expand it with `postio_config::keys::expand_mod` first".to_owned();
            },
            ParseError::UnknownModifier { modifier } => {
                out.append("`");
                out.append(modifier.as_str());
                out.append("` is not a modifier; use mod, ctrl, alt, shift or super");
            },
            ParseError::NoKey { chord } => {
                out.append("`");
                out.append(chord.as_str());
                out.append("` ends with a modifier and no key");
            },
            ParseError::UnknownKey { key } => {
                out.append("`");
                out.append(key.as_str());
                out.append("` is not a key name");
            },
        }
        assert(out@ =~= error_text(self@));
        out
    }
}

} // verus!
