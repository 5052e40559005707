//! What a chord or a binding writes, it reads back; what every chord that was
//! read keeps; and which of them fire while a text field has focus.
use vstd::prelude::*;
use crate::keymap::chord::{called, chord_from_event, chord_of, chord_text, chords_text, holds, is_function_key};
use crate::keymap::chord::{key_named, key_text, keysym, modifier_named, name_of, survives};
use crate::keymap::chord::{modifiers_text, named_keys, punctuation_names, read_binding, read_chord, read_chords};
use crate::keymap::chord::{read_modifiers, text_if_held, ChordView, KeyView, ParseErrorView};
use crate::text::{ascii_lower, first_index, joined, number_of, split_at_char, white_space, word_start, words_of};

verus! {

// ---------------------------------------------------------------------------
// The names of keys
// ---------------------------------------------------------------------------

/// What tells the spellings of keys apart: how long they are, and the letters
/// they start and end with.
spec fn outline(name: Seq<char>) -> (nat, char, char) {
    (name.len(), name[0], name.last())
}

proof fn lemma_outlines()
    ensures
        outline("plus"@) == (4nat, 'p', 's'),
        outline("minus"@) == (5nat, 'm', 's'),
        outline("equal"@) == (5nat, 'e', 'l'),
        outline("slash"@) == (5nat, 's', 'h'),
        outline("backslash"@) == (9nat, 'b', 'h'),
        outline("question"@) == (8nat, 'q', 'n'),
        outline("comma"@) == (5nat, 'c', 'a'),
        outline("period"@) == (6nat, 'p', 'd'),
        outline("semicolon"@) == (9nat, 's', 'n'),
        outline("colon"@) == (5nat, 'c', 'n'),
        outline("asterisk"@) == (8nat, 'a', 'k'),
        outline("underscore"@) == (10nat, 'u', 'e'),
        outline("less"@) == (4nat, 'l', 's'),
        outline("greater"@) == (7nat, 'g', 'r'),
        outline("bracketleft"@) == (11nat, 'b', 't'),
        outline("bracketright"@) == (12nat, 'b', 't'),
        outline("grave"@) == (5nat, 'g', 'e'),
        outline("apostrophe"@) == (10nat, 'a', 'e'),
        outline("quotedbl"@) == (8nat, 'q', 'l'),
        outline("return"@) == (6nat, 'r', 'n'),
        outline("enter"@) == (5nat, 'e', 'r'),
        outline("escape"@) == (6nat, 'e', 'e'),
        outline("esc"@) == (3nat, 'e', 'c'),
        outline("tab"@) == (3nat, 't', 'b'),
        outline("space"@) == (5nat, 's', 'e'),
        outline("backspace"@) == (9nat, 'b', 'e'),
        outline("delete"@) == (6nat, 'd', 'e'),
        outline("insert"@) == (6nat, 'i', 't'),
        outline("home"@) == (4nat, 'h', 'e'),
        outline("end"@) == (3nat, 'e', 'd'),
        outline("page_up"@) == (7nat, 'p', 'p'),
        outline("pageup"@) == (6nat, 'p', 'p'),
        outline("prior"@) == (5nat, 'p', 'r'),
        outline("page_down"@) == (9nat, 'p', 'n'),
        outline("pagedown"@) == (8nat, 'p', 'n'),
        outline("next"@) == (4nat, 'n', 't'),
        outline("up"@) == (2nat, 'u', 'p'),
        outline("down"@) == (4nat, 'd', 'n'),
        outline("left"@) == (4nat, 'l', 't'),
        outline("right"@) == (5nat, 'r', 't'),
        outline("menu"@) == (4nat, 'm', 'u'),
        outline("f1"@) == (2nat, 'f', '1'),
        outline("f2"@) == (2nat, 'f', '2'),
        outline("f3"@) == (2nat, 'f', '3'),
        outline("f4"@) == (2nat, 'f', '4'),
        outline("f5"@) == (2nat, 'f', '5'),
        outline("f6"@) == (2nat, 'f', '6'),
        outline("f7"@) == (2nat, 'f', '7'),
        outline("f8"@) == (2nat, 'f', '8'),
        outline("f9"@) == (2nat, 'f', '9'),
        outline("f10"@) == (3nat, 'f', '0'),
        outline("f11"@) == (3nat, 'f', '1'),
        outline("f12"@) == (3nat, 'f', '2'),
{
    reveal_strlit("plus");
    reveal_strlit("minus");
    reveal_strlit("equal");
    reveal_strlit("slash");
    reveal_strlit("backslash");
    reveal_strlit("question");
    reveal_strlit("comma");
    reveal_strlit("period");
    reveal_strlit("semicolon");
    reveal_strlit("colon");
    reveal_strlit("asterisk");
    reveal_strlit("underscore");
    reveal_strlit("less");
    reveal_strlit("greater");
    reveal_strlit("bracketleft");
    reveal_strlit("bracketright");
    reveal_strlit("grave");
    reveal_strlit("apostrophe");
    reveal_strlit("quotedbl");
    reveal_strlit("return");
    reveal_strlit("enter");
    reveal_strlit("escape");
    reveal_strlit("esc");
    reveal_strlit("tab");
    reveal_strlit("space");
    reveal_strlit("backspace");
    reveal_strlit("delete");
    reveal_strlit("insert");
    reveal_strlit("home");
    reveal_strlit("end");
    reveal_strlit("page_up");
    reveal_strlit("pageup");
    reveal_strlit("prior");
    reveal_strlit("page_down");
    reveal_strlit("pagedown");
    reveal_strlit("next");
    reveal_strlit("up");
    reveal_strlit("down");
    reveal_strlit("left");
    reveal_strlit("right");
    reveal_strlit("menu");
    reveal_strlit("f1");
    reveal_strlit("f2");
    reveal_strlit("f3");
    reveal_strlit("f4");
    reveal_strlit("f5");
    reveal_strlit("f6");
    reveal_strlit("f7");
    reveal_strlit("f8");
    reveal_strlit("f9");
    reveal_strlit("f10");
    reveal_strlit("f11");
    reveal_strlit("f12");
}

/// `lower` is a spelling of the key stored as `name`, and of no character.
spec fn spells(lower: Seq<char>, name: Seq<char>) -> bool {
    called(punctuation_names(), lower, 0) is None && called(named_keys(), lower, 0) == Some(name)
}

#[verifier::rlimit(40)]
#[verifier::spinoff_prover]
proof fn lemma_spellings()
    ensures
        spells("return"@, "Return"@),
        spells("escape"@, "Escape"@),
        spells("tab"@, "Tab"@),
        spells("space"@, "Space"@),
        spells("backspace"@, "BackSpace"@),
        spells("delete"@, "Delete"@),
        spells("insert"@, "Insert"@),
        spells("home"@, "Home"@),
        spells("end"@, "End"@),
        spells("page_up"@, "Page_Up"@),
        spells("page_down"@, "Page_Down"@),
        spells("up"@, "Up"@),
        spells("down"@, "Down"@),
        spells("left"@, "Left"@),
        spells("right"@, "Right"@),
        spells("menu"@, "Menu"@),
        spells("f1"@, "F1"@),
        spells("f2"@, "F2"@),
        spells("f3"@, "F3"@),
        spells("f4"@, "F4"@),
        spells("f5"@, "F5"@),
        spells("f6"@, "F6"@),
        spells("f7"@, "F7"@),
        spells("f8"@, "F8"@),
        spells("f9"@, "F9"@),
        spells("f10"@, "F10"@),
        spells("f11"@, "F11"@),
        spells("f12"@, "F12"@),
{
    lemma_outlines();
    assert(spells("return"@, "Return"@)) by {
        reveal_with_fuel(called, 35);
    }
    assert(spells("escape"@, "Escape"@)) by {
        reveal_with_fuel(called, 35);
    }
    assert(spells("tab"@, "Tab"@)) by {
        reveal_with_fuel(called, 35);
    }
    assert(spells("space"@, "Space"@)) by {
        reveal_with_fuel(called, 35);
    }
    assert(spells("backspace"@, "BackSpace"@)) by {
        reveal_with_fuel(called, 35);
    }
    assert(spells("delete"@, "Delete"@)) by {
        reveal_with_fuel(called, 35);
    }
    assert(spells("insert"@, "Insert"@)) by {
        reveal_with_fuel(called, 35);
    }
    assert(spells("home"@, "Home"@)) by {
        reveal_with_fuel(called, 35);
    }
    assert(spells("end"@, "End"@)) by {
        reveal_with_fuel(called, 35);
    }
    assert(spells("page_up"@, "Page_Up"@)) by {
        reveal_with_fuel(called, 35);
    }
    assert(spells("page_down"@, "Page_Down"@)) by {
        reveal_with_fuel(called, 35);
    }
    assert(spells("up"@, "Up"@)) by {
        reveal_with_fuel(called, 35);
    }
    assert(spells("down"@, "Down"@)) by {
        reveal_with_fuel(called, 35);
    }
    assert(spells("left"@, "Left"@)) by {
        reveal_with_fuel(called, 35);
    }
    assert(spells("right"@, "Right"@)) by {
        reveal_with_fuel(called, 35);
    }
    assert(spells("menu"@, "Menu"@)) by {
        reveal_with_fuel(called, 35);
    }
    assert(spells("f1"@, "F1"@)) by {
        reveal_with_fuel(called, 35);
    }
    assert(spells("f2"@, "F2"@)) by {
        reveal_with_fuel(called, 35);
    }
    assert(spells("f3"@, "F3"@)) by {
        reveal_with_fuel(called, 35);
    }
    assert(spells("f4"@, "F4"@)) by {
        reveal_with_fuel(called, 35);
    }
    assert(spells("f5"@, "F5"@)) by {
        reveal_with_fuel(called, 35);
    }
    assert(spells("f6"@, "F6"@)) by {
        reveal_with_fuel(called, 35);
    }
    assert(spells("f7"@, "F7"@)) by {
        reveal_with_fuel(called, 35);
    }
    assert(spells("f8"@, "F8"@)) by {
        reveal_with_fuel(called, 35);
    }
    assert(spells("f9"@, "F9"@)) by {
        reveal_with_fuel(called, 35);
    }
    assert(spells("f10"@, "F10"@)) by {
        reveal_with_fuel(called, 35);
    }
    assert(spells("f11"@, "F11"@)) by {
        reveal_with_fuel(called, 35);
    }
    assert(spells("f12"@, "F12"@)) by {
        reveal_with_fuel(called, 35);
    }
}

/// A key stored as `name` is written so that it reads back.
spec fn stands(name: Seq<char>) -> bool {
    name.len() > 1 && !name.contains('+') && key_named(name) == Some(KeyView::Named(name))
}

proof fn lemma_names_stand()
    ensures
        stands("Return"@),
        stands("Escape"@),
        stands("Tab"@),
        stands("Space"@),
        stands("BackSpace"@),
        stands("Delete"@),
        stands("Insert"@),
        stands("Home"@),
        stands("End"@),
        stands("Page_Up"@),
        stands("Page_Down"@),
        stands("Up"@),
        stands("Down"@),
        stands("Left"@),
        stands("Right"@),
        stands("Menu"@),
        stands("F1"@),
        stands("F2"@),
        stands("F3"@),
        stands("F4"@),
        stands("F5"@),
        stands("F6"@),
        stands("F7"@),
        stands("F8"@),
        stands("F9"@),
        stands("F10"@),
        stands("F11"@),
        stands("F12"@),
{
    lemma_spellings();
    assert(stands("Return"@)) by {
        reveal_strlit("Return");
        reveal_strlit("return");
        assert(ascii_lower("Return"@) =~= "return"@);
    }
    assert(stands("Escape"@)) by {
        reveal_strlit("Escape");
        reveal_strlit("escape");
        assert(ascii_lower("Escape"@) =~= "escape"@);
    }
    assert(stands("Tab"@)) by {
        reveal_strlit("Tab");
        reveal_strlit("tab");
        assert(ascii_lower("Tab"@) =~= "tab"@);
    }
    assert(stands("Space"@)) by {
        reveal_strlit("Space");
        reveal_strlit("space");
        assert(ascii_lower("Space"@) =~= "space"@);
    }
    assert(stands("BackSpace"@)) by {
        reveal_strlit("BackSpace");
        reveal_strlit("backspace");
        assert(ascii_lower("BackSpace"@) =~= "backspace"@);
    }
    assert(stands("Delete"@)) by {
        reveal_strlit("Delete");
        reveal_strlit("delete");
        assert(ascii_lower("Delete"@) =~= "delete"@);
    }
    assert(stands("Insert"@)) by {
        reveal_strlit("Insert");
        reveal_strlit("insert");
        assert(ascii_lower("Insert"@) =~= "insert"@);
    }
    assert(stands("Home"@)) by {
        reveal_strlit("Home");
        reveal_strlit("home");
        assert(ascii_lower("Home"@) =~= "home"@);
    }
    assert(stands("End"@)) by {
        reveal_strlit("End");
        reveal_strlit("end");
        assert(ascii_lower("End"@) =~= "end"@);
    }
    assert(stands("Page_Up"@)) by {
        reveal_strlit("Page_Up");
        reveal_strlit("page_up");
        assert(ascii_lower("Page_Up"@) =~= "page_up"@);
    }
    assert(stands("Page_Down"@)) by {
        reveal_strlit("Page_Down");
        reveal_strlit("page_down");
        assert(ascii_lower("Page_Down"@) =~= "page_down"@);
    }
    assert(stands("Up"@)) by {
        reveal_strlit("Up");
        reveal_strlit("up");
        assert(ascii_lower("Up"@) =~= "up"@);
    }
    assert(stands("Down"@)) by {
        reveal_strlit("Down");
        reveal_strlit("down");
        assert(ascii_lower("Down"@) =~= "down"@);
    }
    assert(stands("Left"@)) by {
        reveal_strlit("Left");
        reveal_strlit("left");
        assert(ascii_lower("Left"@) =~= "left"@);
    }
    assert(stands("Right"@)) by {
        reveal_strlit("Right");
        reveal_strlit("right");
        assert(ascii_lower("Right"@) =~= "right"@);
    }
    assert(stands("Menu"@)) by {
        reveal_strlit("Menu");
        reveal_strlit("menu");
        assert(ascii_lower("Menu"@) =~= "menu"@);
    }
    assert(stands("F1"@)) by {
        reveal_strlit("F1");
        reveal_strlit("f1");
        assert(ascii_lower("F1"@) =~= "f1"@);
    }
    assert(stands("F2"@)) by {
        reveal_strlit("F2");
        reveal_strlit("f2");
        assert(ascii_lower("F2"@) =~= "f2"@);
    }
    assert(stands("F3"@)) by {
        reveal_strlit("F3");
        reveal_strlit("f3");
        assert(ascii_lower("F3"@) =~= "f3"@);
    }
    assert(stands("F4"@)) by {
        reveal_strlit("F4");
        reveal_strlit("f4");
        assert(ascii_lower("F4"@) =~= "f4"@);
    }
    assert(stands("F5"@)) by {
        reveal_strlit("F5");
        reveal_strlit("f5");
        assert(ascii_lower("F5"@) =~= "f5"@);
    }
    assert(stands("F6"@)) by {
        reveal_strlit("F6");
        reveal_strlit("f6");
        assert(ascii_lower("F6"@) =~= "f6"@);
    }
    assert(stands("F7"@)) by {
        reveal_strlit("F7");
        reveal_strlit("f7");
        assert(ascii_lower("F7"@) =~= "f7"@);
    }
    assert(stands("F8"@)) by {
        reveal_strlit("F8");
        reveal_strlit("f8");
        assert(ascii_lower("F8"@) =~= "f8"@);
    }
    assert(stands("F9"@)) by {
        reveal_strlit("F9");
        reveal_strlit("f9");
        assert(ascii_lower("F9"@) =~= "f9"@);
    }
    assert(stands("F10"@)) by {
        reveal_strlit("F10");
        reveal_strlit("f10");
        assert(ascii_lower("F10"@) =~= "f10"@);
    }
    assert(stands("F11"@)) by {
        reveal_strlit("F11");
        reveal_strlit("f11");
        assert(ascii_lower("F11"@) =~= "f11"@);
    }
    assert(stands("F12"@)) by {
        reveal_strlit("F12");
        reveal_strlit("f12");
        assert(ascii_lower("F12"@) =~= "f12"@);
    }
}

proof fn lemma_names_are_words()
    ensures
        is_word("Return"@),
        is_word("Escape"@),
        is_word("Tab"@),
        is_word("Space"@),
        is_word("BackSpace"@),
        is_word("Delete"@),
        is_word("Insert"@),
        is_word("Home"@),
        is_word("End"@),
        is_word("Page_Up"@),
        is_word("Page_Down"@),
        is_word("Up"@),
        is_word("Down"@),
        is_word("Left"@),
        is_word("Right"@),
        is_word("Menu"@),
        is_word("F1"@),
        is_word("F2"@),
        is_word("F3"@),
        is_word("F4"@),
        is_word("F5"@),
        is_word("F6"@),
        is_word("F7"@),
        is_word("F8"@),
        is_word("F9"@),
        is_word("F10"@),
        is_word("F11"@),
        is_word("F12"@),
{
    reveal_strlit("Return");
    reveal_strlit("Escape");
    reveal_strlit("Tab");
    reveal_strlit("Space");
    reveal_strlit("BackSpace");
    reveal_strlit("Delete");
    reveal_strlit("Insert");
    reveal_strlit("Home");
    reveal_strlit("End");
    reveal_strlit("Page_Up");
    reveal_strlit("Page_Down");
    reveal_strlit("Up");
    reveal_strlit("Down");
    reveal_strlit("Left");
    reveal_strlit("Right");
    reveal_strlit("Menu");
    reveal_strlit("F1");
    reveal_strlit("F2");
    reveal_strlit("F3");
    reveal_strlit("F4");
    reveal_strlit("F5");
    reveal_strlit("F6");
    reveal_strlit("F7");
    reveal_strlit("F8");
    reveal_strlit("F9");
    reveal_strlit("F10");
    reveal_strlit("F11");
    reveal_strlit("F12");
}

/// A key the keyboard has a name for, stored by that name.
pub open spec fn is_named_key(name: Seq<char>) -> bool {
    exists|i: int| 0 <= i < named_keys().len() && (#[trigger] named_keys()[i]).1 == name
}

proof fn lemma_named_key_stands(name: Seq<char>)
    requires
        is_named_key(name),
    ensures
        stands(name),
{
    lemma_names_stand();
}

/// `name` is the spelling of the key that types `c`.
spec fn spells_char(name: Seq<char>, c: char) -> bool {
    name.len() > 1 && ascii_lower(name) == name && called(punctuation_names(), name, 0) == Some(c)
}

#[verifier::rlimit(40)]
#[verifier::spinoff_prover]
proof fn lemma_characters_are_spelled()
    ensures
        spells_char("plus"@, '+'),
        spells_char("minus"@, '-'),
        spells_char("equal"@, '='),
        spells_char("slash"@, '/'),
        spells_char("backslash"@, '\\'),
        spells_char("question"@, '?'),
        spells_char("comma"@, ','),
        spells_char("period"@, '.'),
        spells_char("semicolon"@, ';'),
        spells_char("colon"@, ':'),
        spells_char("asterisk"@, '*'),
        spells_char("underscore"@, '_'),
        spells_char("less"@, '<'),
        spells_char("greater"@, '>'),
        spells_char("bracketleft"@, '['),
        spells_char("bracketright"@, ']'),
        spells_char("grave"@, '`'),
        spells_char("apostrophe"@, '\''),
        spells_char("quotedbl"@, '"'),
{
    lemma_outlines();
    assert(spells_char("plus"@, '+')) by {
        reveal_with_fuel(called, 20);
        reveal_strlit("plus");
        assert(ascii_lower("plus"@) =~= "plus"@);
    }
    assert(spells_char("minus"@, '-')) by {
        reveal_with_fuel(called, 20);
        reveal_strlit("minus");
        assert(ascii_lower("minus"@) =~= "minus"@);
    }
    assert(spells_char("equal"@, '=')) by {
        reveal_with_fuel(called, 20);
        reveal_strlit("equal");
        assert(ascii_lower("equal"@) =~= "equal"@);
    }
    assert(spells_char("slash"@, '/')) by {
        reveal_with_fuel(called, 20);
        reveal_strlit("slash");
        assert(ascii_lower("slash"@) =~= "slash"@);
    }
    assert(spells_char("backslash"@, '\\')) by {
        reveal_with_fuel(called, 20);
        reveal_strlit("backslash");
        assert(ascii_lower("backslash"@) =~= "backslash"@);
    }
    assert(spells_char("question"@, '?')) by {
        reveal_with_fuel(called, 20);
        reveal_strlit("question");
        assert(ascii_lower("question"@) =~= "question"@);
    }
    assert(spells_char("comma"@, ',')) by {
        reveal_with_fuel(called, 20);
        reveal_strlit("comma");
        assert(ascii_lower("comma"@) =~= "comma"@);
    }
    assert(spells_char("period"@, '.')) by {
        reveal_with_fuel(called, 20);
        reveal_strlit("period");
        assert(ascii_lower("period"@) =~= "period"@);
    }
    assert(spells_char("semicolon"@, ';')) by {
        reveal_with_fuel(called, 20);
        reveal_strlit("semicolon");
        assert(ascii_lower("semicolon"@) =~= "semicolon"@);
    }
    assert(spells_char("colon"@, ':')) by {
        reveal_with_fuel(called, 20);
        reveal_strlit("colon");
        assert(ascii_lower("colon"@) =~= "colon"@);
    }
    assert(spells_char("asterisk"@, '*')) by {
        reveal_with_fuel(called, 20);
        reveal_strlit("asterisk");
        assert(ascii_lower("asterisk"@) =~= "asterisk"@);
    }
    assert(spells_char("underscore"@, '_')) by {
        reveal_with_fuel(called, 20);
        reveal_strlit("underscore");
        assert(ascii_lower("underscore"@) =~= "underscore"@);
    }
    assert(spells_char("less"@, '<')) by {
        reveal_with_fuel(called, 20);
        reveal_strlit("less");
        assert(ascii_lower("less"@) =~= "less"@);
    }
    assert(spells_char("greater"@, '>')) by {
        reveal_with_fuel(called, 20);
        reveal_strlit("greater");
        assert(ascii_lower("greater"@) =~= "greater"@);
    }
    assert(spells_char("bracketleft"@, '[')) by {
        reveal_with_fuel(called, 20);
        reveal_strlit("bracketleft");
        assert(ascii_lower("bracketleft"@) =~= "bracketleft"@);
    }
    assert(spells_char("bracketright"@, ']')) by {
        reveal_with_fuel(called, 20);
        reveal_strlit("bracketright");
        assert(ascii_lower("bracketright"@) =~= "bracketright"@);
    }
    assert(spells_char("grave"@, '`')) by {
        reveal_with_fuel(called, 20);
        reveal_strlit("grave");
        assert(ascii_lower("grave"@) =~= "grave"@);
    }
    assert(spells_char("apostrophe"@, '\'')) by {
        reveal_with_fuel(called, 20);
        reveal_strlit("apostrophe");
        assert(ascii_lower("apostrophe"@) =~= "apostrophe"@);
    }
    assert(spells_char("quotedbl"@, '"')) by {
        reveal_with_fuel(called, 20);
        reveal_strlit("quotedbl");
        assert(ascii_lower("quotedbl"@) =~= "quotedbl"@);
    }
}

proof fn lemma_name_of<V>(table: Seq<(Seq<char>, V)>, value: V, from: int)
    requires
        0 <= from,
    ensures
        name_of(table, value, from) matches Some(name) ==> exists|i: int|
            0 <= i < table.len() && (#[trigger] table[i]).0 == name && table[i].1 == value,
    decreases table.len() - from,
{
    if from < table.len() && table[from].1 != value {
        lemma_name_of(table, value, from + 1);
    }
}

proof fn lemma_called<V>(table: Seq<(Seq<char>, V)>, name: Seq<char>, from: int)
    requires
        0 <= from,
    ensures
        called(table, name, from) matches Some(value) ==> exists|i: int|
            0 <= i < table.len() && (#[trigger] table[i]).1 == value,
    decreases table.len() - from,
{
    if from < table.len() && table[from].0 != name {
        lemma_called(table, name, from + 1);
    }
}

/// A key there is: one that types a character, or one stored by its name.
pub open spec fn is_key(key: KeyView) -> bool {
    key matches KeyView::Named(name) ==> is_named_key(name)
}

/// The name a keyboard layout gives a key finds that key again, and so a
/// press of it that types nothing is a press of that key.
pub proof fn lemma_keysym_finds_its_key(key: KeyView, held: u8)
    requires
        is_key(key),
    ensures
        key_named(keysym(key)) == Some(key),
        chord_from_event(None, Some(keysym(key)), held) == Some(chord_of(key, held)),
        chord_from_event(None, Some(keysym(key)), 0) == Some(ChordView { key, modifiers: 0 }),
{
    assert(!holds(0, 4)) by {
        assert(0u8 & 4u8 == 0u8) by (bit_vector);
    }
    match key {
        KeyView::Char(c) => {
            lemma_name_of(punctuation_names(), c, 0);
            lemma_characters_are_spelled();
            assert(key_named(keysym(key)) == Some(key));
        },
        KeyView::Named(name) => {
            if name == "Space"@ {
                lemma_spellings();
                reveal_strlit("space");
                assert(ascii_lower("space"@) =~= "space"@);
            } else {
                lemma_named_key_stands(name);
            }
        },
    }
}

// ---------------------------------------------------------------------------
// Parts and words
// ---------------------------------------------------------------------------

proof fn lemma_absent(s: Seq<char>, c: char)
    requires
        !s.contains(c),
    ensures
        first_index(s, c) is None,
    decreases s.len(),
{
    if s.len() > 0 {
        assert(s.contains(s[0]));
        assert forall|i: int| 0 <= i < s.skip(1).len() implies s.skip(1)[i] != c by {
            assert(s.contains(s[i + 1]));
        }
        lemma_absent(s.skip(1), c);
    }
}

proof fn lemma_first_after(before: Seq<char>, c: char, rest: Seq<char>)
    requires
        !before.contains(c),
    ensures
        first_index(before + seq![c] + rest, c) == Some(before.len() as int),
    decreases before.len(),
{
    let s = before + seq![c] + rest;
    if before.len() > 0 {
        assert(before.contains(before[0]));
        assert forall|i: int| 0 <= i < before.skip(1).len() implies before.skip(1)[i] != c by {
            assert(before.contains(before[i + 1]));
        }
        lemma_first_after(before.skip(1), c, rest);
        assert(s.skip(1) =~= before.skip(1) + seq![c] + rest);
    }
}

proof fn lemma_split_first(part: Seq<char>, sep: char, rest: Seq<char>)
    requires
        !part.contains(sep),
    ensures
        split_at_char(part + seq![sep] + rest, sep) == seq![part] + split_at_char(rest, sep),
{
    let s = part + seq![sep] + rest;
    lemma_first_after(part, sep, rest);
    assert(s.take(part.len() as int) =~= part);
    assert(s.skip((part.len() + 1) as int) =~= rest);
}

proof fn lemma_split_whole(part: Seq<char>, sep: char)
    requires
        !part.contains(sep),
    ensures
        split_at_char(part, sep) == seq![part],
{
    lemma_absent(part, sep);
}

/// A word: something, and no white space in it.
spec fn is_word(s: Seq<char>) -> bool {
    s.len() > 0 && forall|i: int| 0 <= i < s.len() ==> !white_space(#[trigger] s[i])
}

proof fn lemma_word_starts(before: Seq<char>, word: Seq<char>, end: int)
    requires
        is_word(word),
        before.len() > 0 ==> white_space(before.last()),
        before.len() <= end <= before.len() + word.len(),
    ensures
        word_start(before + word, end) == before.len(),
    decreases end,
{
    let s = before + word;
    if end > before.len() {
        assert(s[end - 1] == word[end - 1 - before.len()]);
        lemma_word_starts(before, word, end - 1);
    } else if end > 0 {
        assert(s[end - 1] == before.last());
    }
}

proof fn lemma_words_of_joined(words: Seq<Seq<char>>)
    requires
        forall|i: int| 0 <= i < words.len() ==> is_word(#[trigger] words[i]),
    ensures
        words_of(joined(words, " "@)) == words,
    decreases words.len(),
{
    reveal_strlit(" ");
    let s = joined(words, " "@);
    if words.len() == 0 {
        assert(words_of(s) =~= words);
    } else {
        let front = words.drop_last();
        let word = words.last();
        assert(word == words[words.len() - 1]);
        assert forall|i: int| 0 <= i < front.len() implies is_word(#[trigger] front[i]) by {
            assert(front[i] == words[i]);
        }
        lemma_words_of_joined(front);
        let before = if words.len() == 1 {
            Seq::empty()
        } else {
            joined(front, " "@) + " "@
        };
        assert(s =~= before + word);
        lemma_word_starts(before, word, s.len() as int);
        assert(s.last() == word.last());
        assert(!white_space(word[word.len() - 1]));
        assert(s.take(before.len() as int) =~= before);
        assert(s.skip(before.len() as int) =~= word);
        if words.len() == 1 {
            assert(words_of(before) =~= front);
        } else {
            assert(before.drop_last() =~= joined(front, " "@));
            assert(white_space(before.last()));
            assert(words_of(before) == front);
        }
        assert(word_start(s, s.len() as int) == before.len());
        assert(words_of(s) =~= front.push(word));
        assert(front.push(word) =~= words);
    }
}

// ---------------------------------------------------------------------------
// Modifiers
// ---------------------------------------------------------------------------

/// The modifier called `name`, when it is held.
spec fn if_held(held: u8, some: u8, name: Seq<char>) -> Seq<Seq<char>> {
    if holds(held, some) {
        seq![name]
    } else {
        Seq::empty()
    }
}

/// The names of the modifiers held.
spec fn held_names(held: u8) -> Seq<Seq<char>> {
    if_held(held, 1, "ctrl"@) + if_held(held, 2, "alt"@) + if_held(held, 4, "shift"@) + if_held(
        held,
        8,
        "super"@,
    )
}

proof fn lemma_split_modifier(
    held: u8,
    some: u8,
    name: Seq<char>,
    text: Seq<char>,
    rest: Seq<char>,
)
    requires
        text == name + seq!['+'],
        !name.contains('+'),
    ensures
        split_at_char(text_if_held(held, some, text) + rest, '+') == if_held(held, some, name)
            + split_at_char(rest, '+'),
{
    if holds(held, some) {
        lemma_split_first(name, '+', rest);
    } else {
        assert(text_if_held(held, some, text) + rest =~= rest);
        assert(if_held(held, some, name) + split_at_char(rest, '+') =~= split_at_char(rest, '+'));
    }
}

proof fn lemma_split_chord(held: u8, key: Seq<char>)
    requires
        !key.contains('+'),
    ensures
        split_at_char(modifiers_text(held) + key, '+') == held_names(held).push(key),
{
    reveal_strlit("ctrl+");
    reveal_strlit("ctrl");
    reveal_strlit("alt+");
    reveal_strlit("alt");
    reveal_strlit("shift+");
    reveal_strlit("shift");
    reveal_strlit("super+");
    reveal_strlit("super");
    assert("ctrl+"@ =~= "ctrl"@ + seq!['+']);
    assert("alt+"@ =~= "alt"@ + seq!['+']);
    assert("shift+"@ =~= "shift"@ + seq!['+']);
    assert("super+"@ =~= "super"@ + seq!['+']);
    let last = text_if_held(held, 8, "super+"@) + key;
    let later = text_if_held(held, 4, "shift+"@) + last;
    let next = text_if_held(held, 2, "alt+"@) + later;
    lemma_split_whole(key, '+');
    lemma_split_modifier(held, 8, "super"@, "super+"@, key);
    lemma_split_modifier(held, 4, "shift"@, "shift+"@, last);
    lemma_split_modifier(held, 2, "alt"@, "alt+"@, later);
    lemma_split_modifier(held, 1, "ctrl"@, "ctrl+"@, next);
    assert(modifiers_text(held) + key =~= text_if_held(held, 1, "ctrl+"@) + next);
    assert(split_at_char(modifiers_text(held) + key, '+') =~= held_names(held).push(key));
}

proof fn lemma_one_more(
    names: Seq<Seq<char>>,
    read: u8,
    held: u8,
    some: u8,
    name: Seq<char>,
)
    requires
        read_modifiers(names) == Ok::<u8, ParseErrorView>(read),
        modifier_named(name) == Some(some),
        ascii_lower(name) != ascii_lower("mod"@),
    ensures
        read_modifiers(names + if_held(held, some, name)) == Ok::<u8, ParseErrorView>(
            if holds(held, some) {
                read | some
            } else {
                read
            },
        ),
{
    let all = names + if_held(held, some, name);
    if holds(held, some) {
        assert(all.drop_last() =~= names);
        assert(all.last() == name);
    } else {
        assert(all =~= names);
    }
}

proof fn lemma_modifiers_named()
    ensures
        modifier_named("ctrl"@) == Some(1u8),
        modifier_named("alt"@) == Some(2u8),
        modifier_named("shift"@) == Some(4u8),
        modifier_named("super"@) == Some(8u8),
        ascii_lower("ctrl"@) != ascii_lower("mod"@),
        ascii_lower("alt"@) != ascii_lower("mod"@),
        ascii_lower("shift"@) != ascii_lower("mod"@),
        ascii_lower("super"@) != ascii_lower("mod"@),
{
    reveal_strlit("ctrl");
    reveal_strlit("alt");
    reveal_strlit("shift");
    reveal_strlit("super");
    reveal_strlit("mod");
    reveal_strlit("control");
    reveal_strlit("meta");
    reveal_strlit("cmd");
    reveal_strlit("command");
    assert(ascii_lower("ctrl"@) =~= "ctrl"@);
    assert(ascii_lower("alt"@) =~= "alt"@);
    assert(ascii_lower("shift"@) =~= "shift"@);
    assert(ascii_lower("super"@) =~= "super"@);
    assert(ascii_lower("mod"@) =~= "mod"@);
    assert("alt"@[0] != "mod"@[0]);
    assert("shift"@[0] != "super"@[0] || "shift"@[1] != "super"@[1]);
}

proof fn lemma_modifiers_read(held: u8)
    requires
        held <= 15,
    ensures
        read_modifiers(held_names(held)) == Ok::<u8, ParseErrorView>(held),
{
    lemma_modifiers_named();
    let none = Seq::<Seq<char>>::empty();
    let first = none + if_held(held, 1, "ctrl"@);
    let second = first + if_held(held, 2, "alt"@);
    let third = second + if_held(held, 4, "shift"@);
    lemma_one_more(none, 0, held, 1, "ctrl"@);
    let a = if holds(held, 1) { 0u8 | 1u8 } else { 0u8 };
    lemma_one_more(first, a, held, 2, "alt"@);
    let b = if holds(held, 2) { a | 2u8 } else { a };
    lemma_one_more(second, b, held, 4, "shift"@);
    let c = if holds(held, 4) { b | 4u8 } else { b };
    lemma_one_more(third, c, held, 8, "super"@);
    let d = if holds(held, 8) { c | 8u8 } else { c };
    assert(a == held & 1u8) by (bit_vector)
        requires
            a == (if held & 1u8 == 1u8 { 0u8 | 1u8 } else { 0u8 }),
    ;
    assert(b == held & 3u8) by (bit_vector)
        requires
            a == held & 1u8,
            b == (if held & 2u8 == 2u8 { a | 2u8 } else { a }),
    ;
    assert(c == held & 7u8) by (bit_vector)
        requires
            b == held & 3u8,
            c == (if held & 4u8 == 4u8 { b | 4u8 } else { b }),
    ;
    assert(d == held) by (bit_vector)
        requires
            held <= 15,
            c == held & 7u8,
            d == (if held & 8u8 == 8u8 { c | 8u8 } else { c }),
    ;
    assert(third + if_held(held, 8, "super"@) =~= held_names(held));
}

// ---------------------------------------------------------------------------
// Laws
// ---------------------------------------------------------------------------

/// A chord that can be written down: its modifiers are ones there are, `Shift`
/// is folded into a character, a key without one is stored by its name, and
/// the plus key has nothing held with it -- `ctrl++` reads as modifiers alone.
pub open spec fn is_writable(chord: ChordView) -> bool {
    &&& chord.modifiers <= 15
    &&& match chord.key {
        KeyView::Char(c) => !holds(chord.modifiers, 4) && (c == '+' ==> chord.modifiers == 0),
        KeyView::Named(name) => is_named_key(name),
    }
}

/// What a chord writes reads back as that chord.
pub proof fn lemma_chord_reads_back(chord: ChordView)
    requires
        is_writable(chord),
    ensures
        read_chord(chord_text(chord)) == Ok::<ChordView, ParseErrorView>(chord),
{
    let key = key_text(chord.key);
    let text = chord_text(chord);
    reveal_strlit("+");
    if chord.key == KeyView::Char('+') {
        assert(!holds(0, 1) && !holds(0, 2) && !holds(0, 4) && !holds(0, 8)) by {
            assert(0u8 & 1u8 == 0u8 && 0u8 & 2u8 == 0u8 && 0u8 & 4u8 == 0u8 && 0u8 & 8u8 == 0u8)
                by (bit_vector);
        }
        assert(text =~= "+"@);
    } else {
        match chord.key {
            KeyView::Char(c) => {},
            KeyView::Named(name) => {
                lemma_named_key_stands(name);
            },
        }
        assert(!key.contains('+'));
        assert(text.last() == key.last());
        assert(key.contains(key.last())) by {
            assert(key[key.len() - 1] == key.last());
        }
        assert(text != "+"@);
        lemma_split_chord(chord.modifiers, key);
        lemma_modifiers_read(chord.modifiers);
        let names = held_names(chord.modifiers);
        assert(names.push(key).drop_last() =~= names);
        assert(names.push(key).last() == key);
        match chord.key {
            KeyView::Char(c) => {
                assert(key_named(key) == Some(chord.key));
            },
            KeyView::Named(_) => {},
        }
    }
}

/// A chord whose text is one word.
pub open spec fn is_one_word(chord: ChordView) -> bool {
    chord.key matches KeyView::Char(c) ==> !white_space(c)
}

proof fn lemma_chord_is_a_word(chord: ChordView)
    requires
        is_writable(chord),
        is_one_word(chord),
    ensures
        is_word(chord_text(chord)),
{
    reveal_strlit("ctrl+");
    reveal_strlit("alt+");
    reveal_strlit("shift+");
    reveal_strlit("super+");
    match chord.key {
        KeyView::Char(_) => {},
        KeyView::Named(name) => {
            lemma_names_are_words();
        },
    }
}

proof fn lemma_all_read(chords: Seq<ChordView>)
    requires
        forall|i: int| 0 <= i < chords.len() ==> is_writable(#[trigger] chords[i]),
    ensures
        read_chords(chords.map_values(|chord: ChordView| chord_text(chord))) == Ok::<
            Seq<ChordView>,
            ParseErrorView,
        >(chords),
    decreases chords.len(),
{
    let words = chords.map_values(|chord: ChordView| chord_text(chord));
    if chords.len() == 0 {
        assert(chords =~= Seq::empty());
    } else {
        let front = chords.drop_last();
        assert forall|i: int| 0 <= i < front.len() implies is_writable(#[trigger] front[i]) by {
            assert(front[i] == chords[i]);
        }
        lemma_all_read(front);
        assert(words.drop_last() =~= front.map_values(|chord: ChordView| chord_text(chord)));
        assert(is_writable(chords[chords.len() - 1]));
        lemma_chord_reads_back(chords.last());
        assert(front.push(chords.last()) =~= chords);
    }
}

/// What a binding writes reads back as that binding.
pub proof fn lemma_binding_reads_back(chords: Seq<ChordView>)
    requires
        chords.len() > 0,
        forall|i: int|
            0 <= i < chords.len() ==> is_writable(#[trigger] chords[i]) && is_one_word(chords[i]),
    ensures
        read_binding(chords_text(chords)) == Ok::<Seq<ChordView>, ParseErrorView>(chords),
{
    let words = chords.map_values(|chord: ChordView| chord_text(chord));
    assert forall|i: int| 0 <= i < words.len() implies is_word(#[trigger] words[i]) by {
        assert(is_writable(chords[i]));
        lemma_chord_is_a_word(chords[i]);
    }
    lemma_words_of_joined(words);
    lemma_all_read(chords);
}

proof fn lemma_modifiers_there_are(names: Seq<Seq<char>>)
    ensures
        read_modifiers(names) matches Ok(held) ==> held <= 15,
    decreases names.len(),
{
    if names.len() > 0 {
        lemma_modifiers_there_are(names.drop_last());
        match (read_modifiers(names.drop_last()), modifier_named(names.last())) {
            (Ok(held), Some(some)) => {
                assert(held | some <= 15) by (bit_vector)
                    requires
                        held <= 15,
                        some == 1 || some == 2 || some == 4 || some == 8,
                ;
            },
            _ => {},
        }
    }
}

/// A chord as every chord that was read is: its modifiers are ones there are,
/// `Shift` is folded into a character, and a key without one is stored by its
/// name.
pub open spec fn is_normal(chord: ChordView) -> bool {
    &&& chord.modifiers <= 15
    &&& is_key(chord.key)
    &&& chord.key is Char ==> !holds(chord.modifiers, 4)
}

/// Whatever text a chord was read from, the chord is normal.
pub proof fn lemma_read_chord_is_normal(text: Seq<char>)
    ensures
        read_chord(text) matches Ok(chord) ==> is_normal(chord),
{
    let parts = split_at_char(text, '+');
    lemma_modifiers_there_are(parts.drop_last());
    lemma_called(named_keys(), ascii_lower(parts.last()), 0);
    assert(!holds(0, 4)) by {
        assert(0u8 & 4u8 == 0u8) by (bit_vector);
    }
    match read_modifiers(parts.drop_last()) {
        Ok(held) => {
            assert((held & !4u8) & 4u8 != 4u8) by (bit_vector);
            assert(held & !4u8 <= 15) by (bit_vector)
                requires
                    held <= 15,
            ;
        },
        Err(_) => {},
    }
}

proof fn lemma_read_chords_are_normal(words: Seq<Seq<char>>)
    ensures
        read_chords(words) matches Ok(chords) ==> forall|i: int|
            0 <= i < chords.len() ==> is_normal(#[trigger] chords[i]),
    decreases words.len(),
{
    if words.len() > 0 {
        lemma_read_chords_are_normal(words.drop_last());
        lemma_read_chord_is_normal(words.last());
    }
}

/// Whatever text a binding was read from, each of its chords is normal.
pub proof fn lemma_read_binding_is_normal(text: Seq<char>)
    ensures
        read_binding(text) matches Ok(chords) ==> forall|i: int|
            0 <= i < chords.len() ==> is_normal(#[trigger] chords[i]),
{
    lemma_read_chords_are_normal(words_of(text));
}

/// The function keys there are.
pub open spec fn function_keys() -> Seq<Seq<char>> {
    seq![
        "F1"@,
        "F2"@,
        "F3"@,
        "F4"@,
        "F5"@,
        "F6"@,
        "F7"@,
        "F8"@,
        "F9"@,
        "F10"@,
        "F11"@,
        "F12"@,
    ]
}

proof fn lemma_function_keys()
    ensures
        !is_function_key("Return"@),
        !is_function_key("Escape"@),
        !is_function_key("Tab"@),
        !is_function_key("Space"@),
        !is_function_key("BackSpace"@),
        !is_function_key("Delete"@),
        !is_function_key("Insert"@),
        !is_function_key("Home"@),
        !is_function_key("End"@),
        !is_function_key("Page_Up"@),
        !is_function_key("Page_Down"@),
        !is_function_key("Up"@),
        !is_function_key("Down"@),
        !is_function_key("Left"@),
        !is_function_key("Right"@),
        !is_function_key("Menu"@),
        is_function_key("F1"@),
        is_function_key("F2"@),
        is_function_key("F3"@),
        is_function_key("F4"@),
        is_function_key("F5"@),
        is_function_key("F6"@),
        is_function_key("F7"@),
        is_function_key("F8"@),
        is_function_key("F9"@),
        is_function_key("F10"@),
        is_function_key("F11"@),
        is_function_key("F12"@),
        "Return"@ != "Escape"@,
        "Tab"@ != "Escape"@,
        "Space"@ != "Escape"@,
        "BackSpace"@ != "Escape"@,
        "Delete"@ != "Escape"@,
        "Insert"@ != "Escape"@,
        "Home"@ != "Escape"@,
        "End"@ != "Escape"@,
        "Page_Up"@ != "Escape"@,
        "Page_Down"@ != "Escape"@,
        "Up"@ != "Escape"@,
        "Down"@ != "Escape"@,
        "Left"@ != "Escape"@,
        "Right"@ != "Escape"@,
        "Menu"@ != "Escape"@,
        "F1"@ != "Escape"@,
        "F2"@ != "Escape"@,
        "F3"@ != "Escape"@,
        "F4"@ != "Escape"@,
        "F5"@ != "Escape"@,
        "F6"@ != "Escape"@,
        "F7"@ != "Escape"@,
        "F8"@ != "Escape"@,
        "F9"@ != "Escape"@,
        "F10"@ != "Escape"@,
        "F11"@ != "Escape"@,
        "F12"@ != "Escape"@,
{
    reveal_strlit("F");
    reveal_with_fuel(number_of, 3);
    reveal_strlit("Return");
    reveal_strlit("Escape");
    reveal_strlit("Tab");
    reveal_strlit("Space");
    reveal_strlit("BackSpace");
    reveal_strlit("Delete");
    reveal_strlit("Insert");
    reveal_strlit("Home");
    reveal_strlit("End");
    reveal_strlit("Page_Up");
    reveal_strlit("Page_Down");
    reveal_strlit("Up");
    reveal_strlit("Down");
    reveal_strlit("Left");
    reveal_strlit("Right");
    reveal_strlit("Menu");
    reveal_strlit("F1");
    reveal_strlit("F2");
    reveal_strlit("F3");
    reveal_strlit("F4");
    reveal_strlit("F5");
    reveal_strlit("F6");
    reveal_strlit("F7");
    reveal_strlit("F8");
    reveal_strlit("F9");
    reveal_strlit("F10");
    reveal_strlit("F11");
    reveal_strlit("F12");
    assert(is_function_key("F1"@)) by {
        assert("F1"@.subrange(0, 1) =~= "F"@);
    }
    assert(is_function_key("F2"@)) by {
        assert("F2"@.subrange(0, 1) =~= "F"@);
    }
    assert(is_function_key("F3"@)) by {
        assert("F3"@.subrange(0, 1) =~= "F"@);
    }
    assert(is_function_key("F4"@)) by {
        assert("F4"@.subrange(0, 1) =~= "F"@);
    }
    assert(is_function_key("F5"@)) by {
        assert("F5"@.subrange(0, 1) =~= "F"@);
    }
    assert(is_function_key("F6"@)) by {
        assert("F6"@.subrange(0, 1) =~= "F"@);
    }
    assert(is_function_key("F7"@)) by {
        assert("F7"@.subrange(0, 1) =~= "F"@);
    }
    assert(is_function_key("F8"@)) by {
        assert("F8"@.subrange(0, 1) =~= "F"@);
    }
    assert(is_function_key("F9"@)) by {
        assert("F9"@.subrange(0, 1) =~= "F"@);
    }
    assert(is_function_key("F10"@)) by {
        assert("F10"@.subrange(0, 1) =~= "F"@);
    }
    assert(is_function_key("F11"@)) by {
        assert("F11"@.subrange(0, 1) =~= "F"@);
    }
    assert(is_function_key("F12"@)) by {
        assert("F12"@.subrange(0, 1) =~= "F"@);
    }
    assert(!is_function_key("Return"@)) by {
        assert("Return"@.subrange(0, 1)[0] != "F"@[0]);
    }
    assert(!is_function_key("Escape"@)) by {
        assert("Escape"@.subrange(0, 1)[0] != "F"@[0]);
    }
    assert(!is_function_key("Tab"@)) by {
        assert("Tab"@.subrange(0, 1)[0] != "F"@[0]);
    }
    assert(!is_function_key("Space"@)) by {
        assert("Space"@.subrange(0, 1)[0] != "F"@[0]);
    }
    assert(!is_function_key("BackSpace"@)) by {
        assert("BackSpace"@.subrange(0, 1)[0] != "F"@[0]);
    }
    assert(!is_function_key("Delete"@)) by {
        assert("Delete"@.subrange(0, 1)[0] != "F"@[0]);
    }
    assert(!is_function_key("Insert"@)) by {
        assert("Insert"@.subrange(0, 1)[0] != "F"@[0]);
    }
    assert(!is_function_key("Home"@)) by {
        assert("Home"@.subrange(0, 1)[0] != "F"@[0]);
    }
    assert(!is_function_key("End"@)) by {
        assert("End"@.subrange(0, 1)[0] != "F"@[0]);
    }
    assert(!is_function_key("Page_Up"@)) by {
        assert("Page_Up"@.subrange(0, 1)[0] != "F"@[0]);
    }
    assert(!is_function_key("Page_Down"@)) by {
        assert("Page_Down"@.subrange(0, 1)[0] != "F"@[0]);
    }
    assert(!is_function_key("Up"@)) by {
        assert("Up"@.subrange(0, 1)[0] != "F"@[0]);
    }
    assert(!is_function_key("Down"@)) by {
        assert("Down"@.subrange(0, 1)[0] != "F"@[0]);
    }
    assert(!is_function_key("Left"@)) by {
        assert("Left"@.subrange(0, 1)[0] != "F"@[0]);
    }
    assert(!is_function_key("Right"@)) by {
        assert("Right"@.subrange(0, 1)[0] != "F"@[0]);
    }
    assert(!is_function_key("Menu"@)) by {
        assert("Menu"@.subrange(0, 1)[0] != "F"@[0]);
    }
}

/// What fires while a text field has focus: a chord that holds control, alt or
/// the logo key, `Escape`, and the function keys. Everything else is the text
/// field's.
pub proof fn lemma_what_survives_text_entry(chord: ChordView)
    requires
        is_normal(chord),
    ensures
        survives(chord) <==> (holds(chord.modifiers, 1) || holds(chord.modifiers, 2) || holds(
            chord.modifiers,
            8,
        ) || chord.key == KeyView::Named("Escape"@) || (chord.key matches KeyView::Named(name)
            && function_keys().contains(name))),
{
    let held = chord.modifiers;
    assert((held & !4u8) != 0 <==> (held & 1u8 == 1u8 || held & 2u8 == 2u8 || held & 8u8 == 8u8))
        by (bit_vector)
        requires
            held <= 15,
    ;
    match chord.key {
        KeyView::Char(_) => {},
        KeyView::Named(name) => {
            lemma_function_keys();
            let keys = function_keys();
            assert(keys[0] == "F1"@);
            assert(keys[1] == "F2"@);
            assert(keys[2] == "F3"@);
            assert(keys[3] == "F4"@);
            assert(keys[4] == "F5"@);
            assert(keys[5] == "F6"@);
            assert(keys[6] == "F7"@);
            assert(keys[7] == "F8"@);
            assert(keys[8] == "F9"@);
            assert(keys[9] == "F10"@);
            assert(keys[10] == "F11"@);
            assert(keys[11] == "F12"@);
            if keys.contains(name) {
                assert(is_function_key(name));
            }
        },
    }
}

} // verus!
