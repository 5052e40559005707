use postio_ui::keymap::{Binding, Chord, Key, KeyContext, Keymap, Modifiers, Outcome, ParseError, Resolver};
use postio_ui::model::{BoundAction, CommandKeymap, Context};

/// A millisecond, on the clock key presses are timed by.
const MILLISECOND: u64 = 1_000_000;

fn chord(text: &str) -> Chord {
    text.parse().expect("a chord")
}

fn canvas_keymap() -> Keymap {
    let mut keymap = Keymap::new();
    for (binding, command) in [
        ("ctrl+k", "command_palette"),
        ("?", "cheat_sheet"),
        ("ctrl+e", "edit_config"),
        ("c", "compose"),
        ("/", "search"),
        ("u", "undo"),
    ] {
        keymap.bind(KeyContext::Global, binding, command).unwrap();
    }
    for (binding, command) in [
        ("j", "next_message"),
        ("k", "prev_message"),
        ("Return", "open_message"),
        ("Escape", "clear_selection"),
        ("t", "thread"),
        ("a", "archive"),
        ("A", "archive_thread"),
        ("e", "reply"),
        ("E", "reply_all"),
        ("f", "forward"),
        ("g g", "go_to_top"),
        ("G", "go_to_bottom"),
    ] {
        keymap.bind(KeyContext::List, binding, command).unwrap();
    }
    keymap
        .bind(KeyContext::Conversation, "Escape", "back")
        .unwrap();
    keymap
        .bind(KeyContext::Composer, "Escape", "close_composer")
        .unwrap();
    keymap
        .bind(KeyContext::Composer, "ctrl+Return", "send")
        .unwrap();
    keymap
        .bind(KeyContext::Search, "Escape", "close_search")
        .unwrap();
    keymap
        .bind(KeyContext::Palette, "Escape", "close_palette")
        .unwrap();
    keymap
}

fn resolver() -> Resolver {
    Resolver::new(canvas_keymap())
}

fn press(resolver: &mut Resolver, keys: &str, context: KeyContext) -> Outcome {
    let now = 0;
    let mut outcome = Outcome::Unhandled;
    for key in keys.split_whitespace() {
        outcome = resolver.press(&chord(key), context, false, now);
    }
    outcome
}

fn command(resolver: &mut Resolver, keys: &str, context: KeyContext) -> String {
    match press(resolver, keys, context) {
        Outcome::Command(command) => command,
        other => panic!("{keys} in {context:?} resolved to {other:?}"),
    }
}

#[test]
fn a_shifted_character_is_the_same_chord_as_its_uppercase() {
    assert_eq!(chord("shift+a"), chord("A"));
    assert_eq!(chord("ctrl+shift+p"), chord("ctrl+P"));
    assert_eq!(
        chord("A").modifiers,
        Modifiers::none(),
        "the character carries the shift, so the modifier must not linger"
    );
    assert_ne!(chord("a"), chord("A"), "the canvas binds these separately");
}

#[test]
fn shift_stays_a_modifier_on_a_key_with_no_character() {
    let shifted = chord("shift+Tab");

    assert_eq!(shifted.key, Key::Named("Tab"));
    assert!(shifted.modifiers.contains(Modifiers::shift()));
    assert_ne!(shifted, chord("Tab"));
}

#[test]
fn a_key_name_and_the_character_it_produces_are_one_chord() {
    assert_eq!(chord("question"), chord("?"));
    assert_eq!(chord("slash"), chord("/"));
    assert_eq!(chord("+"), chord("plus"), "a lone + is the plus key");
}

#[test]
fn key_names_are_spelled_however_the_user_spelled_them() {
    assert_eq!(chord("esc"), chord("Escape"));
    assert_eq!(chord("escape"), chord("ESCAPE"));
    assert_eq!(chord("enter"), chord("Return"));
    assert_eq!(chord("pageup"), chord("page_up"));
    assert_eq!(
        chord("Escape").to_string(),
        "Escape",
        "displayed canonically"
    );
}

#[test]
fn modifiers_are_spelled_however_the_user_spelled_them() {
    assert_eq!(chord("control+k"), chord("ctrl+k"));
    assert_eq!(chord("meta+k"), chord("super+k"));
}

#[test]
fn a_broken_binding_says_what_is_wrong_with_it() {
    assert_eq!("".parse::<Binding>(), Err(ParseError::Empty));
    assert_eq!("   ".parse::<Binding>(), Err(ParseError::Empty));
    assert!(matches!(
        "ctrl+".parse::<Binding>(),
        Err(ParseError::NoKey { .. })
    ));
    assert!(matches!(
        "hyper+a".parse::<Binding>(),
        Err(ParseError::UnknownModifier { .. })
    ));
    assert!(matches!(
        "Retrun".parse::<Binding>(),
        Err(ParseError::UnknownKey { .. })
    ));
    assert!(matches!(
        "j ctrl+".parse::<Binding>(),
        Err(ParseError::NoKey { .. })
    ));
}

#[test]
fn a_binding_displays_as_something_the_cheat_sheet_can_print() {
    assert_eq!("g g".parse::<Binding>().unwrap().to_string(), "g g");
    assert_eq!("ctrl+k".parse::<Binding>().unwrap().to_string(), "ctrl+k");
    assert_eq!(
        "shift+Tab".parse::<Binding>().unwrap().to_string(),
        "shift+Tab"
    );
}

#[test]
fn the_canvas_bindings_resolve_in_the_list() {
    let mut resolver = resolver();

    for (keys, expected) in [
        ("j", "next_message"),
        ("k", "prev_message"),
        ("Return", "open_message"),
        ("t", "thread"),
        ("a", "archive"),
        ("A", "archive_thread"),
        ("e", "reply"),
        ("E", "reply_all"),
        ("f", "forward"),
        ("u", "undo"),
        ("c", "compose"),
        ("/", "search"),
        ("?", "cheat_sheet"),
        ("ctrl+k", "command_palette"),
    ] {
        assert_eq!(command(&mut resolver, keys, KeyContext::List), expected);
    }
}

#[test]
fn a_lowercase_and_uppercase_binding_are_different_commands() {
    let mut resolver = resolver();

    assert_eq!(command(&mut resolver, "a", KeyContext::List), "archive");
    assert_eq!(
        command(&mut resolver, "A", KeyContext::List),
        "archive_thread",
        "which is what shift+a produces"
    );
    assert_eq!(
        command(&mut resolver, "shift+a", KeyContext::List),
        "archive_thread"
    );
}

#[test]
fn escape_means_something_different_in_every_context() {
    let mut resolver = resolver();

    for (context, expected) in [
        (KeyContext::List, "clear_selection"),
        (KeyContext::Conversation, "back"),
        (KeyContext::Composer, "close_composer"),
        (KeyContext::Search, "close_search"),
        (KeyContext::Palette, "close_palette"),
    ] {
        assert_eq!(command(&mut resolver, "Escape", context), expected);
    }
}

#[test]
fn the_reader_still_walks_the_list() {
    let mut resolver = resolver();

    assert_eq!(
        command(&mut resolver, "j", KeyContext::Reader),
        "next_message",
        "the canvas keeps j/k live while reading"
    );
    assert_eq!(
        command(&mut resolver, "Escape", KeyContext::Reader),
        "back",
        "the thread's Escape, not the list's, is the nearer one"
    );
}

#[test]
fn the_composer_does_not_fall_back_through_the_list() {
    let mut resolver = resolver();

    assert_eq!(
        press(&mut resolver, "a", KeyContext::Composer),
        Outcome::Unhandled,
        "`a` is the letter A while composing, never archive"
    );
    assert_eq!(
        command(&mut resolver, "ctrl+k", KeyContext::Composer),
        "command_palette",
        "but global bindings still reach it"
    );
}

#[test]
fn an_unbound_key_is_left_for_the_widget() {
    let mut resolver = resolver();

    assert_eq!(
        press(&mut resolver, "z", KeyContext::List),
        Outcome::Unhandled
    );
}

#[test]
fn gg_and_g_uppercase_are_different_bindings() {
    let mut resolver = resolver();

    assert_eq!(command(&mut resolver, "g g", KeyContext::List), "go_to_top");
    assert_eq!(
        command(&mut resolver, "G", KeyContext::List),
        "go_to_bottom",
        "one press, not two"
    );
}

#[test]
fn a_half_typed_sequence_is_visibly_pending() {
    let mut resolver = resolver();
    let now = 0;

    assert_eq!(
        resolver.press(&chord("g"), KeyContext::List, false, now),
        Outcome::Pending("g".to_owned())
    );
    assert_eq!(resolver.pending().as_deref(), Some("g"));

    assert_eq!(
        resolver.press(&chord("g"), KeyContext::List, false, now),
        Outcome::Command("go_to_top".to_owned())
    );
    assert_eq!(resolver.pending(), None, "and it stops being pending");
}

#[test]
fn a_sequence_that_goes_nowhere_is_abandoned_whole() {
    let mut resolver = resolver();
    let now = 0;

    resolver.press(&chord("g"), KeyContext::List, false, now);
    assert_eq!(
        resolver.press(&chord("a"), KeyContext::List, false, now),
        Outcome::Unhandled,
        "`g a` must not fall through to archive"
    );
    assert_eq!(resolver.pending(), None);

    assert_eq!(
        command(&mut resolver, "a", KeyContext::List),
        "archive",
        "and the next press starts clean"
    );
}

#[test]
fn a_pending_sequence_expires() {
    let mut resolver = Resolver::with_timeout(canvas_keymap(), 500 * MILLISECOND);
    let start = 0;

    resolver.press(&chord("g"), KeyContext::List, false, start);
    let later = start + 600 * MILLISECOND;

    assert_eq!(
        resolver.press(&chord("g"), KeyContext::List, false, later),
        Outcome::Pending("g".to_owned()),
        "the first g was forgotten, so this one starts a new sequence"
    );
}

#[test]
fn a_pending_sequence_survives_inside_the_timeout() {
    let mut resolver = Resolver::with_timeout(canvas_keymap(), 500 * MILLISECOND);
    let start = 0;

    resolver.press(&chord("g"), KeyContext::List, false, start);
    let later = start + 499 * MILLISECOND;

    assert_eq!(
        resolver.press(&chord("g"), KeyContext::List, false, later),
        Outcome::Command("go_to_top".to_owned())
    );
}

#[test]
fn losing_focus_forgets_a_half_typed_sequence() {
    let mut resolver = resolver();
    let now = 0;

    resolver.press(&chord("g"), KeyContext::List, false, now);
    resolver.clear_pending();

    assert_eq!(resolver.pending(), None);
    assert_eq!(
        resolver.press(&chord("g"), KeyContext::List, false, now),
        Outcome::Pending("g".to_owned())
    );
}

#[test]
fn a_shorter_binding_shadows_a_longer_one_and_says_so() {
    let mut keymap = canvas_keymap();
    keymap.bind(KeyContext::List, "g", "go_somewhere").unwrap();
    let shadowed: Vec<&str> = keymap
        .shadowed()
        .into_iter()
        .map(|(_, _, command)| command)
        .collect();

    assert_eq!(shadowed, vec!["go_to_top"]);

    let mut resolver = Resolver::new(keymap);
    assert_eq!(
        command(&mut resolver, "g", KeyContext::List),
        "go_somewhere",
        "the exact match fires rather than waiting for a timeout"
    );
}


#[test]
fn typing_never_triggers_a_single_key_action() {
    let mut resolver = resolver();
    let now = 0;

    for character in "already replied".chars().filter(|c| !c.is_whitespace()) {
        let outcome = resolver.press(
            &Chord::new(Key::Char(character), Modifiers::none()),
            KeyContext::List,
            true,
            now,
        );
        assert_eq!(
            outcome,
            Outcome::Unhandled,
            "`{character}` fired while the user was typing"
        );
    }
    assert_eq!(resolver.pending(), None, "and started no sequence either");
}

#[test]
fn typing_does_not_start_a_sequence() {
    let mut resolver = resolver();
    let now = 0;

    assert_eq!(
        resolver.press(&chord("g"), KeyContext::List, true, now),
        Outcome::Unhandled
    );
    assert_eq!(resolver.pending(), None);
}

#[test]
fn modified_bindings_still_fire_while_typing() {
    let mut resolver = resolver();
    let now = 0;

    assert_eq!(
        resolver.press(&chord("ctrl+k"), KeyContext::Composer, true, now),
        Outcome::Command("command_palette".to_owned()),
        "the palette has to be reachable from inside the composer"
    );
    assert_eq!(
        resolver.press(&chord("ctrl+Return"), KeyContext::Composer, true, now),
        Outcome::Command("send".to_owned())
    );
}

#[test]
fn escape_still_fires_while_typing() {
    let mut resolver = resolver();
    let now = 0;

    assert_eq!(
        resolver.press(&chord("Escape"), KeyContext::Composer, true, now),
        Outcome::Command("close_composer".to_owned()),
        "Escape is how the composer is closed, and it is always typing"
    );
}

#[test]
fn return_and_tab_belong_to_the_text_field() {
    let mut resolver = resolver();
    let now = 0;

    assert_eq!(
        resolver.press(&chord("Return"), KeyContext::List, true, now),
        Outcome::Unhandled,
        "Return inserts a newline; ctrl+Return is what sends"
    );
    assert!(!chord("Tab").survives_text_entry());
    assert!(!chord("Up").survives_text_entry(), "the caret moves");
    assert!(chord("F5").survives_text_entry());
    assert!(!chord("shift+Tab").survives_text_entry());
}

#[test]
fn rebinding_replaces_rather_than_stacks() {
    let mut keymap = canvas_keymap();
    keymap
        .bind(KeyContext::List, "a", "something_else")
        .unwrap();

    let matches: Vec<&str> = keymap
        .entries()
        .into_iter()
        .filter(|(context, binding, _)| {
            *context == KeyContext::List && binding.to_string() == "a"
        })
        .map(|(_, _, command)| command)
        .collect();

    assert_eq!(matches, vec!["something_else"]);
}

#[test]
fn a_binding_can_be_looked_up_by_its_command_for_the_cheat_sheet() {
    let keymap = canvas_keymap();

    assert_eq!(
        keymap
            .binding_for(KeyContext::List, "archive_thread")
            .map(Binding::to_string),
        Some("A".to_owned())
    );
    assert_eq!(keymap.binding_for(KeyContext::List, "teleport"), None);
}

#[test]
fn unbinding_removes_the_entry() {
    let mut keymap = canvas_keymap();
    let binding: Binding = "a".parse().unwrap();

    assert!(keymap.unbind(KeyContext::List, &binding));
    assert!(!keymap.unbind(KeyContext::List, &binding), "already gone");

    let mut resolver = Resolver::new(keymap);
    assert_eq!(
        press(&mut resolver, "a", KeyContext::List),
        Outcome::Unhandled
    );
}

#[test]
fn replacing_the_table_drops_a_half_typed_sequence() {
    let mut resolver = resolver();
    let now = 0;
    resolver.press(&chord("g"), KeyContext::List, false, now);

    resolver.set_keymap(canvas_keymap());

    assert_eq!(resolver.pending(), None);
}

#[test]
fn the_token_is_rejected_with_a_message_that_names_the_fix() {
    let error = "mod+k".parse::<Binding>().expect_err("mod must not parse");
    assert!(matches!(error, ParseError::UnexpandedMod));
    assert!(
        error.to_string().contains("expand_mod"),
        "the message has to name the fix: {error:?}"
    );
}

#[test]
fn ctrl_still_parses() {
    assert!("ctrl+k".parse::<Binding>().is_ok());
}

#[test]
fn a_shadowed_binding_reaches_the_problems_the_settings_panel_shows() {
    let action = |id: &str, key: &str| BoundAction {
        id: id.to_owned(),
        anywhere: false,
        contexts: vec![Context::List],
        bindings: vec![key.to_owned()],
    };
    let commands = CommandKeymap {
        actions: vec![action("first_message", "g g"), action("archive", "g")],
        problems: vec![],
    };
    let (_, problems) = Resolver::from_commands(&commands);
    assert!(
        problems
            .iter()
            .any(|problem| problem.contains("first_message") && problem.contains("`g g`")),
        "a shadowed binding never reached the reported problems: {problems:?}"
    );
}

#[test]
fn a_letter_beyond_ascii_is_shifted_too() {
    assert_eq!(chord("shift+é"), chord("É"));
    assert_eq!(chord("shift+ß").to_string(), chord("shift+ß").to_string());
    assert_ne!(chord("é"), chord("É"));
}

#[test]
fn what_a_binding_writes_reads_back() {
    for text in ["a", "A", "+", "?", "ctrl+Return", "ctrl+alt+super+x", "shift+Tab", "g g", "ctrl+k ctrl+F12"] {
        let binding = text.parse::<Binding>().expect("a binding");
        assert_eq!(binding.to_string().parse::<Binding>(), Ok(binding), "{text}");
    }
}

#[test]
fn whatever_is_pressed_a_shadowed_binding_never_fires() {
    let mut keymap = Keymap::new();
    keymap.bind(KeyContext::List, "g g", "first").expect("a binding");
    keymap.bind(KeyContext::List, "g", "go").expect("a binding");
    let mut resolver = Resolver::new(keymap);
    for now in 0..20 {
        let outcome = resolver.press(&chord("g"), KeyContext::List, false, now);
        assert_eq!(outcome, Outcome::Command("go".into()));
    }
}

#[test]
fn a_function_key_is_told_by_its_number() {
    assert!(chord("F12").survives_text_entry());
    assert!("F13".parse::<Binding>().is_err(), "not a key this keyboard has a name for");
}

#[test]
fn the_name_of_a_key_finds_that_key() {
    for key in [Key::Char('a'), Key::Char('+'), Key::Char('\\'), Key::Named("Space"), Key::Named("F11")] {
        let name = key.keysym_name();
        let found = Chord::from_platform_key(None, Some(&name), Modifiers::none()).expect("a key");
        assert_eq!(found, Chord::new(key, Modifiers::none()), "{name}");
    }
}

#[test]
fn reading_a_chord_folds_shift_and_keeps_the_rest() {
    assert_eq!(chord("ctrl+shift+p"), chord("ctrl+P"));
    assert_eq!("ctrl+p q".parse::<Binding>().expect("a binding").to_string(), "ctrl+p q");
    assert_eq!("ctrl+".parse::<Chord>(), Err(ParseError::NoKey { chord: "ctrl+".to_owned() }));
    assert!("hyper+p q".parse::<Binding>().is_err());
}

#[test]
fn only_what_a_text_field_leaves_fires_while_typing() {
    for text in ["ctrl+p", "alt+p", "super+p", "Escape", "F1", "F12"] {
        assert!(chord(text).survives_text_entry(), "{text}");
    }
    for text in ["p", "P", "?", "Tab", "Delete", "Return", "shift+Up"] {
        assert!(!chord(text).survives_text_entry(), "{text}");
    }
}
