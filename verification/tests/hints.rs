use postio_ui::hints::{fixed, hint, hint_as, key, pair, Hint};
use postio_ui::model::{BoundAction, CommandKeymap};

fn keymap(bound: &[(&str, &[&str])]) -> CommandKeymap {
    CommandKeymap {
        actions: bound
            .iter()
            .map(|(id, keys)| BoundAction {
                id: (*id).to_owned(),
                anywhere: true,
                contexts: vec![],
                bindings: keys.iter().map(|key| (*key).to_owned()).collect(),
            })
            .collect(),
        problems: vec![],
    }
}

fn defaults() -> CommandKeymap {
    keymap(&[
        ("compose", &["c"]),
        ("archive", &["a", "mod+shift+a"]),
        ("refresh", &["F5", "R"]),
        ("next_part", &["j"]),
        ("prev_part", &["k"]),
        ("open_message", &["Return"]),
    ])
}

#[test]
fn a_hint_says_the_key_the_registry_binds() {
    assert_eq!(
        hint(&defaults(), "compose", "Compose"),
        Some(Hint {
            key: "c".into(),
            label: "Compose".into()
        })
    );
}

#[test]
fn a_rebind_reaches_the_hint() {
    let keymap = keymap(&[("compose", &["w"])]);
    assert_eq!(key(&keymap, "compose").as_deref(), Some("w"));
}

#[test]
fn an_unbound_command_has_no_hint() {
    let keymap = keymap(&[("compose", &[]), ("archive", &["c"])]);
    assert_eq!(hint(&keymap, "compose", "Compose"), None);
}

#[test]
fn a_preferred_key_is_named_only_while_it_is_bound() {
    let retry = |keymap: &CommandKeymap| {
        hint_as(keymap, "refresh", "R", "Retry now").map(|hint| hint.key)
    };
    assert_eq!(retry(&defaults()).as_deref(), Some("R"));
    let taken = keymap(&[("refresh", &["F5"]), ("archive", &["R"])]);
    assert_eq!(retry(&taken).as_deref(), Some("F5"));
}

#[test]
fn a_pair_is_one_clause() {
    let walk = pair(&defaults(), "next_part", "prev_part", "walk");
    assert_eq!(walk.map(|h| h.key).as_deref(), Some("j/k"));
}

#[test]
fn a_line_puts_each_key_before_what_it_does() {
    let hints = [
        fixed("Tab", "refine", "the panel's own focus order"),
        hint(&defaults(), "open_message", "open").unwrap(),
    ];
    assert_eq!(postio_ui::hints::line(&hints), "Tab refine · Return open");
}
