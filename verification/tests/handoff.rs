use postio_ui::handoff::{button_label, target, terminal_advice, Target};

#[test]
fn nothing_chosen_leaves_it_to_the_platform() {
    assert_eq!(target("", true), Target::PlatformDefault);
    assert_eq!(
        target("   ", false),
        Target::PlatformDefault,
        "whitespace is not a choice, and a lookup on it means nothing"
    );
}

#[test]
fn a_name_the_platform_can_open_is_the_editor() {
    assert_eq!(
        target("Some Editor", true),
        Target::Application("Some Editor".to_owned())
    );
    assert_eq!(
        target("  Some Editor  ", true),
        Target::Application("Some Editor".to_owned()),
        "what somebody typed is trimmed before it is used"
    );
}

#[test]
fn a_name_that_is_not_an_application_is_a_command_that_wants_a_terminal() {
    assert_eq!(
        target("vim", false),
        Target::NeedsTerminal("vim".to_owned())
    );
}

#[test]
fn the_advice_names_the_program_and_what_to_do_instead() {
    let advice = terminal_advice("vim");

    assert!(advice.contains("vim"), "{advice}");
    assert!(
        advice.contains("clear this setting"),
        "there has to be a way out of it: {advice}"
    );
}

#[test]
fn the_button_says_where_the_draft_is_going_when_it_knows() {
    assert_eq!(button_label("Some Editor"), "Open in Some Editor");
    assert_eq!(
        button_label(""),
        "Edit elsewhere",
        "with nothing chosen Postio does not know which application the \
         platform will pick, and must not name one"
    );
}
