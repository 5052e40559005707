use postio_ui::contacts::{applies, is_made, secondary_line, show_mail_query, ContactCommand, RowKind};
use postio_ui::model::ContactSource;

#[test]
fn show_mail_names_every_address_in_one_with() {
    assert_eq!(
        show_mail_query(&["ada@work.example".into(), "ada@home.example".into()]),
        "with:ada@work.example,ada@home.example"
    );
    assert_eq!(
        show_mail_query(&["grace@example.org".into()]),
        "with:grace@example.org"
    );
}

#[test]
fn an_address_that_could_not_be_typed_back_is_quoted() {
    assert_eq!(
        show_mail_query(&["odd one@example.com".into()]),
        "with:\"odd one@example.com\""
    );
    assert_eq!(
        show_mail_query(&["odd \"one\"@example.com".into()]),
        "with:\"odd one@example.com\""
    );
}

#[test]
fn the_address_book_is_marked_and_the_mail_is_not() {
    assert!(is_made(ContactSource::User));
    assert!(is_made(ContactSource::Import));
    assert!(!is_made(ContactSource::Mail));
}

#[test]
fn the_secondary_line_counts_addresses_and_says_when() {
    assert_eq!(secondary_line(2, Some("09:14")), "2 addresses · 09:14");
    assert_eq!(
        secondary_line(1, None),
        "1 address",
        "no mail, no date -- never a date nobody saw"
    );
}

#[test]
fn a_command_acts_on_the_row_kind_it_names_and_hints_elsewhere() {
    assert!(applies(ContactCommand::ShowMail, RowKind::Person).is_ok());
    assert!(applies(ContactCommand::Compose, RowKind::Person).is_ok());
    assert!(
        applies(ContactCommand::Other, RowKind::Group).is_ok(),
        "the filter is the screen's"
    );
    let hint = applies(ContactCommand::Compose, RowKind::Suggestion)
        .expect_err("a suggestion is two people; which one would it write to?");
    assert!(!hint.0.is_empty(), "a refusal says what it wants");
}
