use postio_ui::model::RecipientCandidate;
use postio_ui::recipients::{accepted, candidate_label, prefix, MIN_COMPLETION_PREFIX};

#[test]
fn accepting_keeps_what_came_before() {
    let ada = RecipientCandidate::Contact("Ada <ada@example.com>".to_owned());
    assert_eq!(
        accepted("grace@example.net, ", &ada),
        "grace@example.net, Ada <ada@example.com>, "
    );
}

#[test]
fn a_group_is_its_members() {
    let group = RecipientCandidate::Group {
        name: "Tide".into(),
        members: vec!["ada@example.com".to_owned(), "grace@example.net".to_owned()],
    };
    assert_eq!(accepted("", &group), "ada@example.com, grace@example.net, ");
    assert_eq!(candidate_label(&group), "Tide (2 people)");
}

#[test]
fn three_letters_are_not_enough_to_look_up() {
    assert_eq!(prefix("ada"), None);
    assert_eq!(prefix("ada@"), Some("ada@"));
    assert_eq!(prefix(&"é".repeat(MIN_COMPLETION_PREFIX)), Some("éééé"));
}

#[test]
fn a_contact_is_offered_as_it_is_written() {
    let ada = RecipientCandidate::Contact("ada@example.com".to_owned());
    assert_eq!(candidate_label(&ada), "ada@example.com");
}

#[test]
fn a_group_of_nobody_adds_nobody() {
    let nobody = RecipientCandidate::Group { name: "Empty".to_owned(), members: vec![] };
    assert_eq!(accepted("ada@example.com, ", &nobody), "ada@example.com, ");
}
