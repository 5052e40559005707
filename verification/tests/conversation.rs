use postio_ui::conversation::participants;
use postio_ui::model::Participant;

fn person(display: &str, address: &str) -> Participant {
    let local_part = address.split_once('@').map(|(local, _)| local.to_owned());
    Participant { display: display.to_owned(), local_part }
}

fn people(names: &[(&str, &str)]) -> Vec<Participant> {
    names.iter().map(|(name, address)| person(name, address)).collect()
}

fn bare(address: &str) -> Participant {
    person(address, address)
}



#[test]
fn one_participant_keeps_their_whole_name() {
    assert_eq!(
        participants(&people(&[("Ada Norwood", "ada@example.com")])),
        "Ada Norwood"
    );
    assert_eq!(
        participants(&people(&[("Site Office", "site@example.com")])),
        "Site Office"
    );
}

#[test]
fn a_last_first_display_name_does_not_leave_its_comma_behind() {
    assert_eq!(
        participants(&people(&[
            ("Quinn Abara", "quinn@example.net"),
            ("Bergstrom, Tove", "tove@example.com"),
            ("Jonas Vek", "jonas@example.org"),
        ])),
        "Quinn, Bergstrom, Jonas"
    );
}

#[test]
fn a_last_first_name_survives_the_elision_too() {
    assert_eq!(
        participants(&people(&[
            ("Quinn Abara", "quinn@example.net"),
            ("Ada Norwood", "ada@example.com"),
            ("Priya Raman", "priya@example.org"),
            ("Bergstrom, Tove", "tove@example.com"),
            ("Jonas Vek", "jonas@example.org"),
        ])),
        "Quinn .. Bergstrom, Jonas"
    );
}

#[test]
fn a_trailing_comma_is_not_mistaken_for_the_whole_name() {
    assert_eq!(
        participants(&people(&[
            (",", "odd@example.com"),
            ("Jonas Vek", "jonas@example.org"),
        ])),
        "odd, Jonas"
    );
}

#[test]
fn a_short_conversation_names_everyone_in_it() {
    assert_eq!(
        participants(&people(&[
            ("Ada Norwood", "ada@example.com"),
            ("Quinn Abara", "quinn@example.net"),
            ("Tove Bergstrom", "tove@example.com"),
        ])),
        "Ada, Quinn, Tove"
    );
}

#[test]
fn a_long_conversation_keeps_both_ends_and_drops_the_middle() {
    assert_eq!(
        participants(&people(&[
            ("Ada Norwood", "ada@example.com"),
            ("Quinn Abara", "quinn@example.net"),
            ("Jonas Vek", "jonas@example.org"),
            ("Tove Bergstrom", "tove@example.com"),
            ("Priya Raman", "priya@example.org"),
        ])),
        "Ada .. Tove, Priya"
    );
}

#[test]
fn one_person_writing_repeatedly_is_named_once() {
    assert_eq!(
        participants(&people(&[
            ("Ada Norwood", "ada@example.com"),
            ("Ada Norwood", "ada@example.com"),
            ("Quinn Abara", "quinn@example.net"),
        ])),
        "Ada, Quinn"
    );
}

#[test]
fn one_person_writing_repeatedly_and_alone_is_not_a_crowd() {
    assert_eq!(
        participants(&people(&[
            ("Site Office", "site@example.com"),
            ("Site Office", "site@example.com"),
        ])),
        "Site Office"
    );
}

#[test]
fn a_lone_sender_with_no_display_name_keeps_their_whole_address() {
    assert_eq!(
        participants(&[bare("ada.norwood@example.com")]),
        "ada.norwood@example.com"
    );
}

#[test]
fn a_crowd_with_no_display_names_is_named_by_local_parts() {
    assert_eq!(
        participants(&[
            bare("ada@example.com"),
            bare("quinn@example.net"),
        ]),
        "ada, quinn"
    );
}

#[test]
fn no_participants_is_empty_rather_than_a_placeholder() {
    assert_eq!(participants(&[]), "");
}

#[test]
fn a_quoted_name_loses_its_quotes() {
    assert_eq!(
        participants(&people(&[
            ("\"Ada\" Norwood", "ada@example.com"),
            ("'Quinn' Abara", "quinn@example.net"),
        ])),
        "Ada, Quinn"
    );
}

#[test]
fn a_name_with_nothing_in_it_falls_back_to_the_address() {
    assert_eq!(
        participants(&people(&[("", "odd@example.com"), ("Jonas Vek", "jonas@example.org")])),
        "odd, Jonas"
    );
}
