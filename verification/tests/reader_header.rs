use chrono::{Local, Offset, TimeZone};
use postio_ui::model::{Address, BoundAction, CommandKeymap};
use postio_ui::reader::header::{absolute_date, actions, address_line, address_list, recipient_line};
use postio_ui::reader::header::{subject_text, ActionScope, MessageHeader, ReaderAction};
use postio_ui::reader::header::{FIRST_SECOND, LAST_SECOND, NO_SUBJECT, RECIPIENTS_SHOWN};

/// A moment of local time: its second, and how far local time is ahead of UTC
/// then.
fn moment(year: i32, month: u32, day: u32, hour: u32, minute: u32) -> (i64, i32) {
    let local = Local.with_ymd_and_hms(year, month, day, hour, minute, 0).unwrap();
    (local.timestamp(), local.offset().fix().local_minus_utc())
}

fn keymap(bound: &[(&str, &[&str])]) -> CommandKeymap {
    CommandKeymap {
        actions: bound
            .iter()
            .map(|(id, keys)| BoundAction {
                id: (*id).to_owned(),
                anywhere: true,
                contexts: vec![],
                bindings: keys.iter().map(|key| (*key).to_owned()).collect(),
            })
            .collect(),
        problems: vec![],
    }
}

#[test]
fn the_three_composing_verbs_act_on_the_latest_message() {
    for verb in [
        ReaderAction::Reply,
        ReaderAction::ReplyAll,
        ReaderAction::Forward,
    ] {
        assert_eq!(verb.scope(), ActionScope::LatestMessage, "{verb:?}");
    }
}

#[test]
fn archive_acts_on_the_whole_conversation() {
    assert_eq!(
        ReaderAction::Archive.scope(),
        ActionScope::WholeConversation
    );
}

#[test]
fn an_action_says_what_it_will_act_on_rather_than_naming_the_verb() {
    assert_eq!(
        ReaderAction::Reply.describe(6),
        "Reply to the latest message"
    );
    assert_eq!(ReaderAction::Archive.describe(6), "Archive all 6 messages");
}

#[test]
fn forward_does_not_read_as_forwarding_to_someone() {
    assert_eq!(
        ReaderAction::Forward.describe(6),
        "Forward the latest message"
    );
    assert_eq!(
        ReaderAction::ReplyAll.describe(6),
        "Reply all to the latest message"
    );
}

#[test]
fn a_two_message_thread_says_both_rather_than_all_two() {
    assert_eq!(ReaderAction::Archive.describe(2), "Archive both messages");
}

#[test]
fn a_lone_message_is_not_described_as_a_conversation() {
    assert_eq!(ReaderAction::Reply.describe(1), "Reply");
    assert_eq!(ReaderAction::Archive.describe(1), "Archive");
}

fn many(count: usize) -> Vec<Address> {
    (0..count)
        .map(|n| addr(Some(&format!("Person {n}")), &format!("p{n}@example.com")))
        .collect()
}

#[test]
fn a_recipient_list_that_fits_is_not_touched() {
    let line = recipient_line(&many(RECIPIENTS_SHOWN));
    assert!(
        !line.contains("other"),
        "a list that fits must not be described as shortened: {line}"
    );
    assert!(line.contains("Person 0"), "{line}");
    assert!(
        line.contains(&format!("Person {}", RECIPIENTS_SHOWN - 1)),
        "{line}"
    );
}

#[test]
fn a_long_recipient_list_says_how_many_it_hid() {
    let line = recipient_line(&many(200));
    assert!(
        line.contains(&format!("{} others", 200 - RECIPIENTS_SHOWN)),
        "the hidden count is the whole point: {line}"
    );
}

#[test]
fn one_hidden_recipient_is_one_other_not_one_others() {
    let line = recipient_line(&many(RECIPIENTS_SHOWN + 1));
    assert!(line.contains("1 other"), "{line}");
    assert!(!line.contains("1 others"), "{line}");
}

#[test]
fn the_full_recipient_list_stays_reachable() {
    let header = MessageHeader::of(
        &many(1),
        &many(200),
        &[],
        Some("Subject"),
        moment(2026, 8, 12, 14, 32).0,
        moment(2026, 8, 12, 14, 32).1,
    );
    let full = header.to.as_deref().expect("a To line");
    assert!(full.contains("p199@example.com"), "the last recipient went");
    assert!(
        header
            .to_line()
            .expect("a rendered To line")
            .contains("others"),
        "what is drawn is the shortened form"
    );
}

fn addr(name: Option<&str>, address: &str) -> Address {
    Address { name: name.map(str::to_owned), address: address.to_owned() }
}

#[test]
fn a_named_address_shows_both_the_name_and_the_address() {
    let a = addr(Some("Ada Lovelace"), "ada@example.com");
    assert_eq!(address_line(&a), "Ada Lovelace <ada@example.com>");
}

#[test]
fn an_unnamed_address_shows_just_the_address() {
    let a = addr(None, "ada@example.com");
    assert_eq!(address_line(&a), "ada@example.com");
}

#[test]
fn a_blank_display_name_is_treated_as_absent() {
    let a = addr(Some("   "), "ada@example.com");
    assert_eq!(address_line(&a), "ada@example.com");
}

#[test]
fn several_addresses_join_with_a_comma() {
    let list = [
        addr(Some("Ada"), "ada@example.com"),
        addr(None, "bob@example.com"),
    ];
    assert_eq!(
        address_list(&list),
        "Ada <ada@example.com>, bob@example.com"
    );
}

#[test]
fn a_missing_subject_says_so_rather_than_showing_nothing() {
    assert_eq!(subject_text(None), NO_SUBJECT);
    assert_eq!(subject_text(Some("   ")), NO_SUBJECT);
}

#[test]
fn a_real_subject_passes_through_verbatim() {
    assert_eq!(subject_text(Some("Dinner Friday?")), "Dinner Friday?");
}

#[test]
fn the_date_line_is_always_absolute() {
    let (at, offset) = moment(2026, 8, 12, 14, 32);

    assert_eq!(absolute_date(at, offset), "Wed, 12 Aug 2026 at 14:32");
}

#[test]
fn a_whole_envelope_renders_every_line_a_reader_asks_for() {
    let (date, offset) = moment(2026, 8, 12, 14, 32);
    let header = MessageHeader::of(
        &[addr(Some("Ada Lovelace"), "ada@example.com")],
        &[addr(None, "bob@example.com")],
        &[
            addr(Some("Grace"), "grace@example.com"),
            addr(None, "carol@example.com"),
        ],
        Some("Dinner Friday?"),
        date,
        offset,
    );

    assert_eq!(header.subject, "Dinner Friday?");
    assert_eq!(header.from, "Ada Lovelace <ada@example.com>");
    assert_eq!(header.to_line().as_deref(), Some("bob@example.com"));
    assert_eq!(header.cc_toggle_label().as_deref(), Some("Cc (2)"));
    assert_eq!(
        header.cc.as_deref(),
        Some("Grace <grace@example.com>, carol@example.com")
    );
    assert_eq!(header.date, "Wed, 12 Aug 2026 at 14:32");
}

#[test]
fn a_message_with_no_recipients_offers_neither_line() {
    let header = MessageHeader::of(
        &[addr(None, "ada@example.com")],
        &[],
        &[],
        None,
        0,
        0,
    );
    assert_eq!(header.to_line(), None);
    assert_eq!(header.cc_toggle_label(), None);
    assert_eq!(header.cc, None);
    assert_eq!(header.subject, NO_SUBJECT);
}



#[test]
fn exactly_one_verb_is_the_primary_and_it_is_reply() {
    let primary: Vec<_> = ReaderAction::ALL
        .iter()
        .filter(|action| action.primary())
        .collect();
    assert_eq!(primary, vec![&ReaderAction::Reply]);
}

#[test]
fn the_four_verbs_are_reply_reply_all_forward_and_archive_in_that_order() {
    let keymap = keymap(&[
        ("archive", &["a", "mod+shift+a"]),
        ("reply", &["e"]),
        ("reply_all", &["E"]),
        ("forward", &["f"]),
    ]);
    assert_eq!(
        actions(&keymap),
        vec![
            (ReaderAction::Reply, Some("e".to_string())),
            (ReaderAction::ReplyAll, Some("E".to_string())),
            (ReaderAction::Forward, Some("f".to_string())),
            (ReaderAction::Archive, Some("a".to_string())),
        ]
    );
}

#[test]
fn a_rebind_reaches_the_buttons_hint() {
    let keymap = keymap(&[("reply", &["r"]), ("reply_all", &["E"])]);
    let keys: Vec<_> = actions(&keymap).into_iter().map(|(_, key)| key).collect();
    assert_eq!(keys[0], Some("r".to_string()));
    assert_eq!(keys[1], Some("E".to_string()), "only Reply was rebound");
}

#[test]
fn a_key_lost_to_another_command_is_never_shown_as_still_working() {
    let keymap = keymap(&[("undo", &["a"]), ("archive", &["mod+shift+a"])]);
    let keys: Vec<_> = actions(&keymap).into_iter().map(|(_, key)| key).collect();
    assert_ne!(keys[3].as_deref(), Some("a"), "still teaching undo's key");
    assert_eq!(
        keys[3].as_deref(),
        Some("mod+shift+a"),
        "the hint is whatever the keymap says, or nothing"
    );
}

#[test]
fn a_verb_with_no_binding_left_shows_no_hint_at_all() {
    let keymap = keymap(&[("undo", &["a"]), ("flag", &["mod+shift+a"]), ("archive", &[])]);
    let keys: Vec<_> = actions(&keymap).into_iter().map(|(_, key)| key).collect();
    assert_eq!(keys[3], None);
}

#[test]
fn a_date_is_drawn_in_the_zone_it_is_read_in() {
    assert_eq!(absolute_date(0, 0), "Thu, 1 Jan 1970 at 00:00");
    assert_eq!(absolute_date(0, 2 * 3600), "Thu, 1 Jan 1970 at 02:00");
    assert_eq!(absolute_date(0, -60), "Wed, 31 Dec 1969 at 23:59");
}

#[test]
fn the_first_and_the_last_moment_have_dates() {
    assert!(absolute_date(FIRST_SECOND, 86_399).ends_with("at 23:59"));
    assert!(absolute_date(LAST_SECOND, -86_399).ends_with("at 00:00"));
    assert!(!absolute_date(FIRST_SECOND, -86_399).is_empty());
    assert!(!absolute_date(LAST_SECOND, 86_399).is_empty());
}

#[test]
fn nobody_is_nobody() {
    assert_eq!(address_list(&[]), "");
    assert_eq!(recipient_line(&[]), "");
}

#[test]
fn a_name_that_is_the_address_is_a_name_like_any_other() {
    let a = addr(Some("ada@example.com"), "ada@example.com");
    assert_eq!(address_line(&a), "ada@example.com <ada@example.com>");
}
