use postio_ui::list_state;
use postio_ui::list_state::{derive_aggregate, derive_opening, describe_wait, is_current};
use postio_ui::list_state::{Placement, State, Waiting, OPENING_THRESHOLD};
use postio_ui::model::{ConnectionState, SyncStatus};

fn status(state: ConnectionState) -> SyncStatus {
    SyncStatus { state, detail: None, last_sync: None }
}

#[test]
fn an_ordinary_start_says_nothing_at_all() {
    for waited in [0, 999] {
        assert_eq!(
            derive_opening(Waiting::Store, waited),
            None,
            "a plate at {waited:?} would be on screen for less time than \
             it takes to read, and gone before anybody could"
        );
    }
}

#[test]
fn a_start_that_has_already_failed_its_budget_says_what_it_is_waiting_on() {
    let plate = derive_opening(Waiting::Migrating, OPENING_THRESHOLD)
        .expect("past the threshold, the wait is worth naming");
    assert_eq!(
        plate,
        State::Opening {
            waiting: Waiting::Migrating
        }
    );
    assert_eq!(
        plate.placement(0),
        Placement::Full,
        "there are no rows behind this one — there is no store to have \
         read any — so there is nothing for a banner to protect"
    );
}

#[test]
fn each_wait_is_named_as_itself() {
    let details: Vec<&str> = Waiting::ALL.iter().map(|w| describe_wait(*w).1).collect();
    let mut unique = details.clone();
    unique.sort_unstable();
    unique.dedup();
    assert_eq!(
        unique.len(),
        details.len(),
        "two waits say the same thing, so the line names a wait it is \
         not: {details:?}"
    );

    assert_eq!(describe_wait(Waiting::Keyring).0, "Opening your mailbox");
    assert_eq!(describe_wait(Waiting::Store).0, "Opening your mailbox");
    for different in [Waiting::Migrating, Waiting::Indexing] {
        assert_ne!(
            describe_wait(different).0,
            "Opening your mailbox",
            "{different:?} is not the same promise as opening a mailbox"
        );
    }
}

#[test]
fn an_empty_online_mailbox_is_inbox_zero() {
    let derived = list_state::derive(&status(ConnectionState::Online), 0, 4291, 0, None);
    assert_eq!(
        derived,
        Some(State::InboxZero {
            last_sync: None,
            stored: 4291,
        })
    );
}

#[test]
fn a_search_that_matched_nothing_does_not_claim_the_inbox_is_clear() {
    let derived = list_state::derive(
        &status(ConnectionState::Online),
        0,
        4291,
        0,
        Some("from:ada invoice"),
    );
    assert_eq!(
        derived,
        Some(State::NoMatches {
            query: "from:ada invoice".to_string(),
            incomplete: Vec::new(),
        })
    );
    assert_eq!(derived.unwrap().placement(0), Placement::Full);
}

#[test]
fn a_search_answers_for_itself_whatever_the_connection_is_doing() {
    for state in [
        ConnectionState::Offline,
        ConnectionState::Connecting,
        ConnectionState::Failing,
    ] {
        assert!(
            matches!(
                list_state::derive(&status(state), 0, 4291, 2, Some("invoice")),
                Some(State::NoMatches { .. })
            ),
            "{state:?} spoke over the search"
        );
    }
}

#[test]
fn a_search_that_found_something_still_hears_about_the_connection() {
    assert_eq!(
        list_state::derive(
            &status(ConnectionState::Online),
            14,
            4291,
            0,
            Some("invoice")
        ),
        None,
        "a search with hits invented a state of its own"
    );
    let derived = list_state::derive(
        &status(ConnectionState::Offline),
        14,
        4291,
        2,
        Some("invoice"),
    );
    assert_eq!(derived, Some(State::Offline { queued: 2 }));
    assert_eq!(
        derived.unwrap().placement(14),
        Placement::Banner,
        "the hits were hidden behind the connection"
    );
}

#[test]
fn a_populated_online_mailbox_has_no_named_state() {
    assert_eq!(
        list_state::derive(&status(ConnectionState::Online), 12, 4291, 0, None),
        None
    );
}

#[test]
fn offline_is_the_state_regardless_of_how_many_rows_are_loaded() {
    assert_eq!(
        list_state::derive(&status(ConnectionState::Offline), 12, 0, 2, None),
        Some(State::Offline { queued: 2 })
    );
}

#[test]
fn only_an_empty_mailbox_gets_the_full_opaque_plate() {
    let offline = State::Offline { queued: 2 };
    let failing = State::Failing {
        reason: "IMAP rejected the credentials.".to_string(),
    };

    assert_eq!(offline.placement(12), Placement::Banner);
    assert_eq!(failing.placement(12), Placement::Banner);

    assert_eq!(offline.placement(0), Placement::Full);
    assert_eq!(failing.placement(0), Placement::Full);
}

#[test]
fn inbox_zero_is_always_the_full_plate() {
    let empty = State::InboxZero {
        last_sync: None,
        stored: 0,
    };
    assert_eq!(empty.placement(0), Placement::Full);
}

#[test]
fn connecting_reads_the_same_as_offline() {
    assert_eq!(
        list_state::derive(&status(ConnectionState::Connecting), 0, 0, 0, None),
        Some(State::Offline { queued: 0 })
    );
}

#[test]
fn a_failing_connection_never_shrugs() {
    let with_reason = SyncStatus {
        state: ConnectionState::Failing,
        detail: Some("AUTHENTICATIONFAILED".to_string()),
        last_sync: None,
    };
    assert_eq!(
        list_state::derive(&with_reason, 0, 0, 0, None),
        Some(State::Failing {
            reason: "AUTHENTICATIONFAILED".to_string(),
        })
    );

    let without_reason = status(ConnectionState::Failing);
    let State::Failing { reason } = list_state::derive(&without_reason, 0, 0, 0, None).unwrap() else {
        panic!("failing status did not produce a failing state");
    };
    assert!(!reason.is_empty(), "a failing state never shows nothing");
}

fn named(entries: &[(&str, ConnectionState)]) -> Vec<(String, SyncStatus)> {
    entries
        .iter()
        .map(|(name, state)| ((*name).to_owned(), status(*state)))
        .collect()
}

#[test]
fn every_account_online_says_nothing_at_all() {
    let accounts = named(&[
        ("Work", ConnectionState::Online),
        ("Personal", ConnectionState::Online),
    ]);
    assert_eq!(
        derive_aggregate(&accounts, 40, 4291, None),
        None,
        "a complete view has nothing to disclose, and a banner that is \
         always up is a banner nobody reads"
    );
}

#[test]
fn an_unreachable_account_is_named_over_the_rows_it_could_not_refresh() {
    let accounts = named(&[
        ("Work", ConnectionState::Online),
        ("Personal", ConnectionState::Offline),
    ]);
    let derived = derive_aggregate(&accounts, 40, 4291, None);
    assert_eq!(
        derived,
        Some(State::Partial {
            accounts: vec!["Personal".to_owned()],
        }),
        "the view names the account it cannot vouch for"
    );
    assert_eq!(
        derived.unwrap().placement(40),
        Placement::Banner,
        "the rows are real mail and stay readable -- covering them to say \
         the view is incomplete keeps the promise in words and breaks it \
         on screen"
    );
}

#[test]
fn a_failing_account_counts_as_one_it_cannot_vouch_for_too() {
    let accounts = named(&[
        ("Work", ConnectionState::Online),
        (
            "Personal",
            ConnectionState::Failing,
        ),
    ]);
    assert_eq!(
        derive_aggregate(&accounts, 40, 4291, None),
        Some(State::Partial {
            accounts: vec!["Personal".to_owned()],
        })
    );
}

#[test]
fn connecting_is_not_worth_naming_because_it_resolves_itself() {
    let accounts = named(&[
        ("Work", ConnectionState::Online),
        ("Personal", ConnectionState::Connecting),
    ]);
    assert_eq!(derive_aggregate(&accounts, 40, 4291, None), None);
}

#[test]
fn every_unreachable_account_is_named_in_the_order_given() {
    let accounts = named(&[
        ("Work", ConnectionState::Offline),
        ("Personal", ConnectionState::Online),
        ("Archive", ConnectionState::Offline),
    ]);
    assert_eq!(
        derive_aggregate(&accounts, 40, 4291, None),
        Some(State::Partial {
            accounts: vec!["Work".to_owned(), "Archive".to_owned()],
        }),
        "naming one of two absent accounts is its own lie by omission, \
         and the order is the sidebar's so the colours line up"
    );
}

#[test]
fn a_search_that_found_nothing_while_an_account_is_away_says_so() {
    let accounts = named(&[
        ("Work", ConnectionState::Online),
        ("Personal", ConnectionState::Offline),
    ]);
    let derived = derive_aggregate(&accounts, 0, 4291, Some("invoice"));
    assert_eq!(
        derived,
        Some(State::NoMatches {
            query: "invoice".to_owned(),
            incomplete: vec!["Personal".to_owned()],
        }),
        "an empty result set has to carry the accounts it could not \
         search fully, or it reads as proof the mail is not there"
    );
}

#[test]
fn a_search_that_found_nothing_with_everything_online_is_a_plain_no_match() {
    let accounts = named(&[
        ("Work", ConnectionState::Online),
        ("Personal", ConnectionState::Online),
    ]);
    assert_eq!(
        derive_aggregate(&accounts, 0, 4291, Some("invoice")),
        Some(State::NoMatches {
            query: "invoice".to_owned(),
            incomplete: Vec::new(),
        }),
        "nothing to disclose, so the answer is the same one a single \
         account gives"
    );
}

#[test]
fn an_empty_aggregate_with_everything_online_is_still_inbox_zero() {
    let accounts = named(&[
        ("Work", ConnectionState::Online),
        ("Personal", ConnectionState::Online),
    ]);
    assert_eq!(
        derive_aggregate(&accounts, 0, 4291, None),
        Some(State::InboxZero {
            last_sync: None,
            stored: 4291,
        })
    );
}

#[test]
fn an_unreachable_account_outranks_inbox_zero_when_there_are_no_rows() {
    let accounts = named(&[
        ("Work", ConnectionState::Online),
        ("Personal", ConnectionState::Offline),
    ]);
    let derived = derive_aggregate(&accounts, 0, 4291, None);
    assert_eq!(
        derived,
        Some(State::Partial {
            accounts: vec!["Personal".to_owned()],
        })
    );
    assert_eq!(derived.unwrap().placement(0), Placement::Full);
}

#[test]
fn a_disabled_account_never_reaches_here_so_it_is_never_named() {
    assert_eq!(derive_aggregate(&[], 0, 0, None), None);
}

#[test]
fn the_oldest_sync_speaks_for_an_aggregate() {
    let synced = |at: Option<u64>| SyncStatus {
        state: ConnectionState::Online,
        detail: None,
        last_sync: at,
    };
    let last_sync = |times: &[Option<u64>]| {
        let accounts: Vec<(String, SyncStatus)> =
            times.iter().map(|at| ("Work".to_owned(), synced(*at))).collect();
        match derive_aggregate(&accounts, 0, 7, None) {
            Some(State::InboxZero { last_sync, stored: 7 }) => last_sync,
            other => panic!("expected an empty inbox, got {other:?}"),
        }
    };
    assert_eq!(last_sync(&[Some(30), Some(10), Some(20)]), Some(10));
    assert_eq!(last_sync(&[Some(30), None, Some(20)]), None, "one has never synced");
}

#[test]
fn only_an_account_that_answered_is_current() {
    assert!(is_current(&status(ConnectionState::Online)));
    assert!(is_current(&status(ConnectionState::Connecting)));
    assert!(!is_current(&status(ConnectionState::Offline)));
    assert!(!is_current(&status(ConnectionState::Failing)));
}
