use postio_ui::finder::{contact_query, contacts, labels, modes, ContactHit};
use postio_ui::model::{Address, Contact, Label, LabelId};

#[test]
fn every_mode_has_a_marker_and_a_purpose() {
    assert!(
        !modes().is_empty(),
        "a table nobody filled in explains nothing"
    );
    for mode in modes() {
        assert!(!mode.marker.is_empty(), "{mode:?} has no marker");
        assert!(!mode.purpose.is_empty(), "{mode:?} says nothing it is for");
    }
}

#[test]
fn prefixes_are_unique_and_exactly_one_mode_has_none() {
    let mut prefixes: Vec<char> = modes().iter().filter_map(|mode| mode.prefix).collect();
    let before = prefixes.len();
    prefixes.sort_unstable();
    prefixes.dedup();
    assert_eq!(
        prefixes.len(),
        before,
        "two modes answer to the same character, so one of them is unreachable"
    );
    assert_eq!(
        modes().iter().filter(|mode| mode.prefix.is_none()).count(),
        1,
        "exactly one mode is what the box already is; the rest are typed into it"
    );
}

#[test]
fn the_modes_the_box_ships_are_all_here() {
    let purpose_of = |prefix: Option<char>| {
        modes()
            .iter()
            .find(|mode| mode.prefix == prefix)
            .map(|mode| mode.purpose)
    };
    assert_eq!(purpose_of(None), Some("Search all mail"));
    assert_eq!(purpose_of(Some('>')), Some("Run a command"));
    assert_eq!(purpose_of(Some('#')), Some("Go to a folder"));
    assert_eq!(purpose_of(Some('+')), Some("Add a label"));
    assert_eq!(purpose_of(Some('@')), Some("Find a correspondent"));
}

fn label(id: i64, name: &str) -> Label {
    Label { id: LabelId::new(id), name: name.to_owned() }
}

fn contact(name: Option<&str>, seen: Option<&str>, address: &str, times: u32) -> Contact {
    Contact {
        name: name.map(str::to_owned),
        address: Address { name: seen.map(str::to_owned), address: address.to_owned() },
        times_seen: times,
    }
}

fn hit(address: &str) -> ContactHit {
    ContactHit { name: String::new(), address: address.to_owned(), times_seen: 0, positions: vec![], score: 0 }
}

#[test]
fn labels_come_out_best_first_and_say_where_they_matched() {
    let all = [label(1, "receipts"), label(2, "travel"), label(3, "re")];
    let found = labels(&all, "re");
    let names: Vec<&str> = found.iter().map(|hit| hit.name.as_str()).collect();
    assert_eq!(names, ["re", "receipts"]);
    assert_eq!(found[0].positions, vec![0, 1]);
    assert_eq!(found[0].id, LabelId::new(3));
}

#[test]
fn a_correspondent_is_called_by_the_name_the_user_set() {
    let everyone = [
        contact(Some("Ada"), Some("A. Lovelace"), "ada@example.com", 3),
        contact(None, Some("Grace Hopper"), "grace@example.com", 9),
        contact(None, None, "bob@example.com", 1),
    ];
    let found = contacts(&everyone, "ada");
    assert_eq!(found[0].name, "Ada");
    assert_eq!(found[0].address, "ada@example.com");
    let found = contacts(&everyone, "bob");
    assert_eq!(found[0].name, "bob@example.com");
}

#[test]
fn a_correspondents_query_is_quoted_only_where_it_has_to_be() {
    assert_eq!(contact_query(&hit("ada@example.com")), "from:ada@example.com");
    assert_eq!(contact_query(&hit("odd \"one@example.com")), "from:\"odd one@example.com\"");
}
