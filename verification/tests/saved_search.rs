use postio_ui::saved_search::{asked_of, delete_prompt, edit, needs_patch, pinned, rename_prompt};
use postio_ui::saved_search::{Asked, Filter, Reorder, SavedSearch, Verb};

fn filter(key: &str, name: Option<&str>, query: &str) -> Filter {
    Filter { key: key.to_owned(), name: name.map(str::to_owned), query: query.to_owned() }
}

fn keys(names: &[&str]) -> Vec<String> {
    names.iter().map(|name| (*name).to_owned()).collect()
}

#[test]
fn saving_nothing_saves_nothing() {
    assert_eq!(asked_of(Verb::Save { query: "   " }), Asked::Nothing);
    let left = edit("the file", vec![], &None, false, "another file");
    assert_eq!(left.changed, None);
    assert_eq!(left.text, "the file", "a no-op must not rewrite the file");
}

#[test]
fn saving_a_query_trims_what_is_around_it() {
    assert_eq!(
        asked_of(Verb::Save { query: "  is:unread from:team " }),
        Asked::Save { query: "is:unread from:team".to_owned() }
    );
}

#[test]
fn the_other_verbs_are_passed_on_as_they_are() {
    assert_eq!(
        asked_of(Verb::Rename { key: "urgent", name: "  " }),
        Asked::Rename { key: "urgent".to_owned(), name: "  ".to_owned() }
    );
    assert_eq!(
        asked_of(Verb::Move { key: "c", direction: Reorder::Up }),
        Asked::Move { key: "c".to_owned(), direction: Reorder::Up }
    );
    assert_eq!(
        asked_of(Verb::Move { key: "a", direction: Reorder::Down }),
        Asked::Move { key: "a".to_owned(), direction: Reorder::Down }
    );
    assert_eq!(asked_of(Verb::Delete { key: "urgent" }), Asked::Delete { key: "urgent".to_owned() });
}

#[test]
fn a_saved_search_draws_under_the_name_it_was_given() {
    let rows = pinned(&keys(&["urgent"]), &[filter("urgent", Some("Needs a reply"), "is:unread")]);
    assert_eq!(rows[0].name, "Needs a reply", "the label follows the rename");
    assert_eq!(rows[0].key, "urgent", "the key is the identity and a rename must not move it");
    assert_eq!(rows[0].query, "is:unread");
}

#[test]
fn renaming_to_nothing_puts_the_key_back_as_the_label() {
    let rows = pinned(&keys(&["urgent"]), &[filter("urgent", None, "is:unread")]);
    assert_eq!(
        rows[0].name, "urgent",
        "clearing a name is not an empty label, it is no label"
    );
}

#[test]
fn rows_come_in_the_order_the_settings_give() {
    let filters = [filter("a", None, "from:ada"), filter("b", None, "from:grace"), filter("c", None, "from:alan")];
    let drawn: Vec<SavedSearch> = pinned(&keys(&["a", "c", "no-such-search", "b"]), &filters);
    let order: Vec<&str> = drawn.iter().map(|row| row.key.as_str()).collect();
    assert_eq!(order, ["a", "c", "b"]);
}

#[test]
fn renaming_a_search_that_is_not_there_changes_nothing() {
    assert!(!needs_patch(&None, false));
    let left = edit("the file", vec![], &None, true, "another file");
    assert_eq!(left.changed, None);
    assert_eq!(left.text, "the file");
}

#[test]
fn renaming_a_search_to_the_name_it_already_has_writes_nothing() {
    let named = Some("urgent".to_owned());
    assert!(!needs_patch(&named, false));
    let again = edit("the file", vec![], &named, false, "another file");
    assert_eq!(again.changed, None, "renaming to the name it already has is not a change");
    assert_eq!(again.text, "the file", "and it must not rewrite the file");
}

#[test]
fn a_change_is_reported_with_the_file_it_made() {
    let named = Some("urgent".to_owned());
    assert!(needs_patch(&named, true));
    let rows = pinned(&keys(&["urgent"]), &[filter("urgent", None, "is:unread")]);
    let made = edit("the file", rows.clone(), &named, true, "the patched file");
    assert_eq!(made.changed.as_deref(), Some("urgent"));
    assert_eq!(made.text, "the patched file");
    assert_eq!(made.searches, rows);
}

#[test]
fn the_questions_are_asked_in_words_both_frontends_share() {
    assert_eq!(delete_prompt().title, "Delete this saved search?");
    assert!(delete_prompt().body.is_some_and(|body| body.contains("query")));
    assert_eq!(delete_prompt().confirm, "Delete");
    assert_eq!(rename_prompt().body, None);
    assert_eq!(rename_prompt().cancel, "Cancel");
}
