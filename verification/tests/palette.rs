use postio_ui::model::{AccountId, CommandSpec, Context, Scope};
use postio_ui::palette::{entries, score, MAX_ROWS};

fn command(id: &str, title: &str, binding: Option<&str>) -> CommandSpec {
    CommandSpec {
        id: id.to_owned(),
        title: title.to_owned(),
        binding: binding.map(str::to_owned),
        anywhere: false,
        contexts: vec![Context::List],
        needs_account: false,
    }
}

/// What the registry offers.
fn registry() -> Vec<CommandSpec> {
    let mut moving = command("move", "Move to…", None);
    moving.needs_account = true;
    let mut sending = command("send", "Send", Some("ctrl+Return"));
    sending.contexts = vec![Context::Composer];
    let mut palette = command("palette", "Command palette", Some("ctrl+k"));
    palette.anywhere = true;
    palette.contexts = Vec::new();
    vec![
        command("archive", "Archive", Some("a")),
        command("archive_thread", "Archive conversation", Some("A")),
        sending,
        command("reply", "Reply", Some("e")),
        command("reply_all", "Reply to all", Some("E")),
        moving,
        palette,
    ]
}

/// The scope where every command is available: one account's own mailboxes.
fn an_account() -> Scope {
    Scope::Account(AccountId::new(1))
}

fn ids(context: Context, scope: Scope, query: &str) -> Vec<String> {
    entries(&registry(), context, scope, query).into_iter().map(|entry| entry.id).collect()
}

#[test]
fn a_query_that_is_not_a_subsequence_does_not_match() {
    assert!(score("zzz", "Archive").is_none());
    assert!(score("ahcrive", "Archive").is_none(), "order matters");
}

#[test]
fn an_empty_query_matches_everything_equally() {
    assert_eq!(score("", "Archive").expect("a match").score, 0);
    assert_eq!(score("", "Reply to all").expect("a match").score, 0);
}

#[test]
fn matching_is_case_insensitive() {
    assert!(score("ARCH", "Archive").is_some());
    assert!(score("arch", "Archive").is_some());
}

#[test]
fn the_positions_are_where_it_matched() {
    let matched = score("arc", "Archive").expect("a match");

    assert_eq!(matched.positions, vec![0, 1, 2]);
}

#[test]
fn word_initials_beat_a_run_buried_mid_word() {
    let initials = score("ra", "Reply to all").expect("a match").score;
    let buried = score("ra", "Forward").expect("a match").score;

    assert!(
        initials > buried,
        "initials {initials} should beat mid-word {buried}"
    );
}

#[test]
fn a_prefix_beats_the_same_letters_further_in() {
    let prefix = score("com", "compose").expect("a match").score;
    let later = score("com", "recompose").expect("a match").score;

    assert!(prefix > later, "{prefix} vs {later}");
}

#[test]
fn between_equal_matches_the_shorter_title_wins() {
    let short = score("f", "Flag").expect("a match").score;
    let long = score("f", "Forward the whole conversation")
        .expect("a match")
        .score;

    assert!(short > long, "{short} vs {long}");
}

#[test]
fn an_empty_query_lists_everything_reachable_in_registry_order() {
    assert_eq!(
        ids(Context::List, an_account(), ""),
        ["archive", "archive_thread", "reply", "reply_all", "move", "palette"]
    );
}

#[test]
fn the_context_filter_hides_what_does_not_apply() {
    assert!(
        !ids(Context::List, an_account(), "send").contains(&"send".to_owned()),
        "offering to send from the message list is a row that can only disappoint"
    );
    assert!(ids(Context::Composer, an_account(), "send").contains(&"send".to_owned()));
}

#[test]
fn a_command_for_everywhere_is_offered_everywhere() {
    for context in [Context::List, Context::Composer, Context::Keys] {
        assert_eq!(ids(context, Scope::Unified, "palette"), ["palette"]);
    }
}

#[test]
fn a_unified_view_offers_no_move_and_an_account_view_does() {
    let titles = |scope: Scope| -> Vec<String> {
        entries(&registry(), Context::List, scope, "move")
            .into_iter()
            .map(|entry| entry.title)
            .collect()
    };
    let in_account = titles(an_account());
    assert!(
        in_account.contains(&"Move to…".to_owned()),
        "an account view is exactly where moving into a folder means something: {in_account:?}"
    );
    let unified = titles(Scope::Unified);
    assert!(
        !unified.contains(&"Move to…".to_owned()),
        "offering Move across every account promises a folder the user was never given the chance to pick: {unified:?}"
    );
}

#[test]
fn a_command_is_findable_by_its_id_as_well_as_its_title() {
    let found = ids(Context::List, an_account(), "archive_th");
    assert_eq!(found.first().map(String::as_str), Some("archive_thread"));
}

#[test]
fn a_title_match_outranks_an_id_match_for_the_same_query() {
    let ranks = ids(Context::List, an_account(), "archive");
    assert_eq!(ranks.iter().position(|id| id == "archive"), Some(0), "{ranks:?}");
}

#[test]
fn rows_carry_the_binding_in_force() {
    let listed = entries(&registry(), Context::List, an_account(), "archive");
    let archive = listed.iter().find(|entry| entry.id == "archive").expect("archive");
    assert_eq!(archive.binding.as_deref(), Some("a"));
}

#[test]
fn a_rebound_command_shows_its_new_key() {
    let mut commands = registry();
    commands[0].binding = Some("y".to_owned());
    let listed = entries(&commands, Context::List, an_account(), "archive");
    let archive = listed.iter().find(|entry| entry.id == "archive").expect("archive");
    assert_eq!(archive.binding.as_deref(), Some("y"));
}

#[test]
fn a_query_that_matches_nothing_lists_nothing() {
    assert!(ids(Context::List, an_account(), "zzzzz").is_empty());
}

#[test]
fn the_list_is_capped() {
    let many: Vec<CommandSpec> = (0..200)
        .map(|n| command(&format!("command_{n}"), &format!("Command {n}"), None))
        .collect();
    assert_eq!(entries(&many, Context::List, an_account(), "").len(), MAX_ROWS);
    assert!(entries(&many, Context::List, an_account(), "c").len() <= MAX_ROWS);
}

#[test]
fn a_match_scores_by_word_starts_runs_and_gaps() {
    // A word start, then a run that is worth more the longer it gets.
    assert_eq!(score("arc", "Archive").expect("a match").score, 24 + 12 + 24);
    let spread = score("ae", "Archive").expect("a match");
    assert_eq!(spread.positions, vec![0, 6]);
}

#[test]
fn the_best_id_match_comes_after_the_worst_title_match() {
    let commands = [command("ab", "q", None), command("other", "xaxxxxxxxb", None)];
    let listed = entries(&commands, Context::List, an_account(), "ab");
    let ids: Vec<&str> = listed.iter().map(|entry| entry.id.as_str()).collect();
    assert_eq!(ids, ["other", "ab"]);
    assert!(listed[0].score < listed[1].score, "though its score is lower");
    assert!(listed[1].positions.is_empty(), "nothing in the title to highlight");
}
