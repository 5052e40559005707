use postio_ui::settings::{find_section, header_key, humanize_interval, section_at_line, Group, Section};

const SAMPLE: &str = "\
# edits here and in the panel are the same file
[ui]
density = \"compact\"
theme = \"system\"

[keys]
archive = \"a\"

[accounts.personal]
email = \"ada@example.com\"

[accounts.personal.imap]
host = \"imap.example.com\"

[sync]
idle = true
";

#[test]
fn an_interval_reads_as_the_unit_it_was_written_in() {
    assert_eq!(humanize_interval(300), "5 min");
    assert_eq!(humanize_interval(3600), "1 h");
    assert_eq!(humanize_interval(120), "2 min");
}

#[test]
fn an_interval_that_is_not_a_round_minute_says_seconds_rather_than_rounding() {
    assert_eq!(humanize_interval(90), "90s");
    assert_eq!(humanize_interval(45), "45s");
}

#[test]
fn every_section_that_owns_a_table_names_one_and_the_two_that_do_not_say_so() {
    for section in Section::ALL {
        match section {
            Section::Privacy | Section::ConfigFile => assert_eq!(
                section.table(),
                None,
                "{} owns no config.toml table",
                section.label()
            ),
            other => {
                let table = other.table().expect("a table");
                assert!(
                    table.starts_with('[') && table.ends_with(']'),
                    "{} names its table the way the file writes it: {table}",
                    other.label()
                );
                assert!(
                    table.contains(other.key()),
                    "{}'s footer label and its header key must agree: \
                     {table} vs {}",
                    other.label(),
                    other.key()
                );
            }
        }
    }
}

#[test]
fn the_sidebar_groups_are_contiguous() {
    let groups: Vec<Group> = Section::ALL.iter().map(|s| s.group()).collect();
    let mut seen = Vec::new();
    for group in groups {
        if seen.last() != Some(&group) {
            assert!(
                !seen.contains(&group),
                "{group:?} appears twice in nav order, so its heading would too"
            );
            seen.push(group);
        }
    }
    assert_eq!(seen, Group::ALL.to_vec());
}

#[test]
fn a_bare_section_header_names_its_key() {
    assert_eq!(header_key("[ui]").as_deref(), Some("ui"));
    assert_eq!(header_key("  [sync]  ").as_deref(), Some("sync"));
}

#[test]
fn a_dotted_header_is_matched_by_its_first_segment() {
    assert_eq!(header_key("[accounts.personal.imap]").as_deref(), Some("accounts"));
    assert_eq!(header_key("[filters.urgent]").as_deref(), Some("filters"));
}

#[test]
fn a_key_value_line_has_no_header() {
    assert_eq!(header_key("density = \"compact\""), None);
    assert_eq!(header_key(""), None);
}

#[test]
fn an_array_of_tables_header_is_not_mistaken_for_a_section() {
    assert_eq!(header_key("[[items]]"), None);
}

#[test]
fn find_section_locates_a_bare_header() {
    assert_eq!(find_section(SAMPLE, Section::Appearance), Some(1));
    assert_eq!(find_section(SAMPLE, Section::Sync), Some(14));
}

#[test]
fn find_section_locates_the_first_dotted_table_for_a_prefix_section() {
    assert_eq!(find_section(SAMPLE, Section::Accounts), Some(8));
}

#[test]
fn find_section_is_none_for_a_section_not_written_yet() {
    assert_eq!(find_section(SAMPLE, Section::Filters), None);
}

#[test]
fn find_section_is_none_for_privacy_no_matter_what_the_file_says() {
    assert_eq!(find_section(SAMPLE, Section::Privacy), None);
    assert_eq!(find_section("[privacy]\n", Section::Privacy), None);
    assert_eq!(find_section("[config_file]\n", Section::ConfigFile), None);
}

#[test]
fn section_at_line_is_none_above_the_first_header() {
    assert_eq!(section_at_line(SAMPLE, 0), None);
}

#[test]
fn section_at_line_finds_the_nearest_header_at_or_above() {
    assert_eq!(section_at_line(SAMPLE, 2), Some(Section::Appearance));
    assert_eq!(section_at_line(SAMPLE, 3), Some(Section::Appearance));
    assert_eq!(section_at_line(SAMPLE, 6), Some(Section::Keyboard));
}

#[test]
fn section_at_line_treats_every_line_of_a_dotted_table_as_its_section() {
    assert_eq!(section_at_line(SAMPLE, 11), Some(Section::Accounts));
}

#[test]
fn section_at_line_past_the_end_of_the_file_is_the_last_section() {
    assert_eq!(section_at_line(SAMPLE, 999), Some(Section::Sync));
}

#[test]
fn nothing_is_never_an_interval() {
    assert_eq!(humanize_interval(0), "never");
    assert_eq!(humanize_interval(7_200), "2 h");
    assert_eq!(humanize_interval(1), "1s");
}

#[test]
fn every_section_says_what_it_is_for() {
    for section in Section::ALL {
        assert!(!section.description().is_empty());
        assert!(!section.keywords().is_empty());
        assert!(!section.label().is_empty());
    }
    assert_eq!(Group::Mail.label(), "MAIL");
    assert_eq!(Group::Application.label(), "APPLICATION");
}
