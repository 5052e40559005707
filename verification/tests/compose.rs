use postio_ui::compose::{editor_script, link_script, mark_script, markdown_table_js, outgoing_shape, recipient_summary};

#[test]
fn rich_always_carries_a_plain_alternative() {
    assert!(outgoing_shape(true).contains("text/plain"));
}

#[test]
fn plain_says_it_is_flowed_rather_than_just_plain() {
    assert_eq!(outgoing_shape(false), "text/plain, format=flowed");
}

#[test]
fn every_mark_the_bar_offers_has_a_script() {
    for command in [
        "bold",
        "italic",
        "bullet_list",
        "numbered_list",
        "quote_block",
    ] {
        assert!(
            mark_script(command).is_some(),
            "{command} has no script, so its button is decoration"
        );
    }
}

#[test]
fn a_command_that_is_not_a_mark_has_none() {
    assert_eq!(mark_script("archive"), None);
    assert_eq!(mark_script("insert_link"), None, "link needs an href");
}

#[test]
fn every_script_raises_the_event_the_host_records_on() {
    for command in ["bold", "bullet_list", "quote_block"] {
        let script = mark_script(command).expect("a script");
        assert!(
            script.contains("new Event('input')"),
            "{command} applies without telling the host: {script}"
        );
    }
}

#[test]
fn quoting_toggles_rather_than_only_applying() {
    let script = mark_script("quote_block").expect("a script");
    assert!(script.contains("queryCommandValue"), "no toggle: {script}");
    assert!(
        script.contains("'p'"),
        "nothing to toggle back to: {script}"
    );
}



#[test]
fn one_person_gets_no_banner_at_all() {
    assert_eq!(recipient_summary(1, 0, 0), None);
    assert_eq!(recipient_summary(0, 0, 0), None);
}

#[test]
fn a_reply_all_to_a_list_says_which_field_the_crowd_is_on() {
    assert_eq!(recipient_summary(1, 41, 0).as_deref(), Some("1 To, 41 Cc"));
}

#[test]
fn an_empty_field_is_not_counted_at_zero() {
    assert_eq!(recipient_summary(2, 0, 0).as_deref(), Some("2 To"));
    assert_eq!(recipient_summary(1, 0, 3).as_deref(), Some("1 To, 3 Bcc"));
}

#[test]
fn the_fields_are_named_in_the_order_they_are_drawn() {
    assert_eq!(
        recipient_summary(1, 2, 3).as_deref(),
        Some("1 To, 2 Cc, 3 Bcc")
    );
}

#[test]
fn the_assembled_script_defines_the_table_before_it_reads_it() {
    let script = editor_script("for (const sequence of POSTIO_MARKDOWN) {}\n");
    let defined = script
        .find("const POSTIO_MARKDOWN")
        .expect("the table is defined");
    let read = script
        .find("for (const sequence of POSTIO_MARKDOWN)")
        .expect("the body reads the table");
    assert!(
        defined < read,
        "the table has to be in scope before the recognisers run"
    );
    assert!(
        script.contains(r#"marker: "**", command: "bold""#),
        "the table is the real one, not an empty literal: {script}"
    );
}

#[test]
fn a_link_to_somewhere_a_message_may_point_gets_a_script() {
    assert!(link_script("https://example.com", true).is_some());
    assert!(link_script("mailto:ada@example.com", true).is_some());
}

#[test]
fn a_link_the_subset_refuses_is_refused_here_rather_than_at_the_next_parse() {
    assert_eq!(link_script("javascript:alert(1)", false), None);
    assert_eq!(link_script("file:///etc/passwd", false), None);
    assert_eq!(
        link_script("example.com", false),
        None,
        "relative means nothing in mail"
    );
}

#[test]
fn a_quote_in_an_href_cannot_close_the_script_literal() {
    let script = link_script("https://example.com/a'b", true).expect("a script");
    assert!(script.contains("a\\'b"), "unescaped quote: {script}");
    assert_eq!(
        link_script("a\\b", true).as_deref(),
        Some(
            "document.execCommand('createLink', false, 'a\\\\b'); \
             document.dispatchEvent(new Event('input'));"
        )
    );
}

#[test]
fn the_table_is_one_line_a_sequence() {
    let table = markdown_table_js();
    assert!(table.starts_with("const POSTIO_MARKDOWN = [\n"));
    assert!(table.ends_with("];\n"));
    assert!(table.contains("    { marker: \"1.\", command: \"numbered_list\", trigger: \"line_prefix\" },\n"));
    assert_eq!(table.lines().count(), 9);
}

#[test]
fn the_shapes_say_what_leaves() {
    assert_eq!(outgoing_shape(true), "html + text/plain");
    assert_eq!(
        mark_script("bold").as_deref(),
        Some("document.execCommand('bold'); document.dispatchEvent(new Event('input'));")
    );
}
