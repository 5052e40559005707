use postio_ui::reader::document::{contain_body, contain_body_in, RemoteImages, Sheet, Stylesheets};
use postio_ui::reader::thread::{conversation_document, entry_html, escape, message_anchor, senders_styles};
use postio_ui::reader::thread::{Entry, ALLOW_SCHEME, CONTINUE_SCHEME, FORWARD_SCHEME, MINE_CLASS, REPLY_SCHEME};

const STYLES: Stylesheets<'static> = Stylesheets {
    palette: ":root {\n  --r-ground: #fafafa;\n}\n@media (prefers-color-scheme: dark) {\n  :root {\n    --r-ground: #101010;\n  }\n}\n",
    structure: "body { background: var(--r-ground); }\n",
};

/// The name the surfaces carry their scope in.
const ATTRIBUTE: &str = "data-message";

const CHROME: &str = ".postio-message { border: 1px solid var(--r-hairline); color: var(--r-dim); }\n\
.postio-latest { color: var(--r-accent); }\n";

fn conversation(entries: &[Entry<'_>]) -> String {
    conversation_document(entries, CHROME, "", ATTRIBUTE, RemoteImages::Blocked, Sheet::Theme, STYLES)
}

#[test]
fn a_draft_offers_continue_editing_and_neither_reply_nor_forward() {
    let mut draft = entry("7", "Ada", "<p>unsent</p>", true);
    draft.draft = true;
    let document = conversation(
        &[draft]);
    assert!(
        document.contains(&format!("{CONTINUE_SCHEME}:7")),
        "a draft was not offered the one verb that is true of it"
    );
    assert!(
        !document.contains(REPLY_SCHEME),
        "a draft was offered a reply, which would quote the user's own \
         unsent text back at them"
    );
    assert!(
        !document.contains(FORWARD_SCHEME),
        "a draft was offered a forward of a message that was never sent"
    );
}

#[test]
fn only_the_draft_of_a_thread_loses_its_reply() {
    let sent = entry("1", "Ada", "<p>sent</p>", true);
    let mut draft = entry("2", "Bo", "<p>unsent</p>", true);
    draft.draft = true;
    let document = conversation(
        &[sent, draft]);
    assert!(
        document.contains(&format!("{REPLY_SCHEME}:1")),
        "the sent message lost the reply that is right for it"
    );
    assert!(
        !document.contains(&format!("{REPLY_SCHEME}:2")),
        "the draft kept a reply because a sibling had one"
    );
    assert!(document.contains(&format!("{CONTINUE_SCHEME}:2")));
}

#[test]
fn a_message_from_the_user_is_marked_as_theirs() {
    let mut mine = entry("1", "Ada", "<p>hi</p>", true);
    mine.mine = true;
    let theirs = entry("2", "Bo", "<p>hi</p>", true);
    let document = conversation(
        &[mine, theirs]);
    let first = document
        .split("<details")
        .nth(1)
        .expect("the first message");
    let second = document
        .split("<details")
        .nth(2)
        .expect("the second message");
    assert!(
        first.contains(MINE_CLASS),
        "the user's own message is not marked as theirs"
    );
    assert!(
        !second.contains(MINE_CLASS),
        "a correspondent's message is marked as the user's own"
    );
}

#[test]
fn a_blocked_message_offers_a_way_to_show_its_images() {
    let mut entry = entry("1", "Ada", "<p>hi</p>", true);
    entry.blocked = 6;
    let document = conversation(
        &[entry]);
    assert!(document.contains("6 remote images blocked"));
    assert!(
        document.contains(&format!("{ALLOW_SCHEME}:")),
        "the notice reports the block and offers no way to act on it"
    );
}

#[test]
fn the_show_link_names_the_message_it_belongs_to() {
    let mut first = entry("11", "Ada", "<p>one</p>", true);
    first.blocked = 1;
    let mut second = entry("22", "Grace", "<p>two</p>", true);
    second.blocked = 1;
    let document = conversation(
        &[first, second]);
    assert!(document.contains(&format!("{ALLOW_SCHEME}:11")));
    assert!(document.contains(&format!("{ALLOW_SCHEME}:22")));
}

#[test]
fn a_message_with_nothing_held_back_offers_nothing() {
    let document = conversation(
        &[entry("1", "Ada", "<p>hi</p>", true)]);
    assert!(
        !document.contains(ALLOW_SCHEME),
        "a message that had nothing blocked is offering consent for nothing"
    );
}

fn entry<'a>(scope: &'a str, sender: &'a str, body: &'a str, expanded: bool) -> Entry<'a> {
    Entry {
        scope,
        sender,
        address: "ada@example.com",
        when: "09:14",
        preview: "the first line of it",
        expanded,
        draft: false,
        mine: false,
        latest: false,
        blocked: 0,
        styles: "",
        recipients: "",
        cc: "",
        body,
    }
}

#[test]
fn a_thread_is_one_document_holding_every_message() {
    let entries = [
        entry("1", "Ada Lovelace", "<p>first</p>", true),
        entry("2", "Grace Hopper", "<p>second</p>", false),
        entry("3", "Ada Lovelace", "<p>third</p>", false),
    ];
    let document = conversation(&entries);

    assert_eq!(document.matches("<!DOCTYPE html>").count(), 1);
    assert_eq!(document.matches("<html").count(), 1);

    for body in ["<p>first</p>", "<p>second</p>", "<p>third</p>"] {
        assert_eq!(
            document.matches(body).count(),
            1,
            "{body} should appear exactly once in the thread"
        );
    }
    assert_eq!(document.matches("<details").count(), 3);
    assert!(document.contains("Ada Lovelace"));
    assert!(document.contains("Grace Hopper"));
}

#[test]
fn the_markup_is_well_formed_and_carries_no_stray_escapes() {
    let markup = entry_html(&entry("1", "Ada", "<p>hi</p>", true), ATTRIBUTE);
    assert!(
        !markup.contains('\\'),
        "a backslash reached the markup: {markup}"
    );
    assert!(
        !markup.contains("  "),
        "stray indentation in markup: {markup}"
    );
    assert!(markup.contains("<summary class=\"postio-message-head\">"));
    assert!(markup.contains("</summary>"));
    assert_eq!(markup.matches("</details>").count(), 1);
}

#[test]
fn only_the_expanded_messages_start_open() {
    let entries = [
        entry("1", "Ada", "<p>a</p>", false),
        entry("2", "Grace", "<p>b</p>", true),
    ];
    let document = conversation(&entries);
    assert_eq!(
        document.matches(" open>").count(),
        1,
        "exactly one message should start open: {document}"
    );
    assert!(document.contains(r#"id="m-2" open>"#));
    assert!(document.contains(r#"id="m-1">"#));
}


#[test]
fn a_sender_cannot_write_markup_through_their_name() {
    let entries = [entry("1", "<script>alert(1)</script>", "<p>a</p>", true)];
    let document = conversation(&entries);
    assert!(
        !document.contains("<script>"),
        "a display name became an element: {document}"
    );
    assert!(document.contains("&lt;script&gt;"));
}

#[test]
fn one_message_is_a_thread_of_one() {
    let mut only = entry("7", "Marketside", "<p>out for delivery</p>", true);
    only.address = "orders@marketside.example";
    let document = conversation(&[only]);

    assert_eq!(document.matches("<details").count(), 1);
    assert!(
        document.contains(r#"id="m-7" open>"#),
        "the one message has to be open, or a single message opens closed"
    );
    assert!(document.contains("orders@marketside.example"));
    assert!(document.contains("<p>out for delivery</p>"));
    assert!(
        !document.contains(r#"<span class="postio-latest">"#),
        "a thread of one has nothing for `latest` to distinguish"
    );
}

#[test]
fn each_message_says_what_was_held_back_for_it() {
    let mut first = entry("1", "Ada", "<p>a</p>", true);
    first.blocked = 6;
    let mut second = entry("2", "Grace", "<p>b</p>", true);
    second.blocked = 1;
    let third = entry("3", "Hedy", "<p>c</p>", true);
    let document =
        conversation(&[first, second, third]);

    assert!(document.contains("6 remote images blocked"));
    assert!(document.contains("1 remote image blocked"));
    assert_eq!(
        document.matches(r#"<div class="postio-blocked">"#).count(),
        2,
        "a message with nothing held back should say nothing"
    );
}

#[test]
fn only_the_newest_message_is_marked_latest() {
    let first = entry("1", "Ada", "<p>a</p>", false);
    let mut second = entry("2", "Grace", "<p>b</p>", true);
    second.latest = true;
    let document = conversation(&[first, second]);
    assert_eq!(
        document.matches(r#"<span class="postio-latest">"#).count(),
        1
    );
}

#[test]
fn the_thread_chrome_reads_its_colours_off_the_tokens() {
    let document = conversation(
        &[entry("1", "Ada", "<p>a</p>", true)]);
    assert!(
        document.contains(".postio-message"),
        "the thread sheet is missing"
    );
    for token in ["var(--r-hairline)", "var(--r-accent)", "var(--r-dim)"] {
        assert!(
            document.contains(token),
            "the thread chrome should dress itself from {token}"
        );
    }
}

#[test]
fn the_thread_document_is_as_hardened_as_a_single_messages() {
    let entries = [entry("1", "Ada", "<p>a</p>", true)];
    let document = conversation(&entries);
    assert!(document.contains("Content-Security-Policy"));
    assert!(document.contains("img-src postio-cid: data:;"));
    assert!(document.contains("base-uri 'none'"));
}

#[test]
fn an_anchor_cannot_break_out_of_the_attribute_it_sits_in() {
    let hostile = r#"1" onmouseover="steal()"#;
    let anchor = message_anchor(hostile);
    assert!(
        !anchor.contains('"'),
        "an anchor with a bare quote in it escapes its attribute: {anchor}"
    );

    let html = entry_html(&entry(hostile, "Ada", "<p>one</p>", true), ATTRIBUTE);
    assert!(
        !html.contains("onmouseover=\"steal()"),
        "the sender's attribute survived into the markup: {html}"
    );
    assert!(
        html.contains(&format!("id=\"{anchor}\"")),
        "and the message still has an anchor to scroll to: {html}"
    );
}

#[test]
fn a_quote_folds_inside_the_message_it_belongs_to() {
    let quoted = "<p>my reply</p><details class=\"postio-quote\"><summary>quoted \
                  text</summary><blockquote>theirs</blockquote></details>";
    let document = conversation(
        &[
            entry("7", "Ada", quoted, true),
            entry("11", "Grace", "<p>no quote here</p>", true),
        ]);

    let ada = document
        .split(&format!("id=\"{}\"", message_anchor("7")))
        .nth(1)
        .and_then(|rest| {
            rest.split(&format!("id=\"{}\"", message_anchor("11")))
                .next()
        })
        .expect("Ada's message is in the document");
    assert!(
        ada.contains("postio-quote"),
        "the fold is not inside the message that owns it: {ada}"
    );
    assert!(
        ada.contains("my reply"),
        "and the prose it belongs with is there too: {ada}"
    );

    let grace = document
        .split(&format!("id=\"{}\"", message_anchor("11")))
        .nth(1)
        .expect("Grace's message is in the document");
    assert!(
        !grace.contains("postio-quote"),
        "a message with nothing to fold gained a fold from its neighbour: \
         {grace}"
    );
}

#[test]
fn every_body_keeps_its_own_bounded_surface() {
    let document = conversation(&[
        entry("1", "Ada", "<p>a</p>", true),
        entry("2", "Grace", "<p>b</p>", true),
    ]);
    assert_eq!(document.matches("<div class=\"postio-body\"").count(), 2);
    for scope in ["1", "2"] {
        assert!(
            document.contains(&format!("{ATTRIBUTE}=\"{scope}\"")),
            "message {scope} is not named: {document}"
        );
    }
    assert!(document.contains(
        "</summary><div class=\"postio-body\" data-message=\"1\"><p>a</p></div></details>"
    ));
}

#[test]
fn a_surface_without_a_scope_carries_no_name() {
    assert_eq!(contain_body_in("<p>a</p>", ATTRIBUTE, None), contain_body("<p>a</p>"));
    assert_eq!(
        contain_body_in("<p>a</p>", ATTRIBUTE, Some("1\"")),
        "<div class=\"postio-body\" data-message=\"1&quot;\"><p>a</p></div>"
    );
}

#[test]
fn recipients_are_drawn_only_where_there_are_some() {
    let mut message = entry("1", "Ada", "<p>a</p>", true);
    message.recipients = "Grace <grace@example.com>";
    message.cc = "  ";
    let html = entry_html(&message, ATTRIBUTE);
    assert!(html.contains(
        "<div class=\"postio-message-recipients\"><span class=\"postio-recipients-label\">To</span>\
         <span class=\"postio-recipients-value\">Grace &lt;grace@example.com&gt;</span></div>"
    ));
    assert!(!html.contains(">Cc<"));
}

#[test]
fn escaping_leaves_nothing_that_markup_is_made_of() {
    assert_eq!(escape("<a href=\"x\">'&'"), "&lt;a href=&quot;x&quot;&gt;&#39;&amp;&#39;");
    assert_eq!(escape("plain words, é and all"), "plain words, é and all");
    assert_eq!(message_anchor("7"), "m-7");
}

#[test]
fn the_senders_rules_follow_the_order_of_the_messages() {
    let mut first = entry("1", "Ada", "", true);
    first.styles = ".a {}";
    let mut second = entry("2", "Grace", "", true);
    second.styles = ".b {}";
    assert_eq!(senders_styles(&[first, second]), ".a {}\n.b {}");
    assert_eq!(senders_styles(&[]), "");
}

#[test]
fn a_conversation_is_its_messages_one_after_another() {
    let first = entry("1", "Ada", "<p>a</p>", true);
    let second = entry("2", "Grace", "<p>b</p>", false);
    let both = format!("{}{}", entry_html(&first, ATTRIBUTE), entry_html(&second, ATTRIBUTE));
    assert!(conversation(&[first, second]).contains(&both));
}
