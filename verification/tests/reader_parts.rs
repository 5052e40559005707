use postio_ui::model::{Attachment, AttachmentId, Disposition, MessageBody};
use postio_ui::reader::parts::{detail, first_part, held_back_note, note, prefix, previewable};
use postio_ui::reader::parts::{root_type, save_all_failure, save_name, save_names, spoken, step};
use postio_ui::reader::parts::{suffixed, summary, tree, BlobSource, Node, CONTAINER, NOT_FETCHED};

const NO_BODY: MessageBody = MessageBody { text: None, html: None };

fn part(id: &str, mime: &str, size: u64) -> Attachment {
    Attachment {
        id: AttachmentId(0),
        part_id: Some(id.to_owned()),
        mime_type: mime.to_owned(),
        filename: None,
        size,
        downloaded: false,
        content_id: None,
        disposition: Disposition::Attachment,
    }
}

fn named(id: &str, mime: &str, size: u64, filename: &str) -> Attachment {
    let mut part = part(id, mime, size);
    part.filename = Some(filename.to_owned());
    part
}

fn message() -> Vec<Attachment> {
    vec![
        part("1", "text/plain", 2_100),
        part("2", "text/html", 6 * 1024),
        named("3", "text/x-diff", 11 * 1024, "0001-index.patch"),
        named("4", "image/png", 1_100 * 1024, "cold.png"),
    ]
}

fn leaf(mime: &str, filename: Option<&str>) -> Node {
    let mut row = part("1", mime, 10);
    row.filename = filename.map(str::to_owned);
    tree("multipart/mixed", &[row]).remove(1)
}

#[test]
fn the_message_is_the_root_and_the_parts_hang_off_it() {
    let nodes = tree("multipart/mixed", &message());

    assert_eq!(nodes.len(), 5, "four parts and the message itself");
    assert_eq!(nodes[0].mime, "multipart/mixed");
    assert_eq!(nodes[0].depth, 0);
    assert!(nodes[0].attachment.is_none(), "the root is not a part");
    assert!(nodes[1..].iter().all(|node| node.depth == 1));
}

#[test]
fn nesting_comes_out_of_the_part_ids() {
    let nodes = tree(
        "multipart/mixed",
        &[
            part("1", "text/plain", 10),
            part("2", "multipart/alternative", 0),
            part("2.1", "text/plain", 20),
            part("2.2", "text/html", 30),
        ],
    );

    let depths: Vec<usize> = nodes.iter().map(|node| node.depth).collect();
    assert_eq!(depths, [0, 1, 1, 2, 2]);
}

#[test]
fn parts_are_ordered_as_paths_of_numbers_not_as_strings() {
    let nodes = tree(
        "multipart/mixed",
        &[
            part("2.10", "text/plain", 1),
            part("2.9", "text/plain", 1),
            part("2.2", "text/plain", 1),
        ],
    );

    let ids: Vec<&str> = nodes[1..]
        .iter()
        .map(|node| node.part_id.as_str())
        .collect();
    assert_eq!(ids, ["2.2", "2.9", "2.10"], "`2.10` comes after `2.9`");
}

#[test]
fn a_part_with_no_usable_id_is_not_drawn() {
    let mut orphan = part("1", "text/plain", 10);
    orphan.part_id = None;
    let mut nonsense = part("TEXT", "text/plain", 10);
    nonsense.part_id = Some("TEXT".to_owned());

    let nodes = tree("multipart/mixed", &[orphan, nonsense]);
    assert_eq!(nodes.len(), 1, "nothing to fetch means nothing to offer");
}

#[test]
fn a_message_with_no_parts_still_says_what_it_is() {
    let nodes = tree("text/plain", &[]);

    assert_eq!(nodes.len(), 1);
    assert_eq!(nodes[0].mime, "text/plain");
    assert_eq!(summary(&nodes), "text/plain · 0 parts · 0 B");
}

#[test]
fn downloaded_is_whether_the_bytes_are_actually_here() {
    let mut fetched = part("1", "image/png", 100);
    fetched.downloaded = true;
    let nodes = tree("multipart/mixed", &[fetched, part("2", "image/png", 100)]);

    assert!(nodes[1].downloaded);
    assert!(!nodes[2].downloaded, "described, not fetched");
}

#[test]
fn a_part_the_body_draws_is_marked_inline_either_way_the_sender_said_so() {
    let mut by_cid = part("1", "image/png", 10);
    by_cid.content_id = Some("logo@example.com".to_owned());
    let mut by_disposition = part("2", "image/png", 10);
    by_disposition.disposition = Disposition::Inline;
    let attached = named("3", "application/pdf", 10, "invoice.pdf");

    let nodes = tree("multipart/related", &[by_cid, by_disposition, attached]);

    assert!(nodes[1].inline);
    assert_eq!(nodes[1].content_id.as_deref(), Some("logo@example.com"));
    assert!(nodes[2].inline, "a disposition alone is enough");
    assert!(!nodes[3].inline, "an attachment is not inline");
    assert_eq!(nodes[3].content_id, None);
}

#[test]
fn an_inline_image_too_big_for_the_text_axis_is_a_part_the_panel_explains() {
    let mut banner = part("2", "image/png", 4 * 1024 * 1024);
    banner.content_id = Some("banner@example.com".to_owned());
    banner.disposition = Disposition::Inline;

    let nodes = tree("multipart/related", &[part("1", "text/html", 900), banner]);
    let node = &nodes[2];

    assert!(
        node.is_leaf(),
        "an inline part is a part like any other: it gets a row and a save"
    );
    assert!(
        node.inline,
        "and it is still labelled as one the body draws"
    );
    assert!(!node.downloaded);
    assert_eq!(detail(node), "image/png · 4.0 MB");
    assert_eq!(spoken(node), "image/png, 4.0 MB, not downloaded");
    assert_eq!(
        note(node, 0, 0),
        NOT_FETCHED,
        "the sentence is the whole explanation for the broken box in the \
         body -- changing the words is fine, leaving the user without \
         them is not"
    );
}

#[test]
fn the_root_type_is_read_when_the_sync_recorded_one() {
    assert_eq!(
        root_type(
            Some("multipart/related"),
            &NO_BODY,
            &message(),
        ),
        "multipart/related",
        "a stored BODYSTRUCTURE beats any derivation from the columns"
    );
}

#[test]
fn the_root_type_falls_back_to_derivation_when_nothing_is_stored() {
    let with_html = MessageBody {
        text: None,
        html: Some("<p>hi</p>".to_owned()),
    };
    assert_eq!(root_type(None, &with_html, &[]), "text/html");
    assert_eq!(
        root_type(None, &NO_BODY, &[]),
        "text/plain"
    );
    assert_eq!(
        root_type(None, &NO_BODY, &message()),
        "multipart/mixed",
        "parts mean a multipart, whatever the bodies say"
    );
}

#[test]
fn the_last_child_of_a_branch_closes_it() {
    let nodes = tree("multipart/mixed", &message());
    let drawn: Vec<String> = nodes.iter().map(prefix).collect();

    assert_eq!(drawn, ["", "├ ", "├ ", "├ ", "└ "]);
}

#[test]
fn a_nested_branch_closes_before_its_parents_next_sibling() {
    let nodes = tree(
        "multipart/mixed",
        &[
            part("1", "multipart/alternative", 0),
            part("1.1", "text/plain", 1),
            part("1.2", "text/html", 1),
            part("2", "image/png", 1),
        ],
    );
    let drawn: Vec<String> = nodes.iter().map(prefix).collect();

    assert_eq!(
        drawn,
        ["", "├ ", "  ├ ", "  └ ", "└ "],
        "`1.2` ends its branch even though `2` follows it"
    );
}

#[test]
fn the_summary_counts_parts_and_not_the_message() {
    let nodes = tree("multipart/mixed", &message());
    assert_eq!(summary(&nodes), "multipart/mixed · 4 parts · 1.1 MB");
}

#[test]
fn one_part_is_not_plural() {
    let nodes = tree("multipart/mixed", &[part("1", "text/plain", 10)]);
    assert!(summary(&nodes).contains("1 part ·"));
}

#[test]
fn a_part_is_called_by_its_name_when_it_has_one() {
    let nodes = tree("multipart/mixed", &message());

    assert_eq!(nodes[1].label(), "text/plain", "unnamed, so its type");
    assert_eq!(nodes[3].label(), "0001-index.patch");
}

#[test]
fn the_detail_line_pairs_the_type_with_the_size() {
    let nodes = tree("multipart/mixed", &message());
    assert_eq!(detail(&nodes[2]), "text/html · 6.0 KB");
    assert_eq!(
        detail(&nodes[0]),
        "multipart/mixed",
        "the root is not sized"
    );
}

#[test]
fn a_container_is_not_something_to_save() {
    let nodes = tree(
        "multipart/mixed",
        &[
            part("1", "multipart/alternative", 0),
            part("1.1", "text/plain", 10),
        ],
    );
    assert!(!nodes[0].is_leaf(), "the message is not a part");
    assert!(
        !nodes[1].is_leaf(),
        "a container holds parts, it is not one"
    );
    assert!(nodes[2].is_leaf());
    assert_eq!(note(&nodes[1], 0, 0), CONTAINER);
}

#[test]
fn a_held_back_html_part_is_explained_before_it_is_called_downloaded() {
    let mut html = part("1", "text/html", 900);
    html.downloaded = true;
    let nodes = tree("multipart/alternative", &[html]);

    assert_eq!(
        note(&nodes[1], 6, 1),
        held_back_note("text/html", 6, 1).expect("a held-back sentence")
    );
    assert!(
        note(&nodes[1], 0, 0).contains("already downloaded"),
        "with nothing held back it is an ordinary downloaded part"
    );
}

#[test]
fn only_the_markup_part_is_ever_held_back() {
    assert!(held_back_note("image/png", 6, 1).is_none(), "theatre");
    assert!(
        held_back_note("TEXT/HTML", 6, 0).is_some(),
        "case is not it"
    );
    assert!(held_back_note("text/html", 0, 0).is_none());
    assert_eq!(
        held_back_note("text/html", 1, 1).as_deref(),
        Some(
            "HTML part held back — 1 remote image and 1 likely tracker would load. \
             The plain-text part is showing instead."
        )
    );
}

#[test]
fn only_images_and_pdfs_are_shown_rather_than_handed_over() {
    assert!(previewable("image/png"));
    assert!(previewable("IMAGE/JPEG"));
    assert!(previewable("application/pdf"));
    assert!(!previewable("text/html"));
    assert!(!previewable("application/octet-stream"));
}

#[test]
fn a_save_name_comes_from_the_sender_when_it_is_usable() {
    let nodes = tree("multipart/mixed", &message());
    assert_eq!(save_name(&nodes[3]), "0001-index.patch");
}

#[test]
fn a_save_name_cannot_steer_a_save_out_of_its_folder() {
    let name = save_name(&leaf("text/plain", Some("../../.bashrc")));

    assert!(!name.contains('/'), "{name}");
    assert!(!name.starts_with('.'), "{name}");
}

#[test]
fn a_part_the_sender_did_not_name_still_gets_one() {
    let nodes = tree("multipart/mixed", &[part("2.1", "image/png", 10)]);
    assert_eq!(save_name(&nodes[1]), "part-2.1.png");
}

#[test]
fn a_save_name_carries_no_control_characters() {
    for hostile in ["a\0b.txt", "a\nb.txt", "a\rb\tc.txt", "\u{7}bell.txt"] {
        let name = save_name(&leaf("text/plain", Some(hostile)));
        assert!(
            !name.chars().any(char::is_control),
            "{hostile:?} produced a name with a control character: {name:?}"
        );
        assert!(!name.is_empty(), "{hostile:?} produced an empty name");
    }
}

#[test]
fn a_save_name_launders_a_slash_out_of_an_undecoded_encoded_word() {
    let name = save_name(&leaf("text/plain", Some("=?utf-8Qa/b.txt")));
    assert!(!name.contains('/'), "{name}");
}

#[test]
fn a_name_that_is_nothing_but_punctuation_falls_back() {
    let name = save_name(&leaf("image/png", Some("  ...  ")));
    assert_eq!(name, "part-1.png");
}

#[test]
fn two_parts_claiming_one_name_do_not_become_one_file() {
    let nodes = tree(
        "multipart/mixed",
        &[
            named("1", "application/pdf", 10, "invoice.pdf"),
            named("2", "application/pdf", 10, "invoice.pdf"),
            named("3", "application/pdf", 10, "invoice.pdf"),
        ],
    );
    let names = save_names(&nodes[1..]);

    assert_eq!(names, ["invoice.pdf", "invoice-2.pdf", "invoice-3.pdf"]);
}

#[test]
fn a_message_with_no_collisions_keeps_every_name_untouched() {
    let nodes = tree("multipart/mixed", &message());
    let names = save_names(&nodes[1..]);

    assert_eq!(
        names,
        [
            "part-1.plain",
            "part-2.html",
            "0001-index.patch",
            "cold.png"
        ],
        "a suffix on a name that did not need one is noise in every \
         directory the user saves into"
    );
}

#[test]
fn a_collision_is_judged_without_case_because_the_filesystem_may_be() {
    let nodes = tree(
        "multipart/mixed",
        &[
            named("1", "application/pdf", 10, "Invoice.pdf"),
            named("2", "application/pdf", 10, "invoice.pdf"),
        ],
    );
    let names = save_names(&nodes[1..]);

    assert_eq!(
        names,
        ["Invoice.pdf", "invoice-2.pdf"],
        "on a case-insensitive filesystem these are one file, and \
         'save all' must write the same number of files everywhere"
    );
}

#[test]
fn the_suffix_goes_before_the_extension_so_the_file_still_opens() {
    assert_eq!(suffixed("invoice.pdf", 2), "invoice-2.pdf");
    assert_eq!(suffixed("archive.tar.gz", 3), "archive.tar-3.gz");
    assert_eq!(suffixed("README", 2), "README-2");
}

#[test]
fn a_partial_save_says_how_many_it_could_not_get() {
    assert_eq!(save_all_failure(0), None, "silence when nothing failed");
    assert_eq!(
        save_all_failure(1).as_deref(),
        Some("1 part could not be saved")
    );
    assert_eq!(
        save_all_failure(3).as_deref(),
        Some("3 parts could not be saved")
    );
}

#[test]
fn the_cursor_opens_on_the_first_part_rather_than_on_the_message() {
    assert_eq!(first_part(5), 1, "four parts and the message");
    assert_eq!(
        first_part(1),
        0,
        "a message with no parts has only the root to stand on"
    );
    assert_eq!(first_part(0), 0, "nothing drawn yet");
}

#[test]
fn walking_holds_at_both_ends_rather_than_wrapping() {
    assert_eq!(step(1, true, 3), 2);
    assert_eq!(step(2, true, 3), 2, "the bottom holds");
    assert_eq!(step(1, false, 3), 0);
    assert_eq!(step(0, false, 3), 0, "and so does the top");
}

#[test]
fn walking_an_empty_tree_moves_nowhere() {
    assert_eq!(step(0, true, 0), 0);
    assert_eq!(step(7, false, 0), 0);
    assert_eq!(
        step(7, true, 3),
        2,
        "a cursor left over from a longer tree is brought back in range"
    );
}

#[test]
fn a_last_part_with_parts_of_its_own_still_closes_its_branch() {
    let nodes = tree(
        "multipart/mixed",
        &[
            part("1", "text/plain", 10),
            part("2", "multipart/alternative", 0),
            part("2.1", "text/plain", 20),
            part("2.2", "text/html", 30),
        ],
    );
    let drawn: Vec<String> = nodes.iter().map(prefix).collect();
    assert_eq!(drawn, ["", "├ ", "└ ", "  ├ ", "  └ "]);
}

#[test]
fn a_part_id_is_read_as_numbers_are() {
    let nodes = tree(
        "multipart/mixed",
        &[
            part("+1.2", "text/plain", 1),
            part("1.", "text/plain", 1),
            part("4294967295", "text/plain", 1),
            part("4294967296", "text/plain", 1),
            part("", "text/plain", 1),
        ],
    );
    let ids: Vec<&str> = nodes[1..].iter().map(|node| node.part_id.as_str()).collect();
    assert_eq!(ids, ["+1.2", "4294967295"]);
}

#[test]
fn the_message_weighs_what_its_parts_weigh() {
    let nodes = tree("multipart/mixed", &message());
    assert_eq!(nodes[0].size, 2_100 + 6 * 1024 + 11 * 1024 + 1_100 * 1024);
}

#[test]
fn a_name_taken_by_a_numbered_one_moves_on_to_the_next() {
    let nodes = tree(
        "multipart/mixed",
        &[
            named("1", "text/plain", 1, "a.txt"),
            named("2", "text/plain", 1, "a-2.txt"),
            named("3", "text/plain", 1, "A.TXT"),
        ],
    );
    assert_eq!(save_names(&nodes[1..]), ["a.txt", "a-2.txt", "A-3.TXT"]);
}

#[test]
fn names_are_compared_without_case_beyond_ascii_too() {
    let nodes = tree(
        "multipart/mixed",
        &[
            named("1", "text/plain", 1, "É.txt"),
            named("2", "text/plain", 1, "é.txt"),
        ],
    );
    assert_eq!(save_names(&nodes[1..]), ["É.txt", "é-2.txt"]);
}

#[test]
fn a_hidden_name_takes_its_number_at_the_end() {
    assert_eq!(suffixed(".bashrc", 2), ".bashrc-2");
}

/// A source that holds one part.
struct OnePart;

impl BlobSource for OnePart {
    fn resolve(&self, content_id: &str) -> Option<(Vec<u8>, String)> {
        if content_id == "logo" {
            Some((vec![1, 2, 3], "image/png".to_owned()))
        } else {
            None
        }
    }
}

#[test]
fn a_source_of_one_message_ignores_the_scope() {
    assert_eq!(OnePart.resolve_in(Some("7"), "logo"), OnePart.resolve("logo"));
    assert_eq!(OnePart.resolve_in(None, "banner"), None);
}

#[test]
fn a_type_cannot_steer_a_save_out_of_its_folder_either() {
    let mut part = leaf("text/a\\b", None);
    part.part_id = "1".to_owned();
    assert_eq!(save_name(&part), "part-1.a-b");
    part.mime = "text/x\u{7}y\n".to_owned();
    assert_eq!(save_name(&part), "part-1.xy");
    part.mime = "text".to_owned();
    assert_eq!(save_name(&part), "part-1.bin");
}

#[test]
fn a_lookup_is_a_source() {
    let source = |id: &str| if id == "logo" { Some((vec![9], "image/gif".to_owned())) } else { None };
    assert_eq!(source.resolve("logo"), Some((vec![9], "image/gif".to_owned())));
    assert_eq!(source.resolve_in(Some("7"), "logo"), source.resolve("logo"));
    assert_eq!(source.resolve("banner"), None);
}

#[test]
fn many_parts_of_one_name_all_get_one_of_their_own() {
    let parts: Vec<Attachment> = (1..=120)
        .map(|n| named(&n.to_string(), "text/plain", 1, if n % 2 == 0 { "Note.txt" } else { "note.TXT" }))
        .collect();
    let nodes = tree("multipart/mixed", &parts);
    let mut folded: Vec<String> =
        save_names(&nodes[1..]).iter().map(|name| name.to_lowercase()).collect();
    folded.sort();
    folded.dedup();
    assert_eq!(folded.len(), 120);
}
