use postio_ui::paste::{classify, decode_escapes, named_paths, percent_decode, words, PasteItem, PathState};

fn paths(pasted: &str) -> Vec<String> {
    named_paths(pasted, Some("/home/ada"))
        .expect("a paste of paths")
        .into_iter()
        .map(|named| named.path)
        .collect()
}

fn all_files(pasted: &str) -> Vec<PasteItem> {
    let states = vec![PathState::File; paths(pasted).len()];
    classify(pasted, Some("/home/ada"), &states)
}

fn text(pasted: &str) -> Vec<PasteItem> {
    vec![PasteItem::Text(pasted.to_owned())]
}

#[test]
fn a_dropped_file_is_attached() {
    assert_eq!(
        all_files("/tmp/report.pdf"),
        vec![PasteItem::File("/tmp/report.pdf".to_owned())]
    );
}

#[test]
fn quoted_escaped_and_uri_forms_all_name_files() {
    let pasted = "'/tmp/My Report.pdf' /tmp/b\\ c.png\nfile:///tmp/d%20e.txt";
    assert_eq!(
        all_files(pasted),
        vec![
            PasteItem::File("/tmp/My Report.pdf".to_owned()),
            PasteItem::File("/tmp/b c.png".to_owned()),
            PasteItem::File("/tmp/d e.txt".to_owned()),
        ]
    );
}

#[test]
fn a_sentence_that_mentions_a_path_is_text() {
    let pasted = "the notes are in /tmp/notes.txt if you need them";
    assert_eq!(named_paths(pasted, Some("/home/ada")), None);
    assert_eq!(classify(pasted, Some("/home/ada"), &[]), text(pasted));
}

#[test]
fn a_folder_is_named_and_not_attached() {
    let items = classify("/tmp", None, &[PathState::Folder]);
    assert_eq!(
        items,
        vec![PasteItem::Unreadable {
            path: "/tmp".to_owned(),
            reason: "/tmp is a folder; attach the files in it instead".to_owned(),
        }]
    );
}

#[test]
fn a_file_uri_to_nothing_is_named() {
    let missing = PathState::Missing("No such file or directory (os error 2)".to_owned());
    let items = classify("file:///nowhere/at/all.pdf", None, &[missing]);
    assert_eq!(
        items,
        vec![PasteItem::Unreadable {
            path: "/nowhere/at/all.pdf".to_owned(),
            reason: "/nowhere/at/all.pdf is not there: No such file or directory (os error 2)".to_owned(),
        }]
    );
}

#[test]
fn a_bare_path_to_nothing_is_just_text() {
    let pasted = "/usr/local/thing-that-is-not-here";
    let missing = PathState::Missing("No such file or directory (os error 2)".to_owned());
    assert_eq!(classify(pasted, None, &[missing]), text(pasted));
}

#[test]
fn plain_words_are_text() {
    assert_eq!(classify("Hello there", None, &[]), text("Hello there"));
}

#[test]
fn a_file_that_does_not_open_says_why() {
    let items = classify("/tmp/secret", None, &[PathState::Unopenable("Permission denied".to_owned())]);
    assert_eq!(
        items,
        vec![PasteItem::Unreadable {
            path: "/tmp/secret".to_owned(),
            reason: "/tmp/secret cannot be read: Permission denied".to_owned(),
        }]
    );
    let items = classify("/dev/null", None, &[PathState::Other]);
    assert_eq!(
        items,
        vec![PasteItem::Unreadable {
            path: "/dev/null".to_owned(),
            reason: "/dev/null is not a file".to_owned(),
        }]
    );
}

#[test]
fn home_is_where_the_tilde_points() {
    assert_eq!(paths("~/notes.txt"), ["/home/ada/notes.txt"]);
    assert_eq!(named_paths("~/notes.txt", None), None, "nowhere to go back to");
}

#[test]
fn words_follow_a_shells_quoting() {
    assert_eq!(words("a 'b c' \"d e\" f\\ g"), Some(vec![
        "a".to_owned(),
        "b c".to_owned(),
        "d e".to_owned(),
        "f g".to_owned(),
    ]));
    assert_eq!(words("don't"), None, "a quote that never closes is prose");
}

#[test]
fn escapes_decode_to_the_bytes_they_name() {
    assert_eq!(decode_escapes(b"a%20b"), b"a b");
    assert_eq!(decode_escapes(b"%zz%4"), b"%zz%4", "not an escape, so left alone");
    assert_eq!(percent_decode("caf%C3%A9"), "café");
    assert_eq!(percent_decode("%FF"), "\u{fffd}", "not text, and it says so");
}
