use postio_ui::editor::document::{editor_css, editor_ground, fold_quotes, wrap_document};
use postio_ui::editor::document::{EditorStylesheets, Presentation, EDITOR_CSP, QUOTE_CLASS};
use postio_ui::reader::document::reader_ground;

const PALETTE: &str = ":root {\n  --r-ground: #fafafa;\n  --r-ink: #111111;\n}\n\
@media (prefers-color-scheme: dark) {\n  :root {\n    --r-ground: #101010;\n    --r-ink: #eeeeee;\n  }\n}\n";

const STRUCTURE: &str = "body { font-family: 'Barlow'; background: var(--r-ground); }\n";

fn styles() -> EditorStylesheets<'static> {
    EditorStylesheets { palette: PALETTE, structure: STRUCTURE }
}

#[test]
fn the_document_carries_a_stylesheet_and_the_editing_surface() {
    let document = wrap_document("<p>Morning.</p>", Presentation::default(), styles());

    assert!(document.contains("<style>"), "no stylesheet at all");
    assert!(
        document.contains("Barlow"),
        "the sheet does not name the application's typeface"
    );
    assert!(
        document.contains("--r-ground"),
        "the sheet does not use the reader's palette, so it can drift \
         from the message body it sits beside"
    );
    assert!(
        document.contains("contenteditable=\"true\""),
        "the surface stopped being editable"
    );
    assert!(document.contains("Morning."), "the content was dropped");
}

#[test]
fn the_ground_resolves_in_both_schemes_and_they_differ() {
    let light = editor_ground(PALETTE, false);
    let dark = editor_ground(PALETTE, true);
    assert!(light.starts_with('#'), "not a colour: {light:?}");
    assert!(dark.starts_with('#'), "not a colour: {dark:?}");
    assert_ne!(light, dark, "one ground for both schemes is one too few");
}

#[test]
fn the_editor_ground_is_the_readers_ground() {
    for dark in [false, true] {
        assert_eq!(
            editor_ground(PALETTE, dark),
            reader_ground(PALETTE, dark),
            "the composer and the reader disagree about the page colour"
        );
    }
}

#[test]
fn a_scheme_change_produces_a_different_sheet_from_the_same_input() {
    let light = editor_css(Presentation::default(), styles());
    let dark = editor_css(Presentation {
        dark: true,
        ..Presentation::default()
    }, styles());
    assert_ne!(light, dark, "the scheme made no difference to the sheet");
    assert!(
        dark.matches("--r-ground").count() > light.matches("--r-ground").count(),
        "the dark sheet does not restate the palette, so it depends on \
         the engine agreeing about the scheme rather than on our choice"
    );
}

#[test]
fn text_size_and_density_reach_the_sheet() {
    let css = editor_css(Presentation {
        text_size: 19,
        padding: 4,
        ..Presentation::default()
    }, styles());
    assert!(css.contains("--e-text-size: 19px"), "{css}");
    assert!(css.contains("--e-pad: 4px"), "{css}");
}

#[test]
fn a_reply_quote_is_folded_in_the_readers_own_vocabulary() {
    let folded = fold_quotes(
        "<p>Acknowledged.</p><blockquote data-postio-quoted=\"1\">\
         <p>Do not reset.</p></blockquote>",
    );

    assert!(
        folded.contains(&format!("<details class=\"{QUOTE_CLASS}\"")),
        "the quote is not foldable: {folded}"
    );
    assert!(
        !folded.contains("<details class=\"postio-quote\" open"),
        "a reply must open with the quote closed, or the caret starts \
         below a screenful of someone else's mail: {folded}"
    );
    assert!(
        folded.contains("<summary"),
        "nothing says what the fold contains: {folded}"
    );
    assert!(
        folded.contains("<blockquote data-postio-quoted"),
        "the quote itself must survive inside the fold -- what is sent is \
         the blockquote, and `<details>` must never reach the wire: {folded}"
    );
}

#[test]
fn a_quote_the_user_made_is_not_folded() {
    let plain = "<p>Hi</p><blockquote><p>as I said</p></blockquote>";
    assert_eq!(fold_quotes(plain), plain);
}

#[test]
fn folding_leaves_everything_around_the_quote_alone() {
    let folded = fold_quotes(
        "<p>One</p><blockquote data-postio-quoted=\"1\"><p>Q</p></blockquote><p>Two</p>",
    );
    assert!(folded.starts_with("<p>One</p><details"), "{folded}");
    assert!(folded.ends_with("</details><p>Two</p>"), "{folded}");
}

#[test]
fn a_quote_that_is_never_closed_is_left_as_it_is() {
    let open = "<p>One</p><blockquote data-postio-quoted=\"1\"><p>Q</p>";
    assert_eq!(fold_quotes(open), open);
    let mixed = "<blockquote data-postio-quoted>a</blockquote>b<blockquote data-postio-quoted>c";
    assert_eq!(
        fold_quotes(mixed),
        "<details class=\"postio-quote\"><summary contenteditable=\"false\">Quoted message</summary>\
         <blockquote data-postio-quoted>a</blockquote></details>b<blockquote data-postio-quoted>c"
    );
}

#[test]
fn the_dark_sheet_ends_with_the_dark_declarations() {
    let css = editor_css(Presentation { dark: true, ..Presentation::default() }, styles());
    assert!(css.ends_with("\n:root {\n    --r-ground: #101010;\n    --r-ink: #eeeeee;\n  }\n"), "{css}");
    assert!(css.contains("\n:root {\n  --e-text-size: 15px;\n  --e-pad: 12px;\n}\n"));
}

#[test]
fn the_editing_shell_carries_its_own_policy() {
    let document = wrap_document("", Presentation::default(), styles());
    assert!(document.contains(&format!("content=\"{EDITOR_CSP}\"")));
    assert!(document.ends_with("<body contenteditable=\"true\"></body></html>"));
}
