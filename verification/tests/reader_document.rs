use postio_ui::model::MessageBody;
use postio_ui::reader::document::{absent_html, body_html, body_source, contain_body};
use postio_ui::reader::document::{content_security_policy, document_for, embedded_font_faces, font_bytes};
use postio_ui::reader::document::{reader_ground, scroll_markers, sheet_for, suits_reader_view, wrap_document};
use postio_ui::reader::document::{Absent, BodySource, HeldBack, Passes, Reduced, RemoteImages, Rendered};
use postio_ui::reader::document::{Rendering, Sanitized, Sheet, Stylesheets, FONT_SCHEME, SENDERS_SHEET_CLASS};

const PALETTE: &str = ":root {\n  --r-ground: #fafafa;\n  --r-ink: #111111;\n  --r-accent: #0055aa;\n}\n\
@media (prefers-color-scheme: dark) {\n  :root {\n    --r-ground: #101010;\n    --r-ink: #eeeeee;\n    --r-accent: #66aaff;\n  }\n}\n";

const STYLES: Stylesheets<'static> = Stylesheets {
    palette: PALETTE,
    structure: "body { background: var(--r-ground); font-family: 'Barlow'; }\n",
};

fn body(text: Option<&str>, html: Option<&str>) -> MessageBody {
    MessageBody { text: text.map(str::to_owned), html: html.map(str::to_owned) }
}

/// What the passes made of a body: the plain part's markup, the HTML part's
/// and its reduction, and how much was held back.
fn passes(plain: &str, html: &str, reduced: Reduced, remote_blocked: u32) -> Passes {
    Passes {
        plain: plain.to_owned(),
        sanitized: Sanitized { html: html.to_owned(), remote_blocked, trackers: 0 },
        reduced,
        folded: html.to_owned(),
    }
}

/// A reduction that came to nothing.
fn unreduced() -> Reduced {
    Reduced { html: String::new(), links_kept: 0, links_dropped: 0 }
}

#[test]
fn only_the_original_of_something_reader_view_offered_gets_the_senders_sheet() {
    assert_eq!(sheet_for(Rendering::Original, true), Sheet::Senders);
    assert_eq!(sheet_for(Rendering::Original, false), Sheet::Theme);
    assert_eq!(sheet_for(Rendering::Reader, true), Sheet::Theme);
    assert_eq!(sheet_for(Rendering::Reader, false), Sheet::Theme);
}

#[test]
fn an_ordinary_document_carries_no_sheet_of_its_own() {
    let document = document_for("<p>hi</p>", RemoteImages::Blocked, Sheet::Theme, STYLES);
    assert!(
        !document.contains(SENDERS_SHEET_CLASS),
        "the theme document must not carry the sender's sheet: {document}"
    );
}

#[test]
fn the_senders_sheet_lights_the_body_box_and_leaves_the_chrome_alone() {
    let document = document_for("<p>hi</p>", RemoteImages::Blocked, Sheet::Senders, STYLES);
    assert!(
        document.contains(&format!(r#"<html class="{SENDERS_SHEET_CLASS}">"#)),
        "the root says which sheet it is: {document}"
    );
    assert!(
        document.contains(&format!(".{SENDERS_SHEET_CLASS} .postio-body {{")),
        "the override is scoped to the sender's box: {document}"
    );
    assert!(
        !document.contains(&format!(".{SENDERS_SHEET_CLASS} :root")),
        "nothing may repaint the root, or the chrome stops being chrome"
    );
}

#[test]
fn the_senders_sheet_is_the_generated_light_palette_and_not_a_second_copy() {
    let document = document_for("<p>hi</p>", RemoteImages::Blocked, Sheet::Senders, STYLES);
    let light = reader_ground(PALETTE, false);
    let dark = reader_ground(PALETTE, true);
    assert_ne!(light, dark, "the palette must actually differ by scheme");

    let sheet = document
        .split_once(&format!(".{SENDERS_SHEET_CLASS} .postio-body {{"))
        .expect("the sheet rule is in the document")
        .1
        .split_once('}')
        .expect("the sheet rule closes")
        .0;
    assert!(
        sheet.contains(&format!("--r-ground: {light}")),
        "the sheet paints the light ground: {sheet}"
    );
    assert!(
        !sheet.contains(&dark),
        "no dark value belongs on the sender's page: {sheet}"
    );
    assert!(
        sheet.contains("--r-accent:"),
        "the accent is what `a` resolves against: {sheet}"
    );
}



#[test]
fn a_rendered_body_sits_inside_its_own_container() {
    let document = wrap_document(
        &contain_body("<p>hi</p>"),
        RemoteImages::Blocked,
        Sheet::Theme, STYLES
    );
    assert!(
        document.contains(r#"<div class="postio-body"><p>hi</p></div>"#),
        "{document}"
    );
}

#[test]
fn the_csp_is_byte_for_byte_what_the_adr_promises() {
    assert_eq!(
        content_security_policy(RemoteImages::Blocked),
        "default-src 'none'; script-src 'none'; style-src 'unsafe-inline'; \
         img-src postio-cid: data:; font-src postio-font:; base-uri 'none'; \
         form-action 'none'; frame-src 'none'; connect-src 'none'"
    );
    assert_eq!(
        content_security_policy(RemoteImages::Allowed),
        "default-src 'none'; script-src 'none'; style-src 'unsafe-inline'; \
         img-src postio-cid: data: http: https:; font-src postio-font:; base-uri 'none'; \
         form-action 'none'; frame-src 'none'; connect-src 'none'"
    );
}

#[test]
fn the_wrapper_carries_the_policy_the_styles_and_the_content() {
    let document = wrap_document("<p>hello</p>", RemoteImages::Blocked, Sheet::Theme, STYLES);
    assert!(document.starts_with("<!DOCTYPE html>"));
    assert!(document.contains("Content-Security-Policy"));
    assert!(document.contains("img-src postio-cid: data:; font-src"));
    assert!(document.contains("<p>hello</p>"));
    assert!(
        document.contains("--r-"),
        "the generated reader palette is inlined"
    );
}

#[test]
fn the_ground_a_frontend_paints_is_the_one_the_document_paints() {
    for dark in [false, true] {
        let ground = reader_ground(PALETTE, dark);
        assert!(
            ground.starts_with('#'),
            "the ground should be a hex literal the frontend can parse: {ground}"
        );
        let palette = PALETTE;
        assert!(
            palette.contains(&format!("--r-ground: {ground};")),
            "reader_ground({dark}) returned {ground}, which the generated \
             palette does not define"
        );
    }
    assert_ne!(
        reader_ground(PALETTE, false),
        reader_ground(PALETTE, true),
        "the two schemes should not share a ground"
    );
}

#[test]
fn every_vendored_face_is_referenced_and_resolvable() {
    let faces = embedded_font_faces();
    for family in ["Barlow", "Barlow Condensed", "IBM Plex Mono"] {
        assert!(
            faces.contains(&format!("font-family:'{family}'")),
            "{family}"
        );
    }
    assert_eq!(
        faces.matches(&format!("src:url({FONT_SCHEME}:")).count(),
        8,
        "eight faces, each referenced"
    );

    let vendored = vec![vec![0x00, 0x01, 0x00, 0x00, 0x0a]; 8];
    assert_eq!(postio_ui::reader::document::faces().len(), 8, "eight vendored faces");
    for face in postio_ui::reader::document::faces() {
        assert!(
            faces.contains(&format!("src:url({FONT_SCHEME}:{})", face.name)),
            "{} is served but never referenced",
            face.name
        );
        let bytes = font_bytes(face.name, &vendored).expect("a referenced face resolves");
        assert!(
            bytes.starts_with(&[0x00, 0x01, 0x00, 0x00]) || bytes.starts_with(b"true"),
            "{} does not begin with a TrueType signature",
            face.name
        );
    }

    for name in [
        "",
        "Barlow-Regular",
        "../fonts/barlow/Barlow-Regular.ttf",
        "/etc/passwd",
    ] {
        assert!(font_bytes(name, &vendored).is_none(), "{name} resolved to something");
    }
}

#[test]
fn the_document_is_proportional_to_the_message_not_to_the_font_catalogue() {
    let document = document_for("<p>hi</p>", RemoteImages::Blocked, Sheet::Theme, STYLES);
    assert!(
        !document.contains("data:font/"),
        "the faces are still travelling with the document"
    );
    assert!(
        document.len() < 64 * 1024,
        "a one-line message renders a {} byte document",
        document.len()
    );
    assert!(document.contains(&format!("src:url({FONT_SCHEME}:")));
    assert!(document.contains("--r-"), "the palette is still inlined");
}

#[test]
fn the_absent_states_do_not_say_the_same_thing() {
    let states = [
        Absent::Partial,
        Absent::Offline,
        Absent::Missing,
        Absent::Empty,
        Absent::ForeignDraft,
    ];
    let texts: Vec<String> = states.iter().map(|state| absent_html(*state)).collect();
    for (index, text) in texts.iter().enumerate() {
        for other in texts.iter().skip(index + 1) {
            assert_ne!(text, other);
        }
    }
    assert!(absent_html(Absent::Offline).contains("<kbd>R</kbd>"));
    assert!(absent_html(Absent::Missing).contains("<kbd>R</kbd>"));
    assert!(!absent_html(Absent::ForeignDraft).contains("<kbd>R</kbd>"));
    assert!(!absent_html(Absent::Partial).contains("<kbd>R</kbd>"));
    assert!(!absent_html(Absent::Empty).contains("<kbd>R</kbd>"));
}

#[test]
fn the_markers_are_evenly_spaced_anchors() {
    let markers = scroll_markers();
    assert_eq!(markers.matches("<a id=\"pos-").count(), 60);
    assert!(markers.contains("top:0vh"));
    assert!(markers.contains("top:90vh"));
    assert!(markers.contains(&format!("top:{}vh", 59 * 90)));
}

#[test]
fn the_notice_counts_pictures_and_beacons_separately() {
    assert_eq!(
        HeldBack {
            remote_images: 14,
            trackers: 1
        }
        .summary(),
        "14 remote images and 1 tracker blocked",
        "the canvas's own wording"
    );
    assert_eq!(
        HeldBack {
            remote_images: 3,
            trackers: 0
        }
        .summary(),
        "3 remote images blocked"
    );
    assert_eq!(
        HeldBack {
            remote_images: 0,
            trackers: 2
        }
        .summary(),
        "2 trackers blocked",
        "a beacon is still named a beacon when it is the only thing there"
    );
}

#[test]
fn one_of_each_is_singular() {
    assert_eq!(
        HeldBack {
            remote_images: 1,
            trackers: 1
        }
        .summary(),
        "1 remote image and 1 tracker blocked"
    );
}

#[test]
fn nothing_held_back_says_nothing() {
    assert_eq!(HeldBack::default().summary(), "");
}

/// A body drawn the ordinary way.
fn drawn(body: &MessageBody, passes: &Passes) -> Rendered {
    body_html(body, Rendering::Original, passes)
}

/// A campaign: nested layout tables, and more links than a person writes.
const CAMPAIGN: &str = "<table><tr><td><p><a href=\"https://example.com/track\">Track delivery</a></p></td></tr></table>";

/// The campaign, reduced: one of its thirteen links is worth following.
fn reduced_campaign() -> Reduced {
    Reduced {
        html: "<p><a href=\"https://example.com/track\">Track delivery</a></p>".to_owned(),
        links_kept: 1,
        links_dropped: 12,
    }
}

#[test]
fn an_empty_body_produces_empty_content() {
    let rendered = drawn(&body(None, None), &passes("", "", unreduced(), 0));
    assert_eq!(rendered.html, "");
    assert_eq!(rendered.held_back, HeldBack::default());
}

#[test]
fn html_is_preferred_over_text_when_both_are_present() {
    let both = body(Some("plain fallback"), Some("<p>rich</p>"));
    let passes = passes("<p>plain fallback</p>", "<p>rich</p>", unreduced(), 0);
    assert_eq!(drawn(&both, &passes).html, "<p>rich</p>");
}

#[test]
fn text_only_bodies_still_render() {
    let passes = passes("<p>hello</p>", "", unreduced(), 0);
    assert!(drawn(&body(Some("hello"), None), &passes).html.contains("hello"));
}

#[test]
fn a_remote_image_in_the_body_is_reported_as_blocked() {
    let message = body(None, Some(r#"<img src="https://tracker.example.org/o.gif">"#));
    assert_eq!(
        drawn(&message, &passes("", "<img>", unreduced(), 1)).held_back,
        HeldBack {
            remote_images: 1,
            trackers: 0
        }
    );
}

#[test]
fn reader_view_prefers_the_senders_own_plain_part() {
    let message = body(Some("Your package is out for delivery."), Some(CAMPAIGN));
    let passes = passes(
        "<p>Your package is out for delivery.</p>",
        CAMPAIGN,
        reduced_campaign(),
        2,
    );
    let rendered = body_html(&message, Rendering::Reader, &passes);
    assert!(
        rendered.html.contains("Your package is out for delivery."),
        "{}",
        rendered.html
    );
    assert!(
        !rendered.html.contains("<table"),
        "the HTML part was drawn instead of the plain one: {}",
        rendered.html
    );
    assert_eq!(
        rendered.links_total(),
        0,
        "there is nothing to count in a plain part"
    );
}

#[test]
fn reader_view_reduces_html_only_bulk_mail() {
    let message = body(None, Some(CAMPAIGN));
    let passes = passes("", CAMPAIGN, reduced_campaign(), 0);
    let rendered = body_html(&message, Rendering::Reader, &passes);
    assert_eq!(rendered.rendering, Rendering::Reader);
    assert!(!rendered.html.contains("<table"), "{}", rendered.html);
    assert_eq!(rendered.links_kept, 1);
    assert_eq!(rendered.links_total(), 13, "1 link kept of 13");
}

#[test]
fn the_original_rendering_never_reaches_for_the_plain_part() {
    let message = body(Some("plain fallback"), Some(CAMPAIGN));
    let rendered = drawn(&message, &passes("<p>plain fallback</p>", CAMPAIGN, reduced_campaign(), 0));
    assert_eq!(rendered.rendering, Rendering::Original);
    assert!(
        !rendered.html.contains("plain fallback"),
        "the original is the sender's markup, whatever else came with it"
    );
}

#[test]
fn only_bulk_mail_is_offered_reader_view() {
    let reply = body(None, Some("<p>Hi Ada,</p><p>Friday works.</p>"));
    assert!(!suits_reader_view(&reply, false));
    assert!(suits_reader_view(&body(None, Some(CAMPAIGN)), true));
    assert!(!suits_reader_view(&body(Some("hello"), None), true));
    assert!(!suits_reader_view(&body(Some("hello"), Some(" \n ")), true));
}

#[test]
fn a_blocked_image_is_still_reported_when_the_markup_is_reduced() {
    let message = body(None, Some(CAMPAIGN));
    let passes = passes("", CAMPAIGN, reduced_campaign(), 1);
    let rendered = body_html(&message, Rendering::Reader, &passes);
    assert_eq!(rendered.held_back.total(), 1);
}

#[test]
fn what_is_drawn_follows_from_what_arrived() {
    let nothing = body(Some("  "), None);
    assert_eq!(body_source(&nothing, Rendering::Reader), BodySource::Nothing);
    assert_eq!(body_source(&nothing, Rendering::Original), BodySource::Nothing);
    let html = body(None, Some(CAMPAIGN));
    assert_eq!(body_source(&html, Rendering::Reader), BodySource::Reduced);
    assert_eq!(body_source(&html, Rendering::Original), BodySource::Folded);
    let text = body(Some("hello"), None);
    assert_eq!(body_source(&text, Rendering::Reader), BodySource::Plain);
    assert_eq!(body_source(&text, Rendering::Original), BodySource::Plain);
}
