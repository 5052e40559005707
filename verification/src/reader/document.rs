//! Assembling the document a message renders as -- **the** document, one
//! implementation for every frontend.
//!
//! The highest risk in a second frontend is that the privacy invariants
//! silently fork: two readers, two content security policies, two link
//! policies. Frontends do not *agree* on the policy, they **call the same
//! function**. What stays behind in each is how to hand the string to a web
//! view, nothing about what the string says.
use vstd::prelude::*;
use crate::model::MessageBody;
use crate::reader::thread::{escape, escaped};
use crate::text::{decimal, decimal_of, is_blank, parted, same_text, split_once, text_opt, trim};
use crate::text::{has_prefix, has_text, lemma_parted, lemma_within, lemma_within_a_part, occurs_at};
use crate::text::{trim_end, trimmed, trimmed_end};

verus! {

/// The security origin every rendered message loads under.
///
/// A fixed, non-`http(s)` scheme so a message's content is never same-origin
/// with any real site. Nothing is ever registered to handle it, so a relative
/// reference a sender left in place resolves to a fetch that fails closed.
pub const DOCUMENT_BASE_URI: &'static str = "postio-reader:///";

/// The scheme a message's own inline parts are fetched over.
pub const CID_SCHEME: &'static str = "postio-cid";

/// The scheme the reader's web view fetches its typefaces over: answered from
/// compiled-in bytes, never from a path and never from the network.
pub const FONT_SCHEME: &'static str = "postio-font";

/// The MIME type every served face carries.
pub const FONT_MIME: &'static str = "font/ttf";

/// The class [`Sheet::Senders`] puts on the document root.
pub const SENDERS_SHEET_CLASS: &'static str = "postio-senders-sheet";

/// Whether remote images may load.
#[derive(Clone, Copy, Debug, PartialEq, Eq, Structural)]
pub enum RemoteImages {
    /// They are held back.
    Blocked,
    /// The user has allowed them.
    Allowed,
}

/// The stylesheets a document is dressed in, as the application compiles them
/// in.
#[derive(Clone, Copy, Debug, PartialEq, Eq)]
pub struct Stylesheets<'a> {
    /// The generated token palette, light scheme first.
    pub palette: &'a str,
    /// The structural rules.
    pub structure: &'a str,
}

// ---------------------------------------------------------------------------
// Nothing to draw
// ---------------------------------------------------------------------------

/// Why the reading pane has no body to draw.
///
/// They are separate because the right response differs -- three are worth
/// waiting for and one is finished, and only two are worth retrying.
#[derive(Clone, Copy, PartialEq, Eq, Debug, Structural)]
pub enum Absent {
    /// Headers are synced and the backfill has not reached the body yet.
    Partial,
    /// Not downloaded, and nothing is downloading -- the engine is offline.
    Offline,
    /// A body was recorded but its bytes are not in the blob store.
    Missing,
    /// Downloaded, and the message genuinely has no text or HTML part.
    Empty,
    /// A draft written by another client: there is nothing here to resume
    /// editing.
    ForeignDraft,
}

/// The heading of the plate.
pub open spec fn absent_heading(state: Absent) -> Seq<char> {
    match state {
        Absent::Partial => "Downloading this message"@,
        Absent::Offline => "Not downloaded yet"@,
        Absent::Missing => "This message's body is missing"@,
        Absent::Empty => "This message has no body"@,
        Absent::ForeignDraft => "Written on another device"@,
    }
}

/// The words under it.
pub open spec fn absent_detail(state: Absent) -> Seq<char> {
    match state {
        Absent::Partial =>
            "Its headers are here; the body has not arrived yet. It will appear as soon as it does."@,
        Absent::Offline =>
            "Postio is offline, so this message's body is not on this machine. It will arrive when the connection returns. "@
            + RETRY@,
        Absent::Missing =>
            "The message is in the local store but its body is not, so there is nothing here to show. "@
            + RETRY@,
        Absent::Empty =>
            "Nothing arrived with it but the headers — that is the whole message, not a fault."@,
        Absent::ForeignDraft =>
            "This draft was started in another mail client. Postio can show it here but cannot edit it."@,
    }
}

/// One retry key for the whole application, not one per surface.
pub const RETRY: &'static str = "Press <kbd>R</kbd> to check for new mail now.";

/// The whole plate.
pub open spec fn absent_markup(state: Absent) -> Seq<char> {
    "<div class=\"postio-absent\"><p class=\"postio-absent-heading\">"@ + absent_heading(state)
        + "</p><p class=\"postio-absent-detail\">"@ + absent_detail(state) + "</p></div>"@
}

/// What the pane says for each [`Absent`], as the document's body.
pub fn absent_html(state: Absent) -> (out: String)
    ensures
        out@ == absent_markup(state),
{
    let heading = match state {
        Absent::Partial => "Downloading this message",
        Absent::Offline => "Not downloaded yet",
        Absent::Missing => "This message's body is missing",
        Absent::Empty => "This message has no body",
        Absent::ForeignDraft => "Written on another device",
    };
    let mut detail = match state {
        Absent::Partial =>
            "Its headers are here; the body has not arrived yet. It will appear as soon as it does.",
        Absent::Offline =>
            "Postio is offline, so this message's body is not on this machine. It will arrive when the connection returns. ",
        Absent::Missing =>
            "The message is in the local store but its body is not, so there is nothing here to show. ",
        Absent::Empty =>
            "Nothing arrived with it but the headers — that is the whole message, not a fault.",
        Absent::ForeignDraft =>
            "This draft was started in another mail client. Postio can show it here but cannot edit it.",
    }.to_owned();
    match state {
        Absent::Offline | Absent::Missing => detail.append(RETRY),
        _ => {},
    }
    let mut out = "<div class=\"postio-absent\"><p class=\"postio-absent-heading\">".to_owned();
    out.append(heading);
    out.append("</p><p class=\"postio-absent-detail\">");
    out.append(detail.as_str());
    out.append("</p></div>");
    out
}

// ---------------------------------------------------------------------------
// Scroll markers
// ---------------------------------------------------------------------------

/// How many invisible scroll markers [`scroll_markers`] lays down: it bounds
/// how far `page_down` can walk a message, not how long a message can be.
pub const SCROLL_MARKERS: u32 = 60;

/// How far apart the markers sit, in viewport heights. Short of 100 so
/// consecutive pages keep a sliver of what was on screen.
pub const SCROLL_MARKER_STEP_VH: u32 = 90;

/// The marker at `position`.
pub open spec fn marker(position: nat) -> Seq<char> {
    "<a id=\"pos-"@ + decimal(position) + "\" style=\"position:absolute;top:"@ + decimal(
        position * SCROLL_MARKER_STEP_VH as nat,
    ) + "vh;left:0;width:0;height:0;\"></a>"@
}

/// The first `n` markers.
pub open spec fn markers(n: nat) -> Seq<char>
    decreases n,
{
    if n == 0 {
        Seq::empty()
    } else {
        markers((n - 1) as nat) + marker((n - 1) as nat)
    }
}

/// Invisible anchors spaced down the document, `#pos-0`, `#pos-1`, ... -- the
/// frontends' `page_down`/`page_up` jump between them.
///
/// With script off a same-document fragment navigation is the one scroll
/// primitive a hardened web view leaves open. Placed at `top: Nvh`, not a
/// pixel offset, so the markers land a consistent fraction of a screen apart
/// on any window size.
pub fn scroll_markers() -> (out: String)
    ensures
        out@ == markers(SCROLL_MARKERS as nat),
{
    let mut out = String::new();
    let mut position: u32 = 0;
    assert(out@ =~= markers(0));
    while position < SCROLL_MARKERS
        invariant
            position <= SCROLL_MARKERS,
            out@ == markers(position as nat),
        decreases SCROLL_MARKERS - position,
    {
        let ghost done = out@;
        let top: u32 = position * SCROLL_MARKER_STEP_VH;
        out.append("<a id=\"pos-");
        out.append(decimal_of(position as u64).as_str());
        out.append("\" style=\"position:absolute;top:");
        out.append(decimal_of(top as u64).as_str());
        out.append("vh;left:0;width:0;height:0;\"></a>");
        assert(out@ =~= done + marker(position as nat));
        position += 1;
    }
    out
}

// ---------------------------------------------------------------------------
// The policy
// ---------------------------------------------------------------------------

/// Where images may come from.
pub open spec fn image_sources(remote: RemoteImages) -> Seq<char> {
    match remote {
        RemoteImages::Blocked => CID_SCHEME@ + ": data:"@,
        RemoteImages::Allowed => CID_SCHEME@ + ": data: http: https:"@,
    }
}

/// The policy a document carries.
pub open spec fn policy(remote: RemoteImages) -> Seq<char> {
    "default-src 'none'; script-src 'none'; style-src 'unsafe-inline'; img-src "@ + image_sources(
        remote,
    ) + "; font-src "@ + FONT_SCHEME@
        + ":; base-uri 'none'; form-action 'none'; frame-src 'none'; connect-src 'none'"@
}

/// What the sanitizer already enforces at the DOM level, restated as policy
/// the rendering engine itself refuses to violate -- so a sanitizer bug
/// degrades to broken markup, not a live request.
pub fn content_security_policy(remote: RemoteImages) -> (out: String)
    ensures
        out@ == policy(remote),
{
    let mut sources = CID_SCHEME.to_owned();
    match remote {
        RemoteImages::Blocked => sources.append(": data:"),
        RemoteImages::Allowed => sources.append(": data: http: https:"),
    }
    let mut out =
        "default-src 'none'; script-src 'none'; style-src 'unsafe-inline'; img-src ".to_owned();
    out.append(sources.as_str());
    out.append("; font-src ");
    out.append(FONT_SCHEME);
    out.append(":; base-uri 'none'; form-action 'none'; frame-src 'none'; connect-src 'none'");
    out
}

// ---------------------------------------------------------------------------
// The palette
// ---------------------------------------------------------------------------

/// What separates the light scheme from the dark one in the palette.
pub const DARK_BLOCK: &'static str = "@media (prefers-color-scheme: dark)";

/// The half of the palette for one scheme; nothing when it has no dark block.
pub open spec fn scheme(palette: Seq<char>, dark: bool) -> Option<Seq<char>> {
    match parted(palette, DARK_BLOCK@) {
        Some(halves) => Some(
            if dark {
                halves.1
            } else {
                halves.0
            },
        ),
        None => None,
    }
}

/// What stands between the first `from` in `s` and the first `to` after it.
pub open spec fn between(s: Seq<char>, from: Seq<char>, to: Seq<char>) -> Option<Seq<char>> {
    match parted(s, from) {
        Some(two) => match parted(two.1, to) {
            Some(rest) => Some(rest.0),
            None => None,
        },
        None => None,
    }
}

/// What stands between the first `from` in `s` and the first `to` after it.
fn text_between(s: &str, from: &str, to: &str) -> (out: Option<String>)
    ensures
        text_opt(out) == between(s@, from@, to@),
{
    match split_once(s, from) {
        Some(two) => match split_once(two.1.as_str(), to) {
            Some(rest) => Some(rest.0),
            None => None,
        },
        None => None,
    }
}

/// The ground colour the palette defines for one scheme.
pub open spec fn ground_of(palette: Seq<char>, dark: bool) -> Option<Seq<char>> {
    match scheme(palette, dark) {
        Some(half) => match between(half, "--r-ground:"@, ";"@) {
            Some(value) => Some(trimmed(value)),
            None => None,
        },
        None => None,
    }
}

/// The light half of the palette, as declarations.
pub open spec fn light_declarations(palette: Seq<char>) -> Option<Seq<char>> {
    match scheme(palette, false) {
        Some(half) => match between(half, ":root {"@, "}"@) {
            Some(declarations) => Some(trimmed_end(declarations)),
            None => None,
        },
        None => None,
    }
}

/// The reader's ground colour for the given scheme, as the palette spells it.
///
/// A frontend needs this outside the document as well as inside it: a web
/// view between one document and the next has no document to take a colour
/// from. Read out of the same CSS the document inlines, rather than restated:
/// a colour has one source.
pub fn reader_ground(palette: &str, dark: bool) -> (out: String)
    requires
        ground_of(palette@, dark) is Some,
    ensures
        ground_of(palette@, dark) == Some(out@),
{
    match split_once(palette, DARK_BLOCK) {
        Some(halves) => {
            let half = if dark {
                halves.1
            } else {
                halves.0
            };
            match text_between(half.as_str(), "--r-ground:", ";") {
                Some(value) => trim(value.as_str()),
                None => String::new(),
            }
        },
        None => String::new(),
    }
}

/// The light half of the palette, as declarations: the values a sender's page
/// should be drawn with.
fn light_tokens(palette: &str) -> (out: String)
    requires
        light_declarations(palette@) is Some,
    ensures
        light_declarations(palette@) == Some(out@),
{
    match split_once(palette, DARK_BLOCK) {
        Some(halves) => match text_between(halves.0.as_str(), ":root {", "}") {
            Some(declarations) => trim_end(declarations.as_str()),
            None => String::new(),
        },
        None => String::new(),
    }
}

// ---------------------------------------------------------------------------
// The faces
// ---------------------------------------------------------------------------

/// One vendored typeface, as the reader refers to it.
#[derive(Clone, Copy, Debug, PartialEq, Eq)]
pub struct Face {
    /// The name a `postio-font:` URL carries, and the only thing a request
    /// may name -- see [`font_bytes`].
    pub name: &'static str,
    /// The CSS family this face belongs to.
    pub family: &'static str,
    /// Its weight, as `font-weight`.
    pub weight: u16,
    /// `normal` or `italic`.
    pub style: &'static str,
}

/// A face as text: its name, family, weight and style.
pub struct FaceView {
    /// Its name.
    pub name: Seq<char>,
    /// Its family.
    pub family: Seq<char>,
    /// Its weight.
    pub weight: nat,
    /// Its style.
    pub style: Seq<char>,
}

impl View for Face {
    type V = FaceView;

    open spec fn view(&self) -> FaceView {
        FaceView {
            name: self.name@,
            family: self.family@,
            weight: self.weight as nat,
            style: self.style@,
        }
    }
}

/// A face of the table.
pub open spec fn face(name: Seq<char>, family: Seq<char>, weight: nat, style: Seq<char>) -> FaceView {
    FaceView { name, family, weight, style }
}

/// Every face the reader may draw with.
pub open spec fn face_table() -> Seq<FaceView> {
    seq![
        face("Barlow-Regular.ttf"@, "Barlow"@, 400, "normal"@),
        face("Barlow-Medium.ttf"@, "Barlow"@, 500, "normal"@),
        face("Barlow-Bold.ttf"@, "Barlow"@, 700, "normal"@),
        face("Barlow-Italic.ttf"@, "Barlow"@, 400, "italic"@),
        face("BarlowCondensed-Regular.ttf"@, "Barlow Condensed"@, 400, "normal"@),
        face("BarlowCondensed-SemiBold.ttf"@, "Barlow Condensed"@, 600, "normal"@),
        face("IBMPlexMono-Regular.ttf"@, "IBM Plex Mono"@, 400, "normal"@),
        face("IBMPlexMono-Medium.ttf"@, "IBM Plex Mono"@, 500, "normal"@),
    ]
}

/// Every face the reader may draw with -- the fixed table both the
/// `@font-face` rules and the scheme handler are generated from. Nothing here
/// is a path, so there is no traversal to get wrong.
pub fn faces() -> (out: Vec<Face>)
    ensures
        out@.len() == face_table().len(),
        forall|i: int| 0 <= i < out@.len() ==> (#[trigger] out@[i])@ == face_table()[i],
{
    vec![
        Face { name: "Barlow-Regular.ttf", family: "Barlow", weight: 400, style: "normal" },
        Face { name: "Barlow-Medium.ttf", family: "Barlow", weight: 500, style: "normal" },
        Face { name: "Barlow-Bold.ttf", family: "Barlow", weight: 700, style: "normal" },
        Face { name: "Barlow-Italic.ttf", family: "Barlow", weight: 400, style: "italic" },
        Face {
            name: "BarlowCondensed-Regular.ttf",
            family: "Barlow Condensed",
            weight: 400,
            style: "normal",
        },
        Face {
            name: "BarlowCondensed-SemiBold.ttf",
            family: "Barlow Condensed",
            weight: 600,
            style: "normal",
        },
        Face {
            name: "IBMPlexMono-Regular.ttf",
            family: "IBM Plex Mono",
            weight: 400,
            style: "normal",
        },
        Face {
            name: "IBMPlexMono-Medium.ttf",
            family: "IBM Plex Mono",
            weight: 500,
            style: "normal",
        },
    ]
}

/// Where the first face called `name` stands in the table, from `from` on.
pub open spec fn face_index(name: Seq<char>, from: int) -> Option<int>
    decreases face_table().len() - from,
{
    if from < 0 || from >= face_table().len() {
        None
    } else if face_table()[from].name == name {
        Some(from)
    } else {
        face_index(name, from + 1)
    }
}

/// The face `name` refers to, or `None`: what a frontend's `postio-font:`
/// handler answers requests from. `vendored` holds the bytes of each face, in
/// the order of [`faces`].
///
/// A name that is not in the table resolves to nothing: a scheme that falls
/// through to somewhere is a scheme that can be aimed.
pub fn font_bytes<'a>(name: &str, vendored: &'a [Vec<u8>]) -> (out: Option<&'a Vec<u8>>)
    ensures
        match (out, face_index(name@, 0)) {
            (Some(bytes), Some(at)) => at < vendored@.len() && *bytes == vendored@[at],
            (None, Some(at)) => at >= vendored@.len(),
            (found, None) => found is None,
        },
{
    let table = faces();
    let mut i: usize = 0;
    while i < table.len()
        invariant
            table@.len() == face_table().len(),
            forall|k: int| 0 <= k < table@.len() ==> (#[trigger] table@[k])@ == face_table()[k],
            i <= table@.len(),
            face_index(name@, 0) == face_index(name@, i as int),
        decreases table@.len() - i,
    {
        assert(table@[i as int]@ == face_table()[i as int]);
        if same_text(table[i].name, name) {
            if i < vendored.len() {
                return Some(&vendored[i]);
            }
            return None;
        }
        i += 1;
    }
    None
}

/// The rule that names one face.
pub open spec fn face_rule(face: FaceView) -> Seq<char> {
    "@font-face{font-family:'"@ + face.family + "';font-weight:"@ + decimal(face.weight)
        + ";font-style:"@ + face.style + ";font-display:block;src:url("@ + FONT_SCHEME@ + ":"@
        + face.name + ") format('truetype');}\n"@
}

/// The rules that name `faces`.
pub open spec fn face_rules(faces: Seq<FaceView>) -> Seq<char>
    decreases faces.len(),
{
    if faces.len() == 0 {
        Seq::empty()
    } else {
        face_rules(faces.drop_last()) + face_rule(faces.last())
    }
}

/// `@font-face` rules pointing at [`FONT_SCHEME`] URLs.
///
/// A web view's rendering happens in its own process, which never sees the
/// fonts the host application registered. The document names the faces and
/// the engine fetches only the ones the page draws with. `font-display:
/// block` because a flash of the wrong font is the one thing this pane must
/// not do.
pub fn embedded_font_faces() -> (out: String)
    ensures
        out@ == face_rules(face_table()),
{
    let table = faces();
    let mut out = String::new();
    let mut i: usize = 0;
    assert(face_table().take(0) =~= Seq::<FaceView>::empty());
    assert(out@ =~= face_rules(face_table().take(0)));
    while i < table.len()
        invariant
            table@.len() == face_table().len(),
            forall|k: int| 0 <= k < table@.len() ==> (#[trigger] table@[k])@ == face_table()[k],
            i <= table@.len(),
            out@ == face_rules(face_table().take(i as int)),
        decreases table@.len() - i,
    {
        let ghost done = out@;
        let face = table[i];
        proof {
            assert(face@ == face_table()[i as int]);
            assert(face_table().take(i + 1).drop_last() =~= face_table().take(i as int));
        }
        out.append("@font-face{font-family:'");
        out.append(face.family);
        out.append("';font-weight:");
        out.append(decimal_of(face.weight as u64).as_str());
        out.append(";font-style:");
        out.append(face.style);
        out.append(";font-display:block;src:url(");
        out.append(FONT_SCHEME);
        out.append(":");
        out.append(face.name);
        out.append(") format('truetype');}\n");
        assert(out@ =~= done + face_rule(face@));
        i += 1;
    }
    assert(face_table().take(face_table().len() as int) =~= face_table());
    out
}

// ---------------------------------------------------------------------------
// The document
// ---------------------------------------------------------------------------

/// Which paper a message is drawn on.
#[derive(Clone, Copy, Debug, PartialEq, Eq, Structural)]
pub enum Sheet {
    /// The reader's own ground, following its colour scheme. What
    /// correspondence gets.
    Theme,
    /// The sender's own paper: the light palette whatever the scheme. Only
    /// the sender's *box* changes.
    Senders,
}

impl Default for Sheet {
    fn default() -> (out: Self)
        ensures
            out is Theme,
    {
        Sheet::Theme
    }
}

/// The stylesheet every document inlines.
pub open spec fn reader_rules(styles: Stylesheets<'_>) -> Seq<char> {
    face_rules(face_table()) + styles.palette@ + styles.structure@
}

/// The rules that turn the sender's box into their own page.
pub open spec fn senders_rules(palette: Seq<char>) -> Seq<char> {
    "\n."@ + SENDERS_SHEET_CLASS@ + " .postio-body {"@ + (match light_declarations(palette) {
        Some(light) => light,
        None => Seq::empty(),
    }) + "\n  background: var(--r-ground);\n  color: var(--r-ink);\n}\n"@
}

/// A document's stylesheet.
pub open spec fn sheet_rules(sheet: Sheet, styles: Stylesheets<'_>) -> Seq<char> {
    match sheet {
        Sheet::Theme => reader_rules(styles),
        Sheet::Senders => reader_rules(styles) + senders_rules(styles.palette@),
    }
}

/// What the root element carries beside its name.
pub open spec fn root_class(sheet: Sheet) -> Seq<char> {
    match sheet {
        Sheet::Theme => Seq::empty(),
        Sheet::Senders => " class=\""@ + SENDERS_SHEET_CLASS@ + "\""@,
    }
}

/// The document around `content`.
pub open spec fn wrapped(
    content: Seq<char>,
    remote: RemoteImages,
    sheet: Sheet,
    styles: Stylesheets<'_>,
) -> Seq<char> {
    "<!DOCTYPE html>\n<html"@ + root_class(sheet)
        + "><head>\n<meta charset=\"utf-8\">\n<meta http-equiv=\"Content-Security-Policy\" content=\""@
        + policy(remote) + "\">\n<style>"@ + sheet_rules(sheet, styles)
        + "</style>\n</head><body>"@ + content + "</body></html>"@
}

/// Wrap sanitized body markup in the document a web view is handed: the
/// application's own stylesheet, and a `Content-Security-Policy` that closes
/// off anything the sanitizer missed.
///
/// The sender's sheet is scoped to `.postio-body` and not to `:root`: `body`
/// keeps painting the theme's ground, so the sheet has an edge to be inset
/// from.
pub fn wrap_document(
    content: &str,
    remote: RemoteImages,
    sheet: Sheet,
    styles: Stylesheets<'_>,
) -> (out: String)
    requires
        sheet is Senders ==> light_declarations(styles.palette@) is Some,
    ensures
        out@ == wrapped(content@, remote, sheet, styles),
{
    let mut css = embedded_font_faces();
    css.append(styles.palette);
    css.append(styles.structure);
    let mut out = "<!DOCTYPE html>\n<html".to_owned();
    match sheet {
        Sheet::Theme => {
            assert(out@ =~= "<!DOCTYPE html>\n<html"@ + root_class(sheet));
        },
        Sheet::Senders => {
            let ghost plain = css@;
            css.append("\n.");
            css.append(SENDERS_SHEET_CLASS);
            css.append(" .postio-body {");
            css.append(light_tokens(styles.palette).as_str());
            css.append("\n  background: var(--r-ground);\n  color: var(--r-ink);\n}\n");
            assert(css@ =~= plain + senders_rules(styles.palette@));
            out.append(" class=\"");
            out.append(SENDERS_SHEET_CLASS);
            out.append("\"");
            assert(out@ =~= "<!DOCTYPE html>\n<html"@ + root_class(sheet));
        },
    }
    assert(css@ =~= sheet_rules(sheet, styles));
    out.append(
        "><head>\n<meta charset=\"utf-8\">\n<meta http-equiv=\"Content-Security-Policy\" content=\"",
    );
    out.append(content_security_policy(remote).as_str());
    out.append("\">\n<style>");
    out.append(css.as_str());
    out.append("</style>\n</head><body>");
    out.append(content);
    out.append("</body></html>");
    assert(out@ =~= wrapped(content@, remote, sheet, styles));
    out
}

/// A sender's content in its own box.
pub open spec fn contained(content: Seq<char>) -> Seq<char> {
    "<div class=\"postio-body\">"@ + content + "</div>"@
}

/// Give a sender's content a bounded surface of its own: a visible edge
/// between what the application wrote and what arrived in the message. The
/// boundary is a security affordance as much as a visual one.
///
/// Only ever wraps a real body: the application's own words stay outside.
pub fn contain_body(content: &str) -> (out: String)
    ensures
        out@ == contained(content@),
{
    let mut out = "<div class=\"postio-body\">".to_owned();
    out.append(content);
    out.append("</div>");
    out
}

/// A sender's content in a bounded surface that may carry a name.
pub open spec fn contained_in(
    content: Seq<char>,
    attribute: Seq<char>,
    scope: Option<Seq<char>>,
) -> Seq<char> {
    match scope {
        Some(scope) => "<div class=\"postio-body\" "@ + attribute + "=\""@ + escaped(scope)
            + "\">"@ + content + "</div>"@,
        None => contained(content),
    }
}

/// [`contain_body`], named: `attribute` holds the message's own scope, which
/// is what that message's rules were scoped to. A container that lost its
/// name is a message that renders unstyled.
///
/// `attribute` is the name the sanitizer scopes those rules by.
pub fn contain_body_in(content: &str, attribute: &str, scope: Option<&str>) -> (out: String)
    ensures
        out@ == contained_in(
            content@,
            attribute@,
            match scope {
                Some(scope) => Some(scope@),
                None => None,
            },
        ),
{
    match scope {
        Some(scope) => {
            let mut out = "<div class=\"postio-body\" ".to_owned();
            out.append(attribute);
            out.append("=\"");
            out.append(escape(scope).as_str());
            out.append("\">");
            out.append(content);
            out.append("</div>");
            out
        },
        None => contain_body(content),
    }
}

/// The whole document for sender content that has already been sanitized.
///
/// The three steps a reader must not get wrong, in one place: bound the
/// sender's markup in `.postio-body`, append the scroll markers, and wrap the
/// result in the hardened template.
pub fn document_for(
    content: &str,
    remote: RemoteImages,
    sheet: Sheet,
    styles: Stylesheets<'_>,
) -> (out: String)
    requires
        sheet is Senders ==> light_declarations(styles.palette@) is Some,
    ensures
        out@ == wrapped(
            contained(content@) + markers(SCROLL_MARKERS as nat),
            remote,
            sheet,
            styles,
        ),
{
    let mut inner = contain_body(content);
    inner.append(scroll_markers().as_str());
    wrap_document(inner.as_str(), remote, sheet, styles)
}

// ---------------------------------------------------------------------------
// The body
// ---------------------------------------------------------------------------

/// What a render is holding back, split by kind.
#[derive(Clone, Copy, Debug, PartialEq, Eq, Structural)]
pub struct HeldBack {
    /// Ordinary remote pictures that were stripped.
    pub remote_images: u32,
    /// Stripped references whose declared size makes them likely beacons.
    pub trackers: u32,
}

/// `n` of something, one of it in the singular.
pub open spec fn so_many(n: nat, one: Seq<char>, many: Seq<char>) -> Seq<char> {
    if n == 1 {
        one
    } else {
        decimal(n) + many
    }
}

/// `n` of something.
fn number_text(n: u32, one: &str, many: &str) -> (out: String)
    ensures
        out@ == so_many(n as nat, one@, many@),
{
    if n == 1 {
        one.to_owned()
    } else {
        let mut out = decimal_of(n as u64);
        out.append(many);
        out
    }
}

/// What the notice says.
pub open spec fn held_back_summary(held: HeldBack) -> Seq<char> {
    let images = so_many(held.remote_images as nat, "1 remote image"@, " remote images"@);
    let beacons = so_many(held.trackers as nat, "1 tracker"@, " trackers"@);
    if held.remote_images == 0 && held.trackers == 0 {
        Seq::empty()
    } else if held.trackers == 0 {
        images + " blocked"@
    } else if held.remote_images == 0 {
        beacons + " blocked"@
    } else {
        images + " and "@ + beacons + " blocked"@
    }
}

impl Default for HeldBack {
    fn default() -> (out: Self)
        ensures
            out == (HeldBack { remote_images: 0, trackers: 0 }),
    {
        HeldBack { remote_images: 0, trackers: 0 }
    }
}

impl HeldBack {
    /// What the notice says: `14 remote images and 1 tracker blocked`.
    ///
    /// Both numbers, because they are different claims: a picture the sender
    /// wanted you to see and a beacon that wanted to see you. Empty when
    /// nothing was held back.
    pub fn summary(self) -> (out: String)
        ensures
            out@ == held_back_summary(self),
    {
        let mut out = String::new();
        if self.remote_images == 0 && self.trackers == 0 {
            assert(out@ =~= Seq::<char>::empty());
            return out;
        }
        let images = number_text(self.remote_images, "1 remote image", " remote images");
        let beacons = number_text(self.trackers, "1 tracker", " trackers");
        if self.trackers == 0 {
            out = images;
        } else if self.remote_images == 0 {
            out = beacons;
        } else {
            out = images;
            out.append(" and ");
            out.append(beacons.as_str());
        }
        out.append(" blocked");
        out
    }

    /// Everything held back, whatever kind it was.
    pub fn total(self) -> (out: u32)
        requires
            self.remote_images + self.trackers <= u32::MAX,
        ensures
            out == self.remote_images + self.trackers,
    {
        self.remote_images + self.trackers
    }
}

/// Which of the two ways a message can be drawn.
#[derive(Clone, Copy, Debug, PartialEq, Eq, Structural)]
pub enum Rendering {
    /// The sender's own markup, sanitized and quote-folded.
    Original,
    /// Reduced to what carries meaning. The default for bulk mail.
    Reader,
}

impl Default for Rendering {
    fn default() -> (out: Self)
        ensures
            out is Original,
    {
        Rendering::Original
    }
}

/// Which paper this rendering belongs on.
///
/// Exactly one situation earns the sender's sheet: the person left reader
/// view to see the original of something reader view had offered to reduce.
pub fn sheet_for(rendering: Rendering, suits_reader_view: bool) -> (out: Sheet)
    ensures
        out is Senders <==> rendering is Original && suits_reader_view,
{
    match (rendering, suits_reader_view) {
        (Rendering::Original, true) => Sheet::Senders,
        _ => Sheet::Theme,
    }
}

/// A body made safe, and what that took.
#[derive(Clone, Debug, PartialEq, Eq)]
pub struct Sanitized {
    /// The markup.
    pub html: String,
    /// How many remote pictures were stripped.
    pub remote_blocked: u32,
    /// How many likely beacons were.
    pub trackers: u32,
}

/// Markup reduced to what carries meaning.
#[derive(Clone, Debug, PartialEq, Eq)]
pub struct Reduced {
    /// The markup.
    pub html: String,
    /// Links that survived.
    pub links_kept: usize,
    /// Links that were collapsed.
    pub links_dropped: usize,
}

/// A body, drawn, and everything a surface needs to say about how.
#[derive(Clone, Debug, PartialEq, Eq)]
pub struct Rendered {
    /// The markup, ready for [`contain_body`].
    pub html: String,
    /// What the remote-image policy held back.
    pub held_back: HeldBack,
    /// Which way it was drawn.
    pub rendering: Rendering,
    /// Links that survived reduction. Zero in [`Rendering::Original`].
    pub links_kept: usize,
    /// Links reduction collapsed.
    pub links_dropped: usize,
}

impl Rendered {
    /// Every link the message had. Zero unless it was reduced.
    pub fn links_total(&self) -> (out: usize)
        requires
            self.links_kept + self.links_dropped <= usize::MAX,
        ensures
            out == self.links_kept + self.links_dropped,
    {
        self.links_kept + self.links_dropped
    }
}

/// A text with something in it beside white space.
pub open spec fn has_content(text: Option<Seq<char>>) -> bool {
    match text {
        Some(text) => trimmed(text).len() > 0,
        None => false,
    }
}

/// Whether there is something in the text beside white space.
fn holds_content(text: &Option<String>) -> (out: bool)
    ensures
        out == has_content(text_opt(*text)),
{
    match text {
        Some(text) => !is_blank(text.as_str()),
        None => false,
    }
}

/// Whether this body is one reader view should open on.
///
/// **Bulk mail only**, which `reads_as_bulk` says of the HTML part's
/// arrangement. A message with no HTML part at all is never a candidate: there
/// is no markup to reduce.
pub fn suits_reader_view(body: &MessageBody, reads_as_bulk: bool) -> (out: bool)
    ensures
        out == (has_content(text_opt(body.html)) && reads_as_bulk),
{
    holds_content(&body.html) && reads_as_bulk
}

/// What of a body is drawn, and what has to be done to it first.
#[derive(Clone, Copy, Debug, PartialEq, Eq, Structural)]
pub enum BodySource {
    /// The plain part, marked up.
    Plain,
    /// The HTML part, sanitized and then reduced.
    Reduced,
    /// The HTML part, sanitized and quote-folded.
    Folded,
    /// Nothing: there is no body.
    Nothing,
}

/// What of a body is drawn.
///
/// Reader view prefers the sender's own plain part, which is the thing
/// reduction is trying to reconstruct; the original never reaches for it while
/// there is an HTML part.
pub open spec fn source_of(body: MessageBody, rendering: Rendering) -> BodySource {
    let html = has_content(text_opt(body.html));
    let text = has_content(text_opt(body.text));
    if rendering is Reader && text {
        BodySource::Plain
    } else if rendering is Reader && html {
        BodySource::Reduced
    } else if html {
        BodySource::Folded
    } else if text {
        BodySource::Plain
    } else {
        BodySource::Nothing
    }
}

/// What of `body` is drawn, and what has to be done to it first.
///
/// Sanitized first, always. Reduction is a readability pass over markup that
/// has already been made safe.
pub fn body_source(body: &MessageBody, rendering: Rendering) -> (out: BodySource)
    ensures
        out == source_of(*body, rendering),
{
    let html = holds_content(&body.html);
    let text = holds_content(&body.text);
    match rendering {
        Rendering::Reader => {
            if text {
                return BodySource::Plain;
            }
            if html {
                return BodySource::Reduced;
            }
        },
        Rendering::Original => {},
    }
    if html {
        BodySource::Folded
    } else if text {
        BodySource::Plain
    } else {
        BodySource::Nothing
    }
}

/// What the passes over a body made of it. Only those [`body_source`] asks for
/// need to have run.
#[derive(Clone, Debug, PartialEq, Eq)]
pub struct Passes {
    /// The plain part, marked up.
    pub plain: String,
    /// The HTML part, sanitized.
    pub sanitized: Sanitized,
    /// The sanitized markup, reduced.
    pub reduced: Reduced,
    /// The sanitized markup, its quotes folded.
    pub folded: String,
}

/// A drawn body, as text and numbers.
pub open spec fn draws(
    out: Rendered,
    html: Seq<char>,
    held_back: HeldBack,
    rendering: Rendering,
    links_kept: int,
    links_dropped: int,
) -> bool {
    &&& out.html@ == html
    &&& out.held_back == held_back
    &&& out.rendering == rendering
    &&& out.links_kept == links_kept
    &&& out.links_dropped == links_dropped
}

/// `out` is `body` drawn from `passes`.
pub open spec fn is_drawn(
    out: Rendered,
    body: MessageBody,
    rendering: Rendering,
    passes: Passes,
) -> bool {
    let nothing = HeldBack { remote_images: 0, trackers: 0 };
    let held_back = HeldBack {
        remote_images: passes.sanitized.remote_blocked,
        trackers: passes.sanitized.trackers,
    };
    match source_of(body, rendering) {
        BodySource::Plain => draws(out, passes.plain@, nothing, rendering, 0, 0),
        BodySource::Reduced => draws(
            out,
            passes.reduced.html@,
            held_back,
            Rendering::Reader,
            passes.reduced.links_kept as int,
            passes.reduced.links_dropped as int,
        ),
        BodySource::Folded => draws(
            out,
            passes.folded@,
            held_back,
            Rendering::Original,
            0,
            0,
        ),
        BodySource::Nothing => draws(out, Seq::empty(), nothing, Rendering::Original, 0, 0),
    }
}

/// The body markup: sanitized and quote-folded or reduced, but not yet wrapped
/// in the document template [`wrap_document`] adds, plus what was held back
/// to produce it.
///
/// The counts survive reduction -- a notice that went quiet in reader view
/// would be the privacy invariant silently weakening in one of two modes.
pub fn body_html(body: &MessageBody, rendering: Rendering, passes: &Passes) -> (out: Rendered)
    ensures
        is_drawn(out, *body, rendering, *passes),
{
    let held_back = HeldBack {
        remote_images: passes.sanitized.remote_blocked,
        trackers: passes.sanitized.trackers,
    };
    match body_source(body, rendering) {
        BodySource::Plain => Rendered {
            html: passes.plain.clone(),
            held_back: HeldBack::default(),
            rendering,
            links_kept: 0,
            links_dropped: 0,
        },
        BodySource::Reduced => Rendered {
            html: passes.reduced.html.clone(),
            held_back,
            rendering: Rendering::Reader,
            links_kept: passes.reduced.links_kept,
            links_dropped: passes.reduced.links_dropped,
        },
        BodySource::Folded => Rendered {
            html: passes.folded.clone(),
            held_back,
            rendering: Rendering::Original,
            links_kept: 0,
            links_dropped: 0,
        },
        BodySource::Nothing => {
            let html = String::new();
            assert(html@ =~= Seq::<char>::empty());
            Rendered {
                html,
                held_back: HeldBack::default(),
                rendering: Rendering::Original,
                links_kept: 0,
                links_dropped: 0,
            }
        },
    }
}

// ---------------------------------------------------------------------------
// Laws
// ---------------------------------------------------------------------------

/// Every document carries the policy, and what it holds stands inside the
/// body, after it.
pub proof fn lemma_document_is_hardened(
    content: Seq<char>,
    remote: RemoteImages,
    sheet: Sheet,
    styles: Stylesheets<'_>,
)
    ensures
        exists|before: Seq<char>, between: Seq<char>|
            wrapped(content, remote, sheet, styles) == #[trigger] (before + policy(remote) + between
                + content + "</body></html>"@),
{
    let before = "<!DOCTYPE html>\n<html"@ + root_class(sheet)
        + "><head>\n<meta charset=\"utf-8\">\n<meta http-equiv=\"Content-Security-Policy\" content=\""@;
    let between = "\">\n<style>"@ + sheet_rules(sheet, styles) + "</style>\n</head><body>"@;
    assert(wrapped(content, remote, sheet, styles) =~= before + policy(remote) + between + content
        + "</body></html>"@);
}

/// The original is the sender's markup while there is any, whatever else came
/// with it; reader view never draws markup while there is a plain part.
pub proof fn lemma_preferred_part(body: MessageBody)
    ensures
        has_content(text_opt(body.html)) ==> source_of(body, Rendering::Original) is Folded,
        has_content(text_opt(body.text)) ==> source_of(body, Rendering::Reader) is Plain,
        source_of(body, Rendering::Original) is Nothing <==> source_of(
            body,
            Rendering::Reader,
        ) is Nothing,
{
}

/// No two reasons for an empty pane read the same.
pub proof fn lemma_absent_states_differ(a: Absent, b: Absent)
    requires
        a != b,
    ensures
        absent_heading(a) != absent_heading(b),
        absent_markup(a) != absent_markup(b),
{
    let open = "<div class=\"postio-absent\"><p class=\"postio-absent-heading\">"@;
    reveal_strlit("Downloading this message");
    reveal_strlit("Not downloaded yet");
    reveal_strlit("This message's body is missing");
    reveal_strlit("This message has no body");
    reveal_strlit("Written on another device");
    assert(absent_heading(Absent::Partial)[0] == 'D');
    assert(absent_heading(Absent::Offline)[0] == 'N');
    assert(absent_heading(Absent::Missing).len() == 30);
    assert(absent_heading(Absent::Empty)[0] == 'T');
    assert(absent_heading(Absent::ForeignDraft)[0] == 'W');
    assert(absent_heading(Absent::Missing)[12] == '\'');
    assert(absent_heading(Absent::Empty)[12] == ' ');
    assert forall|state: Absent| #![trigger absent_markup(state)]
        absent_markup(state)[open.len() as int] == absent_heading(state)[0]
        && absent_markup(state)[open.len() as int + 12] == absent_heading(state)[12] by {
        assert(absent_heading(state).len() > 12);
    }
}

/// The retry key, as it is drawn.
pub open spec fn retry_key() -> Seq<char> {
    "<kbd>R</kbd>"@
}

/// Whether `part` stands in `whole` at `at`.
pub open spec fn stands_at(whole: Seq<char>, part: Seq<char>, at: int) -> bool {
    0 <= at && at + part.len() <= whole.len() && whole.subrange(at, at + part.len()) == part
}

/// What stands between two texts stands in the whole.
pub proof fn lemma_stands_inside(before: Seq<char>, part: Seq<char>, after: Seq<char>)
    ensures
        stands_at(before + part + after, part, before.len() as int),
{
    let at = before.len() as int;
    assert((before + part + after).subrange(at, at + part.len()) =~= part);
}

/// Only the two states worth retrying offer the retry key: it is drawn on the
/// plate of a message that is offline or missing, and on no other.
pub proof fn lemma_only_two_states_offer_a_retry(state: Absent)
    ensures
        (exists|at: int| stands_at(absent_markup(state), retry_key(), at)) <==> (state is Offline
            || state is Missing),
{
    let open = "<div class=\"postio-absent\"><p class=\"postio-absent-heading\">"@;
    let middle = "</p><p class=\"postio-absent-detail\">"@;
    let close = "</p></div>"@;
    let whole = absent_markup(state);
    if state is Offline || state is Missing {
        let words = if state is Offline {
            "Postio is offline, so this message's body is not on this machine. It will arrive when the connection returns. "@
        } else {
            "The message is in the local store but its body is not, so there is nothing here to show. "@
        };
        let before = open + absent_heading(state) + middle + words + "Press "@;
        let after = " to check for new mail now."@ + close;
        assert(RETRY@ =~= "Press "@ + retry_key() + " to check for new mail now."@) by {
            reveal_strlit("Press <kbd>R</kbd> to check for new mail now.");
            reveal_strlit("Press ");
            reveal_strlit("<kbd>R</kbd>");
            reveal_strlit(" to check for new mail now.");
        }
        assert(whole =~= before + retry_key() + after);
        lemma_stands_inside(before, retry_key(), after);
    } else {
        assert(!open.contains('R')) by {
            reveal_strlit("<div class=\"postio-absent\"><p class=\"postio-absent-heading\">");
        }
        assert(!middle.contains('R')) by {
            reveal_strlit("</p><p class=\"postio-absent-detail\">");
        }
        assert(!close.contains('R')) by {
            reveal_strlit("</p></div>");
        }
        assert(!absent_heading(state).contains('R')) by {
            reveal_strlit("Downloading this message");
            reveal_strlit("This message has no body");
            reveal_strlit("Written on another device");
        }
        assert(!absent_detail(state).contains('R')) by {
            reveal_strlit("Its headers are here; the body has not arrived yet. It will appear as soon as it does.");
            reveal_strlit("Nothing arrived with it but the headers — that is the whole message, not a fault.");
            reveal_strlit("This draft was started in another mail client. Postio can show it here but cannot edit it.");
        }
        assert(!whole.contains('R')) by {
            assert forall|i: int| 0 <= i < whole.len() implies whole[i] != 'R' by {
                let a = open.len() as int;
                let b = a + absent_heading(state).len();
                let c = b + middle.len();
                let d = c + absent_detail(state).len();
                if i < a {
                    assert(whole[i] == open[i]);
                } else if i < b {
                    assert(whole[i] == absent_heading(state)[i - a]);
                } else if i < c {
                    assert(whole[i] == middle[i - b]);
                } else if i < d {
                    assert(whole[i] == absent_detail(state)[i - c]);
                } else {
                    assert(whole[i] == close[i - d]);
                }
            }
        }
        reveal_strlit("<kbd>R</kbd>");
        assert forall|at: int| !stands_at(whole, retry_key(), at) by {
            if stands_at(whole, retry_key(), at) {
                assert(whole.subrange(at, at + retry_key().len())[5] == retry_key()[5]);
                assert(whole[at + 5] == 'R');
            }
        }
    }
}

/// What was held back is said whenever the HTML part is what is drawn, in
/// either way of drawing it: as many pictures and as many beacons as the
/// sanitizer counted. Where the plain part is drawn, or nothing, nothing was
/// held back.
pub proof fn lemma_held_back_is_said(
    out: Rendered,
    body: MessageBody,
    rendering: Rendering,
    passes: Passes,
)
    requires
        is_drawn(out, body, rendering, passes),
    ensures
        ({
            let html = body.html matches Some(html) && trimmed(html@).len() > 0;
            let text = body.text matches Some(text) && trimmed(text@).len() > 0;
            let marked_up = html && (rendering is Original || !text);
            &&& marked_up ==> out.held_back.remote_images == passes.sanitized.remote_blocked
                && out.held_back.trackers == passes.sanitized.trackers
            &&& !marked_up ==> out.held_back.remote_images == 0 && out.held_back.trackers == 0
        }),
{
}

/// What is drawn: the original of a message with an HTML part is that part,
/// folded; reader view of one with a plain part is the plain part, and else
/// the HTML part, reduced. A message without markup is its plain part either
/// way.
pub proof fn lemma_what_is_drawn(
    out: Rendered,
    body: MessageBody,
    rendering: Rendering,
    passes: Passes,
)
    requires
        is_drawn(out, body, rendering, passes),
    ensures
        ({
            let html = body.html matches Some(html) && trimmed(html@).len() > 0;
            let text = body.text matches Some(text) && trimmed(text@).len() > 0;
            &&& html && rendering is Original ==> out.html@ == passes.folded@
            &&& html && rendering is Reader && !text ==> out.html@ == passes.reduced.html@
            &&& text && (rendering is Reader || !html) ==> out.html@ == passes.plain@
            &&& !html && !text ==> out.html@.len() == 0
            &&& out.links_kept == (if html && rendering is Reader && !text {
                passes.reduced.links_kept
            } else {
                0
            })
            &&& out.links_dropped == (if html && rendering is Reader && !text {
                passes.reduced.links_dropped
            } else {
                0
            })
            &&& html || text ==> out.rendering == rendering
            &&& !html && !text ==> out.rendering is Original
        }),
{
}

/// While remote images are held back the policy names nowhere they could come
/// from; allowing them adds the network, and nothing but that.
pub proof fn lemma_blocked_images_have_no_source(remote: RemoteImages)
    ensures
        !has_text(image_sources(RemoteImages::Blocked), "http"@),
        has_text(image_sources(RemoteImages::Allowed), " http: https:"@),
        image_sources(RemoteImages::Allowed) == image_sources(RemoteImages::Blocked)
            + " http: https:"@,
        has_prefix(policy(remote), "default-src 'none'; script-src 'none'; "@),
        has_text(policy(remote), "img-src "@ + image_sources(remote) + ";"@),
        has_text(
            policy(remote),
            "base-uri 'none'; form-action 'none'; frame-src 'none'; connect-src 'none'"@,
        ),
{
    reveal_strlit("postio-cid");
    reveal_strlit(": data:");
    reveal_strlit(": data: http: https:");
    reveal_strlit(" http: https:");
    reveal_strlit("http");
    let held = image_sources(RemoteImages::Blocked);
    assert(!held.contains('h'));
    if has_text(held, "http"@) {
        let at = choose|at: int| #[trigger] occurs_at(held, "http"@, at);
        assert(held.subrange(at, at + 4)[0] == held[at]);
        assert(held.contains('h'));
    }
    let allowed = image_sources(RemoteImages::Allowed);
    assert(allowed =~= held + " http: https:"@ + Seq::empty());
    lemma_within(held, " http: https:"@, Seq::empty());
    assert(allowed =~= held + " http: https:"@);
    let all = policy(remote);
    let sources = image_sources(remote);
    let open = "default-src 'none'; script-src 'none'; style-src 'unsafe-inline'; img-src "@;
    let start = "default-src 'none'; script-src 'none'; "@;
    let style = "style-src 'unsafe-inline'; "@;
    let img = "img-src "@;
    assert(open =~= start + style + img) by {
        reveal_strlit("default-src 'none'; script-src 'none'; style-src 'unsafe-inline'; img-src ");
        reveal_strlit("default-src 'none'; script-src 'none'; ");
        reveal_strlit("style-src 'unsafe-inline'; ");
        reveal_strlit("img-src ");
    }
    assert("; font-src "@ =~= ";"@ + " font-src "@) by {
        reveal_strlit("; font-src ");
        reveal_strlit(";");
        reveal_strlit(" font-src ");
    }
    let last = ":; base-uri 'none'; form-action 'none'; frame-src 'none'; connect-src 'none'"@;
    let closed = "base-uri 'none'; form-action 'none'; frame-src 'none'; connect-src 'none'"@;
    assert(last =~= ":; "@ + closed) by {
        reveal_strlit(
            ":; base-uri 'none'; form-action 'none'; frame-src 'none'; connect-src 'none'",
        );
        reveal_strlit(":; ");
        reveal_strlit("base-uri 'none'; form-action 'none'; frame-src 'none'; connect-src 'none'");
    }
    assert(all.subrange(0, start.len() as int) =~= start);
    let rule = img + sources + ";"@;
    let tail = " font-src "@ + FONT_SCHEME@ + last;
    assert(all =~= (start + style) + rule + tail);
    lemma_within(start + style, rule, tail);
    let front = open + sources + "; font-src "@ + FONT_SCHEME@ + ":; "@;
    assert(all =~= front + closed + Seq::empty());
    lemma_within(front, closed, Seq::empty());
}

/// Every marker is laid.
pub proof fn lemma_every_marker_is_laid(n: nat, position: nat)
    requires
        position < n,
    ensures
        has_text(markers(n), marker(position)),
    decreases n,
{
    let last = (n - 1) as nat;
    let before = markers(last);
    if position == last {
        let none: Seq<char> = Seq::empty();
        lemma_within(before, marker(position), none);
        assert(before + marker(position) + none =~= before + marker(position));
    } else {
        lemma_every_marker_is_laid(last, position);
        lemma_rule_goes_on(before, marker(last), marker(position));
    }
}

/// A marker stands under its own number, ninety hundredths of a screen below
/// the one before it.
pub proof fn lemma_markers_are_evenly_spaced(position: nat)
    ensures
        has_prefix(marker(position), "<a id=\"pos-"@ + decimal(position)),
        has_text(marker(position), "top:"@ + decimal(90 * position)),
{
    let s1 = "<a id=\"pos-"@ + decimal(position);
    let style = "\" style=\"position:absolute;top:"@;
    let end = "vh;left:0;width:0;height:0;\"></a>"@;
    let top = decimal(90 * position);
    assert(position * SCROLL_MARKER_STEP_VH as nat == 90 * position);
    assert(marker(position) == s1 + style + top + end);
    assert(style =~= "\" style=\"position:absolute;"@ + "top:"@) by {
        reveal_strlit("\" style=\"position:absolute;top:");
        reveal_strlit("\" style=\"position:absolute;");
        reveal_strlit("top:");
    }
    let none: Seq<char> = Seq::empty();
    lemma_rule_tail(s1, "\" style=\"position:absolute;"@, "top:"@, top, none, none);
    assert(s1 + style + top + none + none =~= s1 + style + top);
    assert("top:"@ + top + none + none =~= "top:"@ + top);
    lemma_rule_goes_on(s1 + style + top, end, "top:"@ + top);
    assert(marker(position).subrange(0, s1.len() as int) =~= s1);
}

/// The palette's light scheme is what stands before the dark block, its dark
/// one what stands after it, and the ground of either the first one it names.
pub proof fn lemma_ground_of_a_scheme(
    light: Seq<char>,
    dark: Seq<char>,
    before: Seq<char>,
    value: Seq<char>,
    after: Seq<char>,
    is_dark: bool,
)
    requires
        forall|i: int|
            0 <= i < light.len() ==> !#[trigger] occurs_at(
                light + DARK_BLOCK@ + dark,
                DARK_BLOCK@,
                i,
            ),
        (if is_dark {
            dark
        } else {
            light
        }) == before + "--r-ground:"@ + (value + ";"@ + after),
        forall|i: int|
            0 <= i < before.len() ==> !#[trigger] occurs_at(
                before + "--r-ground:"@ + (value + ";"@ + after),
                "--r-ground:"@,
                i,
            ),
        forall|i: int|
            0 <= i < value.len() ==> !#[trigger] occurs_at(value + ";"@ + after, ";"@, i),
    ensures
        ground_of(light + DARK_BLOCK@ + dark, is_dark) == Some(trimmed(value)),
{
    lemma_parted(light, DARK_BLOCK@, dark);
    lemma_parted(before, "--r-ground:"@, value + ";"@ + after);
    lemma_parted(value, ";"@, after);
}

/// What the sender's page is drawn with is the first rule of the light scheme,
/// whatever the dark one says.
pub proof fn lemma_light_declarations(
    dark: Seq<char>,
    before: Seq<char>,
    declarations: Seq<char>,
    after: Seq<char>,
)
    requires
        forall|i: int|
            0 <= i < (before + ":root {"@ + (declarations + "}"@ + after)).len()
                ==> !#[trigger] occurs_at(
                before + ":root {"@ + (declarations + "}"@ + after) + DARK_BLOCK@ + dark,
                DARK_BLOCK@,
                i,
            ),
        forall|i: int|
            0 <= i < before.len() ==> !#[trigger] occurs_at(
                before + ":root {"@ + (declarations + "}"@ + after),
                ":root {"@,
                i,
            ),
        forall|i: int|
            0 <= i < declarations.len() ==> !#[trigger] occurs_at(
                declarations + "}"@ + after,
                "}"@,
                i,
            ),
    ensures
        light_declarations(
            before + ":root {"@ + (declarations + "}"@ + after) + DARK_BLOCK@ + dark,
        ) == Some(trimmed_end(declarations)),
{
    lemma_parted(before + ":root {"@ + (declarations + "}"@ + after), DARK_BLOCK@, dark);
    lemma_parted(before, ":root {"@, declarations + "}"@ + after);
    lemma_parted(declarations, "}"@, after);
}

/// A name finds its own face and no other; a name that is no face's finds
/// nothing.
pub proof fn lemma_faces_by_name(name: Seq<char>, i: int)
    ensures
        0 <= i < face_table().len() ==> face_index(face_table()[i].name, 0) == Some(i),
        face_index(name, 0) matches Some(at) ==> 0 <= at < face_table().len()
            && face_table()[at].name == name,
        face_index(name, 0) is None ==> forall|k: int|
            0 <= k < face_table().len() ==> (#[trigger] face_table()[k]).name != name,
{
    reveal_strlit("Barlow-Regular.ttf");
    reveal_strlit("Barlow-Medium.ttf");
    reveal_strlit("Barlow-Bold.ttf");
    reveal_strlit("Barlow-Italic.ttf");
    reveal_strlit("BarlowCondensed-Regular.ttf");
    reveal_strlit("BarlowCondensed-SemiBold.ttf");
    reveal_strlit("IBMPlexMono-Regular.ttf");
    reveal_strlit("IBMPlexMono-Medium.ttf");
    let table = face_table();
    assert(table[0].name.len() == 18);
    assert(table[1].name.len() == 17 && table[1].name[7] == 'M');
    assert(table[2].name.len() == 15);
    assert(table[3].name.len() == 17 && table[3].name[7] == 'I');
    assert(table[4].name.len() == 27);
    assert(table[5].name.len() == 28);
    assert(table[6].name.len() == 23);
    assert(table[7].name.len() == 22);
    lemma_face_found(name, 0);
    if 0 <= i < table.len() {
        lemma_face_found(table[i].name, 0);
        let at = face_index(table[i].name, 0)->0;
        assert(table[at].name.len() == table[i].name.len());
        assert(table[at].name[7] == table[i].name[7]);
    }
}

proof fn lemma_face_found(name: Seq<char>, from: int)
    requires
        0 <= from <= face_table().len(),
    ensures
        match face_index(name, from) {
            Some(at) => from <= at < face_table().len() && face_table()[at].name == name,
            None => forall|k: int|
                from <= k < face_table().len() ==> (#[trigger] face_table()[k]).name != name,
        },
    decreases face_table().len() - from,
{
    if from < face_table().len() && face_table()[from].name != name {
        lemma_face_found(name, from + 1);
    }
}

proof fn lemma_rule_tail(
    before: Seq<char>,
    lead: Seq<char>,
    word: Seq<char>,
    x: Seq<char>,
    y: Seq<char>,
    z: Seq<char>,
)
    ensures
        has_text(before + (lead + word) + x + y + z, word + x + y + z),
{
    let all = before + (lead + word) + x + y + z;
    let part = word + x + y + z;
    let at = (before.len() + lead.len()) as int;
    assert(all.subrange(at, at + part.len()) =~= part);
    assert(occurs_at(all, part, at));
}

proof fn lemma_rule_goes_on(s: Seq<char>, more: Seq<char>, part: Seq<char>)
    requires
        has_text(s, part),
    ensures
        has_text(s + more, part),
{
    let at = choose|at: int| #[trigger] occurs_at(s, part, at);
    assert((s + more).subrange(at, at + part.len()) =~= s.subrange(at, at + part.len()));
    assert(occurs_at(s + more, part, at));
}

/// A face's rule gives it its family, weight and style, and fetches it by its
/// own name over the application's scheme.
pub proof fn lemma_what_a_face_rule_says(face: FaceView)
    ensures
        has_prefix(face_rule(face), "@font-face{font-family:'"@ + face.family),
        has_text(
            face_rule(face),
            "font-weight:"@ + decimal(face.weight) + ";font-style:"@ + face.style,
        ),
        has_text(face_rule(face), "src:url("@ + FONT_SCHEME@ + ":"@ + face.name),
{
    let s1 = "@font-face{font-family:'"@ + face.family;
    let s2 = s1 + "';font-weight:"@;
    let s3 = s2 + decimal(face.weight);
    let s4 = s3 + ";font-style:"@;
    let s5 = s4 + face.style;
    let s6 = s5 + ";font-display:block;src:url("@;
    let s7 = s6 + FONT_SCHEME@;
    let s8 = s7 + ":"@;
    let s9 = s8 + face.name;
    let end = ") format('truetype');}\n"@;
    assert(face_rule(face) == s9 + end);
    assert("';font-weight:"@ =~= "';"@ + "font-weight:"@) by {
        reveal_strlit("';font-weight:");
        reveal_strlit("';");
        reveal_strlit("font-weight:");
    }
    assert(";font-display:block;src:url("@ =~= ";font-display:block;"@ + "src:url("@) by {
        reveal_strlit(";font-display:block;src:url(");
        reveal_strlit(";font-display:block;");
        reveal_strlit("src:url(");
    }
    let drawn = "font-weight:"@ + decimal(face.weight) + ";font-style:"@ + face.style;
    let source = "src:url("@ + FONT_SCHEME@ + ":"@ + face.name;
    lemma_rule_tail(s1, "';"@, "font-weight:"@, decimal(face.weight), ";font-style:"@, face.style);
    assert(has_text(s5, drawn));
    lemma_rule_tail(s5, ";font-display:block;"@, "src:url("@, FONT_SCHEME@, ":"@, face.name);
    assert(has_text(s9, source));
    lemma_rule_goes_on(s5, ";font-display:block;src:url("@, drawn);
    lemma_rule_goes_on(s6, FONT_SCHEME@, drawn);
    lemma_rule_goes_on(s7, ":"@, drawn);
    lemma_rule_goes_on(s8, face.name, drawn);
    lemma_rule_goes_on(s9, end, drawn);
    lemma_rule_goes_on(s9, end, source);
    assert(face_rule(face).subrange(0, s1.len() as int) =~= s1);
}

/// Every face has its rule.
pub proof fn lemma_every_face_has_a_rule(faces: Seq<FaceView>, i: int)
    requires
        0 <= i < faces.len(),
    ensures
        has_text(face_rules(faces), face_rule(faces[i])),
    decreases faces.len(),
{
    let rest = faces.drop_last();
    let rule = face_rule(faces[i]);
    let before = face_rules(rest);
    if i == faces.len() - 1 {
        let none: Seq<char> = Seq::empty();
        assert(before + rule =~= before + rule + none);
        lemma_within(before, rule, none);
    } else {
        lemma_every_face_has_a_rule(rest, i);
        assert(rest[i] == faces[i]);
        lemma_rule_goes_on(before, face_rule(faces.last()), rule);
    }
}

/// The sender's sheet is the reader's own with rules for the sender's box
/// added at its end; the reader's own is the faces, the palette and the
/// structure, in that order.
pub proof fn lemma_senders_sheet_only_adds(styles: Stylesheets<'_>)
    ensures
        sheet_rules(Sheet::Theme, styles) == face_rules(face_table()) + styles.palette@
            + styles.structure@,
        has_prefix(sheet_rules(Sheet::Senders, styles), sheet_rules(Sheet::Theme, styles)),
        light_declarations(styles.palette@) matches Some(light) ==> has_text(
            sheet_rules(Sheet::Senders, styles),
            ".postio-senders-sheet .postio-body {"@ + light
                + "\n  background: var(--r-ground);\n  color: var(--r-ink);\n}\n"@,
        ),
        root_class(Sheet::Theme).len() == 0,
        has_text(root_class(Sheet::Senders), "postio-senders-sheet"@),
{
    let plain = sheet_rules(Sheet::Theme, styles);
    let theirs = sheet_rules(Sheet::Senders, styles);
    assert(theirs.subrange(0, plain.len() as int) =~= plain);
    let none: Seq<char> = Seq::empty();
    if let Some(light) = light_declarations(styles.palette@) {
        let tail = "\n  background: var(--r-ground);\n  color: var(--r-ink);\n}\n"@;
        let rule = ".postio-senders-sheet .postio-body {"@ + light + tail;
        assert("\n."@ + SENDERS_SHEET_CLASS@ + " .postio-body {"@ =~= "\n"@
            + ".postio-senders-sheet .postio-body {"@) by {
            reveal_strlit("\n.");
            reveal_strlit("postio-senders-sheet");
            reveal_strlit(" .postio-body {");
            reveal_strlit("\n");
            reveal_strlit(".postio-senders-sheet .postio-body {");
        }
        assert(theirs =~= (plain + "\n"@) + rule + none);
        lemma_within(plain + "\n"@, rule, none);
    }
    lemma_within(" class=\""@, SENDERS_SHEET_CLASS@, "\""@);
}

/// A document carries its sheet, and a body its scope: what a sender sent
/// stands whole in a surface that ends where it does.
pub proof fn lemma_what_a_document_carries(
    content: Seq<char>,
    remote: RemoteImages,
    sheet: Sheet,
    styles: Stylesheets<'_>,
    attribute: Seq<char>,
    scope: Seq<char>,
)
    ensures
        has_text(
            wrapped(content, remote, sheet, styles),
            "<style>"@ + sheet_rules(sheet, styles) + "</style>"@,
        ),
        contained_in(content, attribute, None) == "<div class=\"postio-body\">"@ + content
            + "</div>"@,
        has_prefix(
            contained_in(content, attribute, Some(scope)),
            "<div class=\"postio-body\" "@ + attribute + "=\""@ + escaped(scope) + "\">"@ + content,
        ),
        contained_in(content, attribute, Some(scope)).len() == ("<div class=\"postio-body\" "@
            + attribute + "=\""@ + escaped(scope) + "\">"@ + content).len() + "</div>"@.len(),
{
    let whole = wrapped(content, remote, sheet, styles);
    let before = "<!DOCTYPE html>\n<html"@ + root_class(sheet)
        + "><head>\n<meta charset=\"utf-8\">\n<meta http-equiv=\"Content-Security-Policy\" content=\""@
        + policy(remote);
    assert("\">\n<style>"@ =~= "\">\n"@ + "<style>"@) by {
        reveal_strlit("\">\n<style>");
        reveal_strlit("\">\n");
        reveal_strlit("<style>");
    }
    assert("</style>\n</head><body>"@ =~= "</style>"@ + "\n</head><body>"@) by {
        reveal_strlit("</style>\n</head><body>");
        reveal_strlit("</style>");
        reveal_strlit("\n</head><body>");
    }
    let style = "<style>"@ + sheet_rules(sheet, styles) + "</style>"@;
    let after = "\n</head><body>"@ + content + "</body></html>"@;
    assert(whole =~= (before + "\">\n"@) + style + after);
    lemma_within(before + "\">\n"@, style, after);
    let bounded = contained_in(content, attribute, Some(scope));
    let inside = "<div class=\"postio-body\" "@ + attribute + "=\""@ + escaped(scope) + "\">"@
        + content;
    assert(bounded.subrange(0, inside.len() as int) =~= inside);
}

/// The notice says how many pictures were held back and how many beacons, of
/// each only where there were any; and nothing where there was neither.
pub proof fn lemma_notice_says_both_counts(held: HeldBack)
    ensures
        held_back_summary(held).len() == 0 <==> held.remote_images == 0 && held.trackers == 0,
        held.remote_images > 0 ==> has_prefix(
            held_back_summary(held),
            decimal(held.remote_images as nat) + " remote image"@,
        ),
        held.trackers > 0 ==> has_text(
            held_back_summary(held),
            decimal(held.trackers as nat) + " tracker"@,
        ),
        held.remote_images > 0 && held.trackers == 0 ==> held_back_summary(held) == decimal(
            held.remote_images as nat,
        ) + (if held.remote_images == 1 {
            " remote image"@
        } else {
            " remote images"@
        }) + " blocked"@,
        held.remote_images == 0 && held.trackers > 0 ==> held_back_summary(held) == decimal(
            held.trackers as nat,
        ) + (if held.trackers == 1 {
            " tracker"@
        } else {
            " trackers"@
        }) + " blocked"@,
{
    reveal_strlit("1 remote image");
    reveal_strlit(" remote images");
    reveal_strlit(" remote image");
    reveal_strlit("1 tracker");
    reveal_strlit(" trackers");
    reveal_strlit(" tracker");
    reveal_strlit(" blocked");
    assert(decimal(1) =~= seq!['1']);
    let said = held_back_summary(held);
    let images = so_many(held.remote_images as nat, "1 remote image"@, " remote images"@);
    let beacons = so_many(held.trackers as nat, "1 tracker"@, " trackers"@);
    assert(images =~= decimal(held.remote_images as nat) + (if held.remote_images == 1 {
        " remote image"@
    } else {
        " remote images"@
    }));
    assert(beacons =~= decimal(held.trackers as nat) + (if held.trackers == 1 {
        " tracker"@
    } else {
        " trackers"@
    }));
    if held.remote_images > 0 {
        let start = decimal(held.remote_images as nat) + " remote image"@;
        assert(said.subrange(0, start.len() as int) =~= start);
    }
    if held.trackers > 0 {
        let none: Seq<char> = Seq::empty();
        let ahead = if held.remote_images > 0 {
            images + " and "@
        } else {
            none
        };
        let start = decimal(held.trackers as nat) + " tracker"@;
        let rest = (if held.trackers == 1 {
            none
        } else {
            seq!['s']
        }) + " blocked"@;
        assert(said =~= ahead + start + rest);
        lemma_within(ahead, start, rest);
    }
}

} // verus!
