//! The document the composer edits in.
//!
//! The editing surface's answer to [`crate::reader::document`], and built the
//! same way for the same reason: toolkit-free, so every frontend inherits one
//! answer. Everything visual comes from the reader's generated palette: a
//! colour has one source.
use vstd::prelude::*;
use crate::reader::document::{ground_of, reader_ground, DARK_BLOCK};
use crate::text::{chars_of, decimal, decimal_of, find_char, find_chars, find_from, first_index};
use crate::text::{lemma_first_and_last, occurs_at};
use crate::text::{last_index, lemma_find, parted, rfind_char, split_once, text_of, text_opt};

verus! {

/// A fixed, non-`http(s)` base, so edited content is never same-origin with
/// anything real.
pub const EDITOR_BASE_URI: &'static str = "postio-editor:///";

/// The content policy the editing shell carries.
///
/// Deliberately **not** shared with the reader's: a shared function with a
/// flag would hide the one difference that matters inside a parameter.
pub const EDITOR_CSP: &'static str =
    "default-src 'none'; style-src 'unsafe-inline'; img-src postio-cid:";

/// The class the reader gives a foldable quote, and therefore the class the
/// editor gives one.
pub const QUOTE_CLASS: &'static str = "postio-quote";

/// The attribute a reply quote is marked with.
pub const QUOTED_MARKER: &'static str = "data-postio-quoted";

/// How the surface is drawn: the numbers a frontend owns and this module does
/// not guess.
#[derive(Clone, Copy, Debug, PartialEq, Eq, Structural)]
pub struct Presentation {
    /// Whether the dark palette applies.
    pub dark: bool,
    /// Body text size in CSS pixels, from the application's own setting.
    pub text_size: u32,
    /// Vertical padding, which is what density means on a surface with one
    /// column and no rows.
    pub padding: u32,
}

impl Default for Presentation {
    fn default() -> (out: Self)
        ensures
            out == (Presentation { dark: false, text_size: 15, padding: 12 }),
    {
        Presentation { dark: false, text_size: 15, padding: 12 }
    }
}

/// The stylesheets the editor is dressed in, as the application compiles them
/// in.
#[derive(Clone, Copy, Debug, PartialEq, Eq)]
pub struct EditorStylesheets<'a> {
    /// The generated token palette, light scheme first.
    pub palette: &'a str,
    /// The editor's own rules.
    pub structure: &'a str,
}

// ---------------------------------------------------------------------------
// The sheet
// ---------------------------------------------------------------------------

/// What stands between the first `{` in `s` and the last `}` after it.
pub open spec fn braced(s: Seq<char>) -> Option<Seq<char>> {
    match first_index(s, '{') {
        Some(open) => match last_index(s.skip(open + 1), '}') {
            Some(close) => Some(s.skip(open + 1).take(close)),
            None => None,
        },
        None => None,
    }
}

/// What stands between the first `{` in `s` and the last `}` after it.
fn inside_braces(s: &str) -> (out: Option<String>)
    ensures
        text_opt(out) == braced(s@),
{
    let chars = chars_of(s);
    assert(chars@.skip(0) =~= chars@);
    match find_char(&chars, '{', 0) {
        Some(open) => {
            let rest = chars_of(text_of(&chars, open + 1, chars.len()).as_str());
            assert(rest@ =~= s@.skip(open + 1));
            match rfind_char(&rest, '}') {
                Some(close) => {
                    let out = text_of(&rest, 0, close);
                    assert(out@ =~= s@.skip(open + 1).take(close as int));
                    Some(out)
                },
                None => None,
            }
        },
        None => None,
    }
}

/// The declarations of the dark scheme: the media block wraps one
/// `:root { ... }`, and its body is lifted out.
pub open spec fn dark_declarations(palette: Seq<char>) -> Seq<char> {
    match parted(palette, DARK_BLOCK@) {
        Some(halves) => {
            let body = match braced(halves.1) {
                Some(body) => body,
                None => Seq::empty(),
            };
            match braced(body) {
                Some(declarations) => declarations,
                None => body,
            }
        },
        None => Seq::empty(),
    }
}

/// The dark half of the palette, restated so it applies without the engine
/// agreeing about the scheme.
fn dark_tokens_restated(palette: &str) -> (out: String)
    requires
        parted(palette@, DARK_BLOCK@) is Some,
    ensures
        out@ == "\n:root {"@ + dark_declarations(palette@) + "}\n"@,
{
    let dark = match split_once(palette, DARK_BLOCK) {
        Some(halves) => halves.1,
        None => String::new(),
    };
    let body = match inside_braces(dark.as_str()) {
        Some(body) => body,
        None => {
            let none = String::new();
            assert(none@ =~= Seq::<char>::empty());
            none
        },
    };
    let inner = match inside_braces(body.as_str()) {
        Some(declarations) => declarations,
        None => body,
    };
    let mut out = "\n:root {".to_owned();
    out.append(inner.as_str());
    out.append("}\n");
    out
}

/// The editor's sheet.
pub open spec fn editor_rules(
    presentation: Presentation,
    styles: EditorStylesheets<'_>,
) -> Seq<char> {
    styles.palette@ + styles.structure@ + "\n:root {\n  --e-text-size: "@ + decimal(
        presentation.text_size as nat,
    ) + "px;\n  --e-pad: "@ + decimal(presentation.padding as nat) + "px;\n}\n"@ + (
    if presentation.dark {
        "\n:root {"@ + dark_declarations(styles.palette@) + "}\n"@
    } else {
        Seq::empty()
    })
}

/// The sheet, tokens and all.
///
/// The variable block comes after the palette and the rules that read it, so
/// the frontend's own numbers win. The palette switches on the engine's own
/// idea of the scheme; restating the dark block is what makes the
/// application's choice win -- and is why a scheme change is a new sheet
/// rather than a new document, which would lose the caret and the undo
/// history.
pub fn editor_css(presentation: Presentation, styles: EditorStylesheets<'_>) -> (out: String)
    requires
        presentation.dark ==> parted(styles.palette@, DARK_BLOCK@) is Some,
    ensures
        out@ == editor_rules(presentation, styles),
{
    let mut css = styles.palette.to_owned();
    css.append(styles.structure);
    css.append("\n:root {\n  --e-text-size: ");
    css.append(decimal_of(presentation.text_size as u64).as_str());
    css.append("px;\n  --e-pad: ");
    css.append(decimal_of(presentation.padding as u64).as_str());
    css.append("px;\n}\n");
    if presentation.dark {
        css.append(dark_tokens_restated(styles.palette).as_str());
    }
    assert(css@ =~= editor_rules(presentation, styles));
    css
}

/// The ground colour for the scheme, as the palette spells it: the reader's
/// own.
///
/// A frontend needs this outside the document as well as inside it: a web view
/// between one document and the next has nothing to paint from.
pub fn editor_ground(palette: &str, dark: bool) -> (out: String)
    requires
        ground_of(palette@, dark) is Some,
    ensures
        ground_of(palette@, dark) == Some(out@),
{
    reader_ground(palette, dark)
}

// ---------------------------------------------------------------------------
// Folding
// ---------------------------------------------------------------------------

/// How a reply quote starts.
pub open spec fn quote_start() -> Seq<char> {
    "<blockquote "@ + QUOTED_MARKER@
}

/// A run of the content: a reply quote, or what stands around them.
pub struct Run {
    /// Whether it is a reply quote.
    pub quote: bool,
    /// Its markup.
    pub markup: Seq<char>,
}

/// Where the first reply quote in `s` starts and ends, when it is closed.
pub open spec fn first_quote(s: Seq<char>) -> Option<(int, int)> {
    match find_from(s, quote_start(), 0) {
        Some(at) => match find_from(s, "</blockquote>"@, at) {
            Some(close) => Some((at, (close + "</blockquote>"@.len()) as int)),
            None => None,
        },
        None => None,
    }
}

/// The content as runs: each reply quote, and what stands around it.
pub open spec fn runs(s: Seq<char>) -> Seq<Run>
    decreases s.len(),
{
    match first_quote(s) {
        Some((at, end)) => if 0 <= at < end <= s.len() {
            seq![
                Run { quote: false, markup: s.take(at) },
                Run { quote: true, markup: s.subrange(at, end) },
            ] + runs(s.skip(end))
        } else {
            seq![Run { quote: false, markup: s }]
        },
        None => seq![Run { quote: false, markup: s }],
    }
}

/// A quote in the foldable shape.
pub open spec fn folded(markup: Seq<char>) -> Seq<char> {
    "<details class=\""@ + QUOTE_CLASS@
        + "\"><summary contenteditable=\"false\">Quoted message</summary>"@ + markup
        + "</details>"@
}

/// The runs one after another, each quote folded.
pub open spec fn dressed(runs: Seq<Run>) -> Seq<char>
    decreases runs.len(),
{
    if runs.len() == 0 {
        Seq::empty()
    } else {
        (if runs[0].quote {
            folded(runs[0].markup)
        } else {
            runs[0].markup
        }) + dressed(runs.skip(1))
    }
}

/// The runs one after another, as they are.
pub open spec fn bare(runs: Seq<Run>) -> Seq<char>
    decreases runs.len(),
{
    if runs.len() == 0 {
        Seq::empty()
    } else {
        runs[0].markup + bare(runs.skip(1))
    }
}

/// Folding is presentation and nothing else: taken out of their folds, the
/// runs are the content, every character of it once.
pub proof fn lemma_folding_only_wraps(s: Seq<char>)
    ensures
        bare(runs(s)) == s,
    decreases s.len(),
{
    match first_quote(s) {
        Some((at, end)) => {
            if 0 <= at < end <= s.len() {
                let rest = s.skip(end);
                lemma_folding_only_wraps(rest);
                let all = runs(s);
                assert(all.skip(1).skip(1) =~= runs(rest));
                assert(all.skip(1)[0] == all[1]);
                assert(bare(all.skip(1)) == all[1].markup + bare(runs(rest)));
                assert(s.take(at) + (s.subrange(at, end) + rest) =~= s);
            } else {
                lemma_one_run(s);
            }
        },
        None => lemma_one_run(s),
    }
}

proof fn lemma_one_run(s: Seq<char>)
    ensures
        bare(seq![Run { quote: false, markup: s }]) == s,
        dressed(seq![Run { quote: false, markup: s }]) == s,
{
    let one = seq![Run { quote: false, markup: s }];
    let none: Seq<Run> = Seq::empty();
    assert(one.skip(1) =~= none);
    assert(bare(none) =~= Seq::<char>::empty());
    assert(dressed(none) =~= Seq::<char>::empty());
    assert(bare(one) =~= s);
    assert(dressed(one) =~= s);
}

/// A quote the user made is their own writing, and is not folded: content
/// without a marked quote stays as it is.
pub proof fn lemma_unmarked_is_kept(s: Seq<char>)
    requires
        !crate::text::has_text(s, quote_start()),
    ensures
        dressed(runs(s)) == s,
{
    lemma_find(s, quote_start(), 0);
    lemma_one_run(s);
}

proof fn lemma_first_quote(s: Seq<char>)
    ensures
        first_quote(s) matches Some((at, end)) ==> 0 <= at < end <= s.len(),
{
    lemma_find(s, quote_start(), 0);
    reveal_strlit("</blockquote>");
    match find_from(s, quote_start(), 0) {
        Some(at) => lemma_find(s, "</blockquote>"@, at),
        None => {},
    }
}

/// Wraps each reply quote in the reader's foldable shape.
///
/// A presentation concern and nothing else: what is sent is a plain
/// `<blockquote>`; what is *edited* is that blockquote inside a `<details>`
/// the parser walks straight through on the way back. A quote that is never
/// closed is left as it is.
///
/// Closed by default -- no `open` attribute -- so a reply opens with the caret
/// above a folded quote rather than below a screenful of someone else's mail.
pub fn fold_quotes(content: &str) -> (out: String)
    ensures
        out@ == dressed(runs(content@)),
{
    let chars = chars_of(content);
    let mut start = "<blockquote ".to_owned();
    start.append(QUOTED_MARKER);
    let needle = chars_of(start.as_str());
    let close = chars_of("</blockquote>");
    let mut out = String::new();
    let mut rest: Vec<char> = chars;
    let mut more = true;
    let ghost all = content@;
    assert(out@ + dressed(runs(rest@)) =~= dressed(runs(all)));
    while more
        invariant
            needle@ == quote_start(),
            close@ == "</blockquote>"@,
            more ==> out@ + dressed(runs(rest@)) == dressed(runs(all)),
            !more ==> out@ == dressed(runs(all)),
        decreases
                rest@.len(),
                if more {
                    1int
                } else {
                    0int
                },
    {
        let ghost before = rest@;
        let ghost done = out@;
        proof {
            lemma_first_quote(before);
        }
        let found = match find_chars(&rest, &needle, 0) {
            Some(at) => match find_chars(&rest, &close, at) {
                Some(end) => {
                    assert(end + close@.len() <= rest.len());
                    Some((at, end + close.len()))
                },
                None => None,
            },
            None => None,
        };
        match found {
            Some((at, end)) => {
                assert(first_quote(before) == Some((at as int, end as int)));
                let plain = text_of(&rest, 0, at);
                let quote = text_of(&rest, at, end);
                let tail = text_of(&rest, end, rest.len());
                out.append(plain.as_str());
                out.append("<details class=\"");
                out.append(QUOTE_CLASS);
                out.append("\"><summary contenteditable=\"false\">Quoted message</summary>");
                out.append(quote.as_str());
                out.append("</details>");
                rest = chars_of(tail.as_str());
                proof {
                    let all_runs = runs(before);
                    assert(plain@ =~= before.take(at as int));
                    assert(rest@ =~= before.skip(end as int));
                    assert(all_runs.skip(1).skip(1) =~= runs(rest@));
                    assert(all_runs.skip(1)[0] == all_runs[1]);
                    assert(dressed(all_runs.skip(1)) == folded(quote@) + dressed(runs(rest@)));
                    assert(dressed(all_runs) == plain@ + (folded(quote@) + dressed(runs(rest@))));
                    assert(out@ =~= done + plain@ + folded(quote@));
                    assert(out@ + dressed(runs(rest@)) =~= done + dressed(all_runs));
                }
            },
            None => {
                assert(first_quote(before) is None);
                proof {
                    lemma_one_run(before);
                }
                let tail = text_of(&rest, 0, rest.len());
                assert(tail@ =~= before);
                out.append(tail.as_str());
                more = false;
            },
        }
    }
    out
}

/// The document the editing web view loads.
pub open spec fn editor_document(
    content: Seq<char>,
    presentation: Presentation,
    styles: EditorStylesheets<'_>,
) -> Seq<char> {
    "<!DOCTYPE html>\n<html><head>\n<meta charset=\"utf-8\">\n<meta http-equiv=\"Content-Security-Policy\" content=\""@
        + EDITOR_CSP@ + "\">\n<style>"@ + editor_rules(presentation, styles)
        + "</style>\n</head><body contenteditable=\"true\">"@ + dressed(runs(content))
        + "</body></html>"@
}

/// The whole document the editing web view loads.
///
/// `content` is the draft's body markup, already narrowed -- nothing here
/// sanitises, and nothing here may be the first thing that would have.
pub fn wrap_document(
    content: &str,
    presentation: Presentation,
    styles: EditorStylesheets<'_>,
) -> (out: String)
    requires
        presentation.dark ==> parted(styles.palette@, DARK_BLOCK@) is Some,
    ensures
        out@ == editor_document(content@, presentation, styles),
{
    let mut out =
        "<!DOCTYPE html>\n<html><head>\n<meta charset=\"utf-8\">\n<meta http-equiv=\"Content-Security-Policy\" content=\"".to_owned();
    out.append(EDITOR_CSP);
    out.append("\">\n<style>");
    out.append(editor_css(presentation, styles).as_str());
    out.append("</style>\n</head><body contenteditable=\"true\">");
    out.append(fold_quotes(content).as_str());
    out.append("</body></html>");
    out
}

// ---------------------------------------------------------------------------
// Laws
// ---------------------------------------------------------------------------

/// The dark scheme only adds to the sheet, at its end, where it wins; and the
/// sheet says the numbers it was given, after the palette and the rules that
/// read them.
pub proof fn lemma_dark_comes_last(size: u32, padding: u32, styles: EditorStylesheets<'_>)
    ensures
        ({
            let light = editor_rules(
                Presentation { dark: false, text_size: size, padding },
                styles,
            );
            let dark = editor_rules(Presentation { dark: true, text_size: size, padding }, styles);
            &&& dark == light + "\n:root {"@ + dark_declarations(styles.palette@) + "}\n"@
            &&& light == styles.palette@ + styles.structure@ + "\n:root {\n  --e-text-size: "@
                + decimal(size as nat) + "px;\n  --e-pad: "@ + decimal(padding as nat)
                + "px;\n}\n"@
        }),
{
    let light = editor_rules(Presentation { dark: false, text_size: size, padding }, styles);
    let dark = editor_rules(Presentation { dark: true, text_size: size, padding }, styles);
    assert(light =~= styles.palette@ + styles.structure@ + "\n:root {\n  --e-text-size: "@
        + decimal(size as nat) + "px;\n  --e-pad: "@ + decimal(padding as nat) + "px;\n}\n"@);
    assert(dark =~= light + "\n:root {"@ + dark_declarations(styles.palette@) + "}\n"@);
}

proof fn lemma_braced(before: Seq<char>, inside: Seq<char>, after: Seq<char>)
    requires
        !before.contains('{'),
        !after.contains('}'),
    ensures
        braced(before + seq!['{'] + inside + seq!['}'] + after) == Some(inside),
{
    let s = before + seq!['{'] + inside + seq!['}'] + after;
    let open = before.len() as int;
    lemma_first_and_last(s, '{');
    assert(s[open] == '{');
    assert forall|i: int| 0 <= i < open implies #[trigger] s[i] != '{' by {
        assert(before[i] == s[i]);
    }
    assert(first_index(s, '{') == Some(open));
    let rest = s.skip(open + 1);
    assert(rest =~= inside + seq!['}'] + after);
    let close = inside.len() as int;
    lemma_first_and_last(rest, '}');
    assert(rest[close] == '}');
    assert forall|i: int| close < i < rest.len() implies #[trigger] rest[i] != '}' by {
        assert(after[i - close - 1] == rest[i]);
    }
    assert(last_index(rest, '}') == Some(close));
    assert(rest.take(close) =~= inside);
}

/// What is restated of the dark scheme is what stands in the innermost of its
/// two pairs of braces.
pub proof fn lemma_dark_declarations(
    light: Seq<char>,
    outer: Seq<char>,
    inner: Seq<char>,
    declarations: Seq<char>,
    closing: Seq<char>,
    end: Seq<char>,
)
    requires
        !outer.contains('{'),
        !inner.contains('{'),
        !closing.contains('}'),
        !end.contains('}'),
        forall|i: int|
            0 <= i < light.len() ==> !#[trigger] occurs_at(
                light + DARK_BLOCK@ + (outer + seq!['{'] + (inner + seq!['{'] + declarations
                    + seq!['}'] + closing) + seq!['}'] + end),
                DARK_BLOCK@,
                i,
            ),
    ensures
        dark_declarations(
            light + DARK_BLOCK@ + (outer + seq!['{'] + (inner + seq!['{'] + declarations + seq!['}']
                + closing) + seq!['}'] + end),
        ) == declarations,
{
    let body = inner + seq!['{'] + declarations + seq!['}'] + closing;
    let dark = outer + seq!['{'] + body + seq!['}'] + end;
    let palette = light + DARK_BLOCK@ + dark;
    let at = light.len() as int;
    lemma_find(palette, DARK_BLOCK@, 0);
    assert(palette.subrange(at, at + DARK_BLOCK@.len()) =~= DARK_BLOCK@);
    assert(occurs_at(palette, DARK_BLOCK@, at));
    assert(find_from(palette, DARK_BLOCK@, 0) == Some(at));
    assert(palette.skip(at + DARK_BLOCK@.len()) =~= dark);
    lemma_braced(outer, body, end);
    lemma_braced(inner, declarations, closing);
}

/// The first reply quote is folded as it stands, what is before it stays, and
/// what is after it is dressed in the same way; one that is never closed
/// stays, with everything after it.
pub proof fn lemma_quotes_fold_in_turn(before: Seq<char>, inside: Seq<char>, after: Seq<char>)
    requires
        forall|i: int|
            0 <= i < before.len() ==> !#[trigger] occurs_at(
                before + (quote_start() + inside + "</blockquote>"@) + after,
                quote_start(),
                i,
            ),
        forall|i: int|
            before.len() <= i < before.len() + quote_start().len() + inside.len()
                ==> !#[trigger] occurs_at(
                before + (quote_start() + inside + "</blockquote>"@) + after,
                "</blockquote>"@,
                i,
            ),
    ensures
        dressed(runs(before + (quote_start() + inside + "</blockquote>"@) + after)) == before
            + folded(quote_start() + inside + "</blockquote>"@) + dressed(runs(after)),
{
    reveal_strlit("</blockquote>");
    let close = "</blockquote>"@;
    let quote = quote_start() + inside + close;
    let s = before + quote + after;
    let at = before.len() as int;
    let shut = at + quote_start().len() + inside.len();
    let end = at + quote.len();
    lemma_find(s, quote_start(), 0);
    assert(s.subrange(at, at + quote_start().len()) =~= quote_start());
    assert(occurs_at(s, quote_start(), at));
    assert(find_from(s, quote_start(), 0) == Some(at));
    lemma_find(s, close, at);
    assert(s.subrange(shut, shut + close.len()) =~= close);
    assert(occurs_at(s, close, shut));
    assert(find_from(s, close, at) == Some(shut));
    assert(first_quote(s) == Some((at, end)));
    assert(s.take(at) =~= before);
    assert(s.subrange(at, end) =~= quote);
    assert(s.skip(end) =~= after);
    let all = runs(s);
    assert(all.skip(1).skip(1) =~= runs(after));
    assert(all.skip(1)[0] == all[1]);
    assert(dressed(all.skip(1)) == folded(quote) + dressed(runs(after)));
    assert(dressed(all) =~= before + folded(quote) + dressed(runs(after)));
}

/// A reply quote that is never closed is left as it is.
pub proof fn lemma_unclosed_is_kept(s: Seq<char>)
    requires
        !crate::text::has_text(s, "</blockquote>"@),
    ensures
        dressed(runs(s)) == s,
{
    lemma_find(s, quote_start(), 0);
    if let Some(at) = find_from(s, quote_start(), 0) {
        lemma_find(s, "</blockquote>"@, at);
    }
    lemma_one_run(s);
}

} // verus!
