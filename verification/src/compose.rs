//! What the composer says about itself, and the scripts its editing surface
//! runs.
//!
//! The words are here so frontends cannot differ: a claim about what leaves
//! is one to make identically everywhere.
use vstd::prelude::*;
use crate::editor::markdown::{sequence_table, sequences, SequenceView, Trigger};
use crate::text::{decimal, decimal_of, join, joined, replace_char, replaced_char, same_text, text_opt};
use crate::text::{lemma_replaced_one_by_one, texts};

verus! {

/// The MIME shape an outgoing message will have.
///
/// **The plain part is not optional.** Rich mail sends `text/html` *and* a
/// `text/plain` alternative, always. Plain mail is wrapped at 72 columns and
/// flowed, so it reads correctly whether the receiving client rewraps it or
/// not.
pub fn outgoing_shape(rich: bool) -> (out: String)
    ensures
        out@ == (if rich {
            "html + text/plain"@
        } else {
            "text/plain, format=flowed"@
        }),
{
    if rich {
        "html + text/plain".to_owned()
    } else {
        "text/plain, format=flowed".to_owned()
    }
}

// ---------------------------------------------------------------------------
// The editing bridge
// ---------------------------------------------------------------------------

/// A marker as it is written inside a double-quoted literal.
pub open spec fn quoted_marker(marker: Seq<char>) -> Seq<char> {
    replaced_char(replaced_char(marker, '\\', "\\\\"@), '"', "\\\""@)
}

/// How the script names a trigger.
pub open spec fn trigger_name(trigger: Trigger) -> Seq<char> {
    match trigger {
        Trigger::LinePrefix => "line_prefix"@,
        Trigger::Wrapping => "wrapping"@,
    }
}

/// One row of the table, as a line of script.
pub open spec fn table_row(sequence: SequenceView) -> Seq<char> {
    "    { marker: \""@ + quoted_marker(sequence.marker) + "\", command: \""@ + sequence.command
        + "\", trigger: \""@ + trigger_name(sequence.trigger) + "\" },\n"@
}

/// The rows of the table, one after another.
pub open spec fn table_rows(table: Seq<SequenceView>) -> Seq<char>
    decreases table.len(),
{
    if table.len() == 0 {
        Seq::empty()
    } else {
        table_rows(table.drop_last()) + table_row(table.last())
    }
}

/// The table, as a line of script.
pub open spec fn table_script() -> Seq<char> {
    "const POSTIO_MARKDOWN = [\n"@ + table_rows(sequence_table()) + "];\n"@
}

/// `POSTIO_MARKDOWN`, as a JavaScript literal.
///
/// Every marker is punctuation -- but they are being written into source, so
/// they are escaped rather than trusted to stay that way.
pub fn markdown_table_js() -> (out: String)
    ensures
        out@ == table_script(),
{
    let table = sequences();
    let ghost views = sequence_table();
    let mut rows = String::new();
    let mut i: usize = 0;
    assert(views.take(0) =~= Seq::<SequenceView>::empty());
    assert(rows@ =~= table_rows(views.take(0)));
    while i < table.len()
        invariant
            views == sequence_table(),
            table@.len() == views.len(),
            forall|k: int| 0 <= k < table@.len() ==> (#[trigger] table@[k])@ == views[k],
            i <= table@.len(),
            rows@ == table_rows(views.take(i as int)),
        decreases table@.len() - i,
    {
        let ghost done = rows@;
        let sequence = table[i];
        proof {
            assert(sequence@ == views[i as int]);
            assert(views.take(i + 1).drop_last() =~= views.take(i as int));
        }
        rows.append("    { marker: \"");
        let marker = replace_char(
            replace_char(sequence.marker, '\\', "\\\\").as_str(),
            '"',
            "\\\"",
        );
        rows.append(marker.as_str());
        rows.append("\", command: \"");
        rows.append(sequence.command);
        rows.append("\", trigger: \"");
        match sequence.trigger {
            Trigger::LinePrefix => rows.append("line_prefix"),
            Trigger::Wrapping => rows.append("wrapping"),
        }
        rows.append("\" },\n");
        assert(rows@ =~= done + table_row(sequence@));
        i += 1;
    }
    assert(views.take(views.len() as int) =~= views);
    let mut out = "const POSTIO_MARKDOWN = [\n".to_owned();
    out.append(rows.as_str());
    out.append("];\n");
    out
}

/// The bridge as a frontend should run it: the markdown table, then the body.
///
/// `body` alone is not runnable: it reads `POSTIO_MARKDOWN` and does not
/// define it, because a hand-written copy of the table is a copy that drifts.
pub fn editor_script(body: &str) -> (out: String)
    ensures
        out@ == table_script() + body@,
{
    let mut out = markdown_table_js();
    out.append(body);
    out
}

/// What a mark does to the selection.
pub open spec fn mark_body(command: Seq<char>) -> Option<Seq<char>> {
    if command == "bold"@ {
        Some("document.execCommand('bold');"@)
    } else if command == "italic"@ {
        Some("document.execCommand('italic');"@)
    } else if command == "bullet_list"@ {
        Some("document.execCommand('insertUnorderedList');"@)
    } else if command == "numbered_list"@ {
        Some("document.execCommand('insertOrderedList');"@)
    } else if command == "quote_block"@ {
        Some(
            "if (document.queryCommandValue('formatBlock') === 'blockquote') { document.execCommand('formatBlock', false, 'p'); } else { document.execCommand('formatBlock', false, 'blockquote'); }"@,
        )
    } else {
        None
    }
}

/// A script that ends by raising the event the host records on.
pub open spec fn with_event(body: Seq<char>) -> Seq<char> {
    body + " document.dispatchEvent(new Event('input'));"@
}

/// The script that applies one of the composer's marks to the selection.
///
/// `None` for a command that is not one of the marks. `formatBlock` does not
/// toggle, so the toggle of a quote is written here. Every script ends by
/// dispatching `input`: a duplicate event is absorbed as a no-change; a
/// missing one loses the edit.
pub fn mark_script(command: &str) -> (out: Option<String>)
    ensures
        text_opt(out) == (match mark_body(command@) {
            Some(body) => Some(with_event(body)),
            None => None,
        }),
{
    let body = if same_text(command, "bold") {
        "document.execCommand('bold');"
    } else if same_text(command, "italic") {
        "document.execCommand('italic');"
    } else if same_text(command, "bullet_list") {
        "document.execCommand('insertUnorderedList');"
    } else if same_text(command, "numbered_list") {
        "document.execCommand('insertOrderedList');"
    } else if same_text(command, "quote_block") {
        "if (document.queryCommandValue('formatBlock') === 'blockquote') { document.execCommand('formatBlock', false, 'p'); } else { document.execCommand('formatBlock', false, 'blockquote'); }"
    } else {
        return None;
    };
    let mut out = body.to_owned();
    out.append(" document.dispatchEvent(new Event('input'));");
    Some(out)
}

/// An address as it is written inside a single-quoted literal.
pub open spec fn quoted_href(href: Seq<char>) -> Seq<char> {
    replaced_char(replaced_char(href, '\\', "\\\\"@), '\'', "\\'"@)
}

/// The script that turns the selection into a link to `href`.
///
/// `None` when `href` is not something a message may link to, which `linkable`
/// says: the rule is applied *here*, before the document is touched, so the
/// composer can say so rather than have the link silently disappear at the
/// next parse.
pub fn link_script(href: &str, linkable: bool) -> (out: Option<String>)
    ensures
        text_opt(out) == (if linkable {
            Some(
                with_event(
                    "document.execCommand('createLink', false, '"@ + quoted_href(href@) + "');"@,
                ),
            )
        } else {
            None
        }),
{
    if !linkable {
        return None;
    }
    let mut out = "document.execCommand('createLink', false, '".to_owned();
    let escaped = replace_char(replace_char(href, '\\', "\\\\").as_str(), '\'', "\\'");
    out.append(escaped.as_str());
    out.append("');");
    out.append(" document.dispatchEvent(new Event('input'));");
    Some(out)
}

/// Inside a single-quoted literal `s` never closes it: every quote stands
/// behind a backslash, and so does every backslash that does not escape.
pub open spec fn stays_inside(s: Seq<char>) -> bool
    decreases s.len(),
{
    if s.len() == 0 {
        true
    } else if s[0] == '\\' {
        s.len() >= 2 && stays_inside(s.skip(2))
    } else if s[0] == '\'' {
        false
    } else {
        stays_inside(s.skip(1))
    }
}

proof fn lemma_stays_inside_joins(a: Seq<char>, b: Seq<char>)
    requires
        stays_inside(a),
        stays_inside(b),
    ensures
        stays_inside(a + b),
    decreases a.len(),
{
    if a.len() == 0 {
        assert(a + b =~= b);
    } else if a[0] == '\\' {
        lemma_stays_inside_joins(a.skip(2), b);
        assert((a + b).skip(2) =~= a.skip(2) + b);
    } else {
        lemma_stays_inside_joins(a.skip(1), b);
        assert((a + b).skip(1) =~= a.skip(1) + b);
    }
}

proof fn lemma_replaced_joins(a: Seq<char>, b: Seq<char>, c: char, with: Seq<char>)
    ensures
        replaced_char(a + b, c, with) == replaced_char(a, c, with) + replaced_char(b, c, with),
    decreases b.len(),
{
    if b.len() == 0 {
        assert(a + b =~= a);
        assert(replaced_char(a, c, with) + replaced_char(b, c, with) =~= replaced_char(a, c, with));
    } else {
        lemma_replaced_joins(a, b.drop_last(), c, with);
        assert((a + b).drop_last() =~= a + b.drop_last());
        assert((a + b).last() == b.last());
        assert(replaced_char(a + b, c, with) =~= replaced_char(a, c, with) + replaced_char(
            b,
            c,
            with,
        ));
    }
}

/// A quote in an address cannot close the script literal it is written into.
pub proof fn lemma_href_stays_inside(href: Seq<char>)
    ensures
        stays_inside(quoted_href(href)),
    decreases href.len(),
{
    reveal_strlit("\\\\");
    reveal_strlit("\\'");
    if href.len() > 0 {
        let rest = href.drop_last();
        let c = href.last();
        lemma_href_stays_inside(rest);
        let once = replaced_char(rest, '\\', "\\\\"@);
        let one = if c == '\\' {
            "\\\\"@
        } else {
            seq![c]
        };
        assert(replaced_char(href, '\\', "\\\\"@) =~= once + one);
        lemma_replaced_joins(once, one, '\'', "\\'"@);
        let last = replaced_char(one, '\'', "\\'"@);
        let none: Seq<char> = Seq::empty();
        assert(replaced_char(none, '\'', "\\'"@) =~= none);
        if c == '\\' {
            assert(one.drop_last() =~= seq!['\\']);
            assert(one.drop_last().drop_last() =~= none);
            assert(replaced_char(one.drop_last(), '\'', "\\'"@) =~= seq!['\\']);
            assert(last =~= seq!['\\', '\\']);
        } else if c == '\'' {
            assert(one.drop_last() =~= none);
            assert(last =~= seq!['\\', '\'']);
        } else {
            assert(one.drop_last() =~= none);
            assert(last =~= seq![c]);
        }
        assert(stays_inside(none));
        if last.len() == 2 {
            assert(last.skip(2) =~= none);
        } else {
            assert(last.skip(1) =~= none);
        }
        assert(stays_inside(last));
        lemma_stays_inside_joins(quoted_href(rest), last);
    } else {
        assert(quoted_href(href) =~= href);
    }
}

// ---------------------------------------------------------------------------
// Recipients
// ---------------------------------------------------------------------------

/// One field's count, nothing when it is empty.
pub open spec fn field_count(count: nat, name: Seq<char>) -> Seq<Seq<char>> {
    if count > 0 {
        seq![decimal(count) + name]
    } else {
        Seq::empty()
    }
}

/// How many recipients there are, by field.
pub open spec fn recipient_counts(to: nat, cc: nat, bcc: nat) -> Option<Seq<char>> {
    if to + cc + bcc <= 1 {
        None
    } else {
        Some(
            joined(
                field_count(to, " To"@) + field_count(cc, " Cc"@) + field_count(bcc, " Bcc"@),
                ", "@,
            ),
        )
    }
}

/// Adds one field's count.
fn add_count(counted: &mut Vec<String>, count: usize, name: &str)
    ensures
        texts(final(counted)@) == texts(old(counted)@) + field_count(count as nat, name@),
{
    let ghost before = texts(counted@);
    if count > 0 {
        let mut text = decimal_of(count as u64);
        text.append(name);
        counted.push(text);
    }
    assert(texts(counted@) =~= before + field_count(count as nat, name@));
}

/// How many recipients this message has, and on which field.
///
/// **A reply-to-all to a large list looks exactly like a reply until it is
/// sent.** The count says *which field* because "42 recipients" reads very
/// differently from "1 To, 41 Cc". `None` for the ordinary case: a banner that
/// is always there is a banner nobody reads.
pub fn recipient_summary(to: usize, cc: usize, bcc: usize) -> (out: Option<String>)
    requires
        to + cc + bcc <= usize::MAX,
    ensures
        text_opt(out) == recipient_counts(to as nat, cc as nat, bcc as nat),
{
    if to + cc + bcc <= 1 {
        return None;
    }
    let mut counted: Vec<String> = Vec::new();
    assert(texts(counted@) =~= Seq::<Seq<char>>::empty());
    add_count(&mut counted, to, " To");
    add_count(&mut counted, cc, " Cc");
    add_count(&mut counted, bcc, " Bcc");
    assert(texts(counted@) =~= field_count(to as nat, " To"@) + field_count(cc as nat, " Cc"@)
        + field_count(bcc as nat, " Bcc"@));
    Some(join(counted.as_slice(), ", "))
}

// ---------------------------------------------------------------------------
// Laws
// ---------------------------------------------------------------------------

/// What a script reads of the inside of a quoted literal: a backslash stands
/// for the character after it.
pub open spec fn literal_read(s: Seq<char>) -> Seq<char>
    decreases s.len(),
{
    if s.len() == 0 {
        Seq::empty()
    } else if s[0] == '\\' && s.len() >= 2 {
        seq![s[1]] + literal_read(s.skip(2))
    } else {
        seq![s[0]] + literal_read(s.skip(1))
    }
}

/// A script reads an address, and a marker, as they were: escaping leaves
/// nothing out and adds nothing.
pub proof fn lemma_literals_read_back(text: Seq<char>)
    ensures
        literal_read(quoted_href(text)) == text,
        literal_read(quoted_marker(text)) == text,
    decreases text.len(),
{
    reveal_strlit("\\\\");
    reveal_strlit("\\'");
    reveal_strlit("\\\"");
    if text.len() == 0 {
        assert(quoted_href(text) =~= text);
        assert(quoted_marker(text) =~= text);
        assert(literal_read(text) =~= text);
    } else {
        let c = text[0];
        let rest = text.skip(1);
        assert(text =~= seq![c] + rest);
        lemma_literals_read_back(rest);
        assert("\\'"@ =~= seq!['\\', '\'']);
        assert("\\\""@ =~= seq!['\\', '"']);
        lemma_escaped_first(c, rest, '\'', "\\'"@);
        lemma_escaped_first(c, rest, '"', "\\\""@);
        assert(seq![c] + rest =~= text);
    }
}

proof fn lemma_escaped_first(c: char, rest: Seq<char>, quote: char, escaped: Seq<char>)
    requires
        quote != '\\',
        escaped == seq!['\\', quote],
    ensures
        ({
            let all = replaced_char(
                replaced_char(seq![c] + rest, '\\', "\\\\"@),
                quote,
                escaped,
            );
            let later = replaced_char(replaced_char(rest, '\\', "\\\\"@), quote, escaped);
            literal_read(all) == seq![c] + literal_read(later)
        }),
{
    reveal_strlit("\\\\");
    let twice = "\\\\"@;
    assert(twice =~= seq!['\\', '\\']);
    let later = replaced_char(replaced_char(rest, '\\', twice), quote, escaped);
    lemma_replaced_one_by_one(seq![c], rest, '\\', twice, c);
    let one = replaced_char(seq![c], '\\', twice);
    lemma_replaced_one_by_one(one, replaced_char(rest, '\\', twice), quote, escaped, c);
    let first = replaced_char(one, quote, escaped);
    if c == '\\' {
        lemma_replaced_one_by_one(seq!['\\'], seq!['\\'], quote, escaped, '\\');
        assert(one =~= seq!['\\'] + seq!['\\']);
        assert(first =~= seq!['\\', '\\']);
    } else if c == quote {
        assert(first =~= seq!['\\', c]);
    } else {
        assert(first =~= seq![c]);
    }
    let all = first + later;
    if first.len() == 2 {
        assert(all.skip(2) =~= later);
    } else {
        assert(all.skip(1) =~= later);
    }
}

/// Only the composer's marks have a script, and no two have the same.
pub proof fn lemma_marks_have_their_own_script(a: Seq<char>, b: Seq<char>)
    ensures
        mark_body(a) is Some <==> a == "bold"@ || a == "italic"@ || a == "bullet_list"@ || a
            == "numbered_list"@ || a == "quote_block"@,
        mark_body(a) is Some && mark_body(a) == mark_body(b) ==> a == b,
{
    reveal_strlit("document.execCommand('bold');");
    reveal_strlit("document.execCommand('italic');");
    reveal_strlit("document.execCommand('insertUnorderedList');");
    reveal_strlit("document.execCommand('insertOrderedList');");
    reveal_strlit(
        "if (document.queryCommandValue('formatBlock') === 'blockquote') { document.execCommand('formatBlock', false, 'p'); } else { document.execCommand('formatBlock', false, 'blockquote'); }",
    );
    if mark_body(a) is Some && mark_body(a) == mark_body(b) {
        assert(mark_body(a)->0.len() == mark_body(b)->0.len());
    }
}

/// The count says every field that has anybody on it, and no other, in the
/// order they are written; it is there exactly when there is more than one
/// recipient.
pub proof fn lemma_every_field_is_counted(to: nat, cc: nat, bcc: nat)
    ensures
        recipient_counts(to, cc, bcc) is Some <==> to + cc + bcc > 1,
        to + cc + bcc > 1 ==> ({
            let said = recipient_counts(to, cc, bcc)->0;
            let comma = ", "@;
            &&& cc == 0 && bcc == 0 ==> said == decimal(to) + " To"@
            &&& to == 0 && bcc == 0 ==> said == decimal(cc) + " Cc"@
            &&& to == 0 && cc == 0 ==> said == decimal(bcc) + " Bcc"@
            &&& to > 0 && cc > 0 && bcc == 0 ==> said == decimal(to) + " To"@ + comma + (decimal(cc)
                + " Cc"@)
            &&& to > 0 && cc == 0 && bcc > 0 ==> said == decimal(to) + " To"@ + comma + (decimal(bcc)
                + " Bcc"@)
            &&& to == 0 && cc > 0 && bcc > 0 ==> said == decimal(cc) + " Cc"@ + comma + (decimal(bcc)
                + " Bcc"@)
            &&& to > 0 && cc > 0 && bcc > 0 ==> said == decimal(to) + " To"@ + comma + (decimal(cc)
                + " Cc"@) + comma + (decimal(bcc) + " Bcc"@)
        }),
{
    let parts = field_count(to, " To"@) + field_count(cc, " Cc"@) + field_count(bcc, " Bcc"@);
    reveal_with_fuel(joined, 3);
    if parts.len() == 2 {
        assert(parts.drop_last() =~= seq![parts[0]]);
    } else if parts.len() == 3 {
        assert(parts.drop_last() =~= seq![parts[0], parts[1]]);
        assert(parts.drop_last().drop_last() =~= seq![parts[0]]);
    }
}

/// Every sequence that can be typed reaches a mark that has a script.
pub proof fn lemma_every_sequence_reaches_a_mark(i: int)
    requires
        0 <= i < sequence_table().len(),
    ensures
        mark_body(sequence_table()[i].command) is Some,
        sequence_table()[i].trigger is Wrapping <==> sequence_table()[i].command == "bold"@
            || sequence_table()[i].command == "italic"@,
{
    reveal_strlit("bold");
    reveal_strlit("italic");
    reveal_strlit("bullet_list");
    reveal_strlit("numbered_list");
    reveal_strlit("quote_block");
    let command = sequence_table()[i].command;
    assert("bold"@.len() == 4 && "italic"@.len() == 6 && "bullet_list"@.len() == 11
        && "numbered_list"@.len() == 13 && "quote_block"@.len() == 11);
}

/// A script does what it is for, then ends by raising `input`, so no edit goes
/// unrecorded whatever it was.
pub proof fn lemma_every_script_raises_input(body: Seq<char>)
    ensures
        ({
            let event = "document.dispatchEvent(new Event('input'));"@;
            let script = with_event(body);
            &&& script.len() == body.len() + 1 + event.len()
            &&& script.take(body.len() as int) == body
            &&& script[body.len() as int] == ' '
            &&& script.skip(body.len() as int + 1) == event
        }),
{
    reveal_strlit("document.dispatchEvent(new Event('input'));");
    reveal_strlit(" document.dispatchEvent(new Event('input'));");
    let event = "document.dispatchEvent(new Event('input'));"@;
    let ending = " document.dispatchEvent(new Event('input'));"@;
    assert(ending.skip(1) =~= event);
    assert(with_event(body).take(body.len() as int) =~= body);
    assert(with_event(body).skip(body.len() as int + 1) =~= ending.skip(1));
}

} // verus!
