//! A whole conversation as one document: one view and one web process,
//! whatever its length.
//!
//! Several senders can share a document because they cannot contaminate each
//! other: a body arrives sanitised under its own scope, and each stands in a
//! bounded surface of its own.
//!
//! The reader runs with script off, so expansion is `<details>`/`<summary>`
//! -- a disclosure widget in HTML itself, keyboard-operable and announced by
//! screen readers.
use vstd::prelude::*;
use crate::reader::document::{contain_body_in, contained_in, light_declarations, markers};
use crate::reader::document::{lemma_stands_inside, scroll_markers, stands_at, wrap_document, wrapped};
use crate::reader::document::{RemoteImages, Sheet, Stylesheets, SCROLL_MARKERS};
use crate::text::{chars_of, decimal, decimal_of, is_blank, join, joined, trimmed};
use crate::text::{has_prefix, has_text, lemma_trimmed, occurs_at, white_space};

verus! {

/// The scheme a `Show` link uses, intercepted by the frontend rather than
/// followed. The sanitizer never emits this scheme from a sender's markup, so
/// a message cannot forge one.
pub const ALLOW_SCHEME: &'static str = "postio-allow";

/// The scheme a per-message `Reply` uses. A verb of its own rather than a
/// parameter on one scheme, so an unrecognised verb is refused rather than
/// mapped to the nearest thing.
pub const REPLY_SCHEME: &'static str = "postio-reply";

/// The scheme a per-message `Forward` uses. See [`REPLY_SCHEME`].
pub const FORWARD_SCHEME: &'static str = "postio-forward";

/// The scheme a draft's `Continue editing` uses. See [`REPLY_SCHEME`].
pub const CONTINUE_SCHEME: &'static str = "postio-continue";

/// The class the user's own messages wear.
pub const MINE_CLASS: &'static str = "postio-mine";

// ---------------------------------------------------------------------------
// Escaping
// ---------------------------------------------------------------------------

/// A character as markup text.
pub open spec fn escaped_char(c: char) -> Seq<char> {
    if c == '&' {
        "&amp;"@
    } else if c == '<' {
        "&lt;"@
    } else if c == '>' {
        "&gt;"@
    } else if c == '"' {
        "&quot;"@
    } else if c == '\'' {
        "&#39;"@
    } else {
        seq![c]
    }
}

/// A text as markup text.
pub open spec fn escaped(s: Seq<char>) -> Seq<char>
    decreases s.len(),
{
    if s.len() == 0 {
        Seq::empty()
    } else {
        escaped(s.drop_last()) + escaped_char(s.last())
    }
}

/// The application's own chrome text, escaped.
///
/// A sender's name and their preview are sender-controlled strings going into
/// markup. `<` and `&` are what turn a display name into an element; the
/// quotes matter because these also land in attributes.
pub fn escape(value: &str) -> (out: String)
    ensures
        out@ == escaped(value@),
{
    let chars = chars_of(value);
    let mut out = String::new();
    let mut i: usize = 0;
    assert(out@ =~= escaped(chars@.take(0)));
    while i < chars.len()
        invariant
            i <= chars@.len(),
            out@ == escaped(chars@.take(i as int)),
        decreases chars@.len() - i,
    {
        let ghost done = out@;
        let c = chars[i];
        assert(chars@.take(i + 1).drop_last() =~= chars@.take(i as int));
        match c {
            '&' => out.append("&amp;"),
            '<' => out.append("&lt;"),
            '>' => out.append("&gt;"),
            '"' => out.append("&quot;"),
            '\'' => out.append("&#39;"),
            _ => out.push(c),
        }
        assert(out@ =~= done + escaped_char(c));
        i += 1;
    }
    assert(chars@.take(chars@.len() as int) =~= chars@);
    out
}

/// A character that markup would read as its own.
pub open spec fn is_markup_char(c: char) -> bool {
    c == '<' || c == '>' || c == '"' || c == '\''
}

/// A text without markup in it.
pub open spec fn inert(s: Seq<char>) -> bool {
    forall|i: int| 0 <= i < s.len() ==> !is_markup_char(#[trigger] s[i])
}

/// A sender cannot write markup through their name, nor break out of the
/// attribute it sits in: an escaped text holds no angle bracket and no quote.
pub proof fn lemma_escaped_is_inert(s: Seq<char>)
    ensures
        inert(escaped(s)),
    decreases s.len(),
{
    if s.len() > 0 {
        let rest = escaped(s.drop_last());
        let last = escaped_char(s.last());
        lemma_escaped_is_inert(s.drop_last());
        reveal_strlit("&amp;");
        reveal_strlit("&lt;");
        reveal_strlit("&gt;");
        reveal_strlit("&quot;");
        reveal_strlit("&#39;");
        assert(inert(last));
        assert forall|i: int| 0 <= i < escaped(s).len() implies !is_markup_char(
            #[trigger] escaped(s)[i],
        ) by {
            if i < rest.len() {
                assert(escaped(s)[i] == rest[i]);
            } else {
                assert(escaped(s)[i] == last[i - rest.len()]);
            }
        }
    }
}

/// A text that needs no escaping is left as it is.
pub proof fn lemma_plain_is_kept(s: Seq<char>)
    requires
        inert(s),
        forall|i: int| 0 <= i < s.len() ==> #[trigger] s[i] != '&',
    ensures
        escaped(s) == s,
    decreases s.len(),
{
    if s.len() > 0 {
        lemma_plain_is_kept(s.drop_last());
        assert(!is_markup_char(s[s.len() - 1]));
        assert(escaped(s) =~= s);
    } else {
        assert(escaped(s) =~= s);
    }
}

/// The element id of the message in `scope`.
pub open spec fn anchor(scope: Seq<char>) -> Seq<char> {
    "m-"@ + escaped(scope)
}

/// The element id a message carries, so a pane can scroll to it.
///
/// One function rather than two, because the id and the fragment that
/// navigates to it have to agree and nothing would say so if they stopped.
/// Takes the scope raw and escapes it here, for the same reason.
pub fn message_anchor(scope: &str) -> (out: String)
    ensures
        out@ == anchor(scope@),
{
    let mut out = "m-".to_owned();
    out.append(escape(scope).as_str());
    out
}

/// An anchor cannot break out of the attribute it sits in.
pub proof fn lemma_anchor_is_inert(scope: Seq<char>)
    ensures
        inert(anchor(scope)),
{
    reveal_strlit("m-");
    lemma_escaped_is_inert(scope);
    assert forall|i: int| 0 <= i < anchor(scope).len() implies !is_markup_char(
        #[trigger] anchor(scope)[i],
    ) by {
        if i >= 2 {
            assert(anchor(scope)[i] == escaped(scope)[i - 2]);
        }
    }
}

// ---------------------------------------------------------------------------
// One message
// ---------------------------------------------------------------------------

/// One message's place in a conversation document.
///
/// A single message is a thread of one, expanded -- the pane renders both
/// through this, so there is one set of chrome rather than two that can drift.
#[derive(Clone, Copy, Debug, PartialEq, Eq)]
pub struct Entry<'a> {
    /// What the inline references in [`body`](Self::body) are stamped with,
    /// and what the scheme handler routes on. Must be the same scope the body
    /// was sanitised under.
    pub scope: &'a str,
    /// Who it is from, as a person reads it.
    pub sender: &'a str,
    /// Their address, shown beside the name on an open message.
    pub address: &'a str,
    /// When, already formatted for the reader's locale.
    pub when: &'a str,
    /// The one line a collapsed message shows.
    pub preview: &'a str,
    /// Whether it starts open.
    pub expanded: bool,
    /// Whether this is a draft: a message the user wrote and never sent. It
    /// changes which verbs the message offers.
    pub draft: bool,
    /// Whether the message came from one of the account's own addresses.
    pub mine: bool,
    /// Whether this is the newest message in the thread.
    pub latest: bool,
    /// How many remote references this message had stripped.
    pub blocked: u32,
    /// The message's body: already rendered *and already sanitised under
    /// [`scope`](Self::scope)*.
    pub body: &'a str,
    /// Who it went to, already drawn. Empty when there are none, and then
    /// nothing is drawn.
    pub recipients: &'a str,
    /// Who else was copied, drawn by the same rule. Empty when nobody was.
    pub cc: &'a str,
    /// This message's own stylesheets, scoped to it. Empty for most mail.
    pub styles: &'a str,
}

/// What a message says about the remote references it had stripped.
pub open spec fn blocked_html(count: nat, scope: Seq<char>) -> Seq<char> {
    if count == 0 {
        Seq::empty()
    } else {
        "<div class=\"postio-blocked\">"@ + (if count == 1 {
            "1 remote image blocked"@
        } else {
            decimal(count) + " remote images blocked"@
        }) + " <a class=\"postio-blocked-show\" href=\""@ + ALLOW_SCHEME@ + ":"@ + scope
            + "\">Show</a></div>"@
    }
}

/// The verbs a message offers.
pub open spec fn actions_html(draft: bool, scope: Seq<char>, sender: Seq<char>) -> Seq<char> {
    if draft {
        "<span class=\"postio-message-actions\"><a class=\"postio-message-action\" href=\""@
            + CONTINUE_SCHEME@ + ":"@ + escaped(scope)
            + "\" aria-label=\"Continue editing this draft\" title=\"Continue editing this draft\">Continue editing</a></span>"@
    } else {
        "<span class=\"postio-message-actions\"><a class=\"postio-message-action\" href=\""@
            + REPLY_SCHEME@ + ":"@ + escaped(scope) + "\" aria-label=\"Reply to "@ + escaped(sender)
            + "\" title=\"Reply to "@ + escaped(sender)
            + "\">Reply</a><a class=\"postio-message-action\" href=\""@ + FORWARD_SCHEME@ + ":"@
            + escaped(scope) + "\" aria-label=\"Forward "@ + escaped(sender)
            + "&#39;s message\" title=\"Forward "@ + escaped(sender)
            + "&#39;s message\">Forward</a></span>"@
    }
}

/// One line of recipients, nothing when there are none.
pub open spec fn recipient_row(label: Seq<char>, value: Seq<char>) -> Seq<char> {
    if trimmed(value).len() == 0 {
        Seq::empty()
    } else {
        "<div class=\"postio-message-recipients\"><span class=\"postio-recipients-label\">"@ + label
            + "</span><span class=\"postio-recipients-value\">"@ + escaped(value)
            + "</span></div>"@
    }
}

/// `text` when `shown`, else nothing.
pub open spec fn text_if(shown: bool, text: Seq<char>) -> Seq<char> {
    if shown {
        text
    } else {
        Seq::empty()
    }
}

/// A message's header: its opening tag and the row a collapsed message shows.
pub open spec fn head_html(entry: Entry<'_>) -> Seq<char> {
    "<details class=\"postio-message"@ + text_if(entry.mine, " "@ + MINE_CLASS@) + "\" id=\""@
        + anchor(entry.scope@) + "\""@ + text_if(entry.expanded, " open"@)
        + "><summary class=\"postio-message-head\"><span class=\"postio-recipients-label\">From</span><span class=\"postio-from\">"@
        + escaped(entry.sender@) + "</span><span class=\"postio-address\">"@ + escaped(
        entry.address@,
    ) + "</span><span class=\"postio-preview\">"@ + escaped(entry.preview@) + "</span>"@ + text_if(
        entry.latest,
        "<span class=\"postio-latest\">latest</span>"@,
    ) + "<span class=\"postio-when\">"@ + escaped(entry.when@) + "</span>"@ + actions_html(
        entry.draft,
        entry.scope@,
        entry.sender@,
    ) + "</summary>"@
}

/// One message as markup: its body stands in a bounded surface whose
/// `attribute` is the message's scope.
pub open spec fn entry_markup(entry: Entry<'_>, attribute: Seq<char>) -> Seq<char> {
    head_html(entry) + recipient_row("To"@, entry.recipients@) + recipient_row("Cc"@, entry.cc@)
        + blocked_html(entry.blocked as nat, entry.scope@) + contained_in(
        entry.body@,
        attribute,
        Some(entry.scope@),
    ) + "</details>"@
}

/// What a message says about the remote references it had stripped.
///
/// Per message, because the decision it reports is per sender. The link is the
/// consent: blocking without a way to unblock is the feature missing its other
/// half.
fn blocked_text(count: u32, scope: &str) -> (out: String)
    ensures
        out@ == blocked_html(count as nat, scope@),
{
    let mut out = String::new();
    if count == 0 {
        assert(out@ =~= Seq::<char>::empty());
        return out;
    }
    out = "<div class=\"postio-blocked\">".to_owned();
    if count == 1 {
        out.append("1 remote image blocked");
    } else {
        let mut what = decimal_of(count as u64);
        what.append(" remote images blocked");
        out.append(what.as_str());
    }
    out.append(" <a class=\"postio-blocked-show\" href=\"");
    out.append(ALLOW_SCHEME);
    out.append(":");
    out.append(scope);
    out.append("\">Show</a></div>");
    out
}

/// The verbs a message offers.
///
/// Named for the message rather than the verb: in a stack of six the verb
/// alone does not say which one it means. A draft's one verb replaces the
/// pair: the other two are the correspondent's, and a draft has no
/// correspondent yet.
fn actions_text(draft: bool, scope: &str, sender: &str) -> (out: String)
    ensures
        out@ == actions_html(draft, scope@, sender@),
{
    let scope = escape(scope);
    let mut out =
        "<span class=\"postio-message-actions\"><a class=\"postio-message-action\" href=\"".to_owned();
    if draft {
        out.append(CONTINUE_SCHEME);
        out.append(":");
        out.append(scope.as_str());
        out.append(
            "\" aria-label=\"Continue editing this draft\" title=\"Continue editing this draft\">Continue editing</a></span>",
        );
    } else {
        let sender = escape(sender);
        out.append(REPLY_SCHEME);
        out.append(":");
        out.append(scope.as_str());
        out.append("\" aria-label=\"Reply to ");
        out.append(sender.as_str());
        out.append("\" title=\"Reply to ");
        out.append(sender.as_str());
        out.append("\">Reply</a><a class=\"postio-message-action\" href=\"");
        out.append(FORWARD_SCHEME);
        out.append(":");
        out.append(scope.as_str());
        out.append("\" aria-label=\"Forward ");
        out.append(sender.as_str());
        out.append("&#39;s message\" title=\"Forward ");
        out.append(sender.as_str());
        out.append("&#39;s message\">Forward</a></span>");
    }
    out
}

/// One line of recipients, or nothing when there are none.
///
/// Outside the `<summary>` on purpose: who it went to belongs with the message
/// you have opened. Label and value as two cells, so `To` and `Cc` line up.
fn recipients_html(label: &str, value: &str) -> (out: String)
    ensures
        out@ == recipient_row(label@, value@),
{
    let mut out = String::new();
    if is_blank(value) {
        assert(out@ =~= Seq::<char>::empty());
        return out;
    }
    out = "<div class=\"postio-message-recipients\"><span class=\"postio-recipients-label\">".to_owned();
    out.append(label);
    out.append("</span><span class=\"postio-recipients-value\">");
    out.append(escape(value).as_str());
    out.append("</span></div>");
    out
}

/// The opening tag of a message, up to the row it shows.
fn open_tag(entry: &Entry<'_>) -> (out: String)
    ensures
        out@ == "<details class=\"postio-message"@ + text_if(entry.mine, " "@ + MINE_CLASS@)
            + "\" id=\""@ + anchor(entry.scope@) + "\""@ + text_if(entry.expanded, " open"@),
{
    let mut out = "<details class=\"postio-message".to_owned();
    assert(text_if(false, " "@ + MINE_CLASS@) =~= Seq::<char>::empty());
    if entry.mine {
        out.append(" ");
        out.append(MINE_CLASS);
    }
    assert(out@ =~= "<details class=\"postio-message"@ + text_if(entry.mine, " "@ + MINE_CLASS@));
    out.append("\" id=\"");
    out.append(message_anchor(entry.scope).as_str());
    out.append("\"");
    let ghost tag = out@;
    if entry.expanded {
        out.append(" open");
    }
    assert(out@ =~= tag + text_if(entry.expanded, " open"@));
    out
}

/// One message, as a `<details>` whose `<summary>` is its header.
///
/// The body is named, not just contained: the name is what this message's own
/// rules were scoped to, and without it they match nothing.
pub fn entry_html(entry: &Entry<'_>, attribute: &str) -> (out: String)
    ensures
        out@ == entry_markup(*entry, attribute@),
{
    let mut out = open_tag(entry);
    out.append(
        "><summary class=\"postio-message-head\"><span class=\"postio-recipients-label\">From</span><span class=\"postio-from\">",
    );
    out.append(escape(entry.sender).as_str());
    out.append("</span><span class=\"postio-address\">");
    out.append(escape(entry.address).as_str());
    out.append("</span><span class=\"postio-preview\">");
    out.append(escape(entry.preview).as_str());
    out.append("</span>");
    let ghost before = out@;
    if entry.latest {
        out.append("<span class=\"postio-latest\">latest</span>");
    }
    assert(out@ =~= before + text_if(
        entry.latest,
        "<span class=\"postio-latest\">latest</span>"@,
    ));
    out.append("<span class=\"postio-when\">");
    out.append(escape(entry.when).as_str());
    out.append("</span>");
    out.append(actions_text(entry.draft, entry.scope, entry.sender).as_str());
    out.append("</summary>");
    assert(out@ == head_html(*entry));
    out.append(recipients_html("To", entry.recipients).as_str());
    out.append(recipients_html("Cc", entry.cc).as_str());
    out.append(blocked_text(entry.blocked, entry.scope).as_str());
    out.append(contain_body_in(entry.body, attribute, Some(entry.scope)).as_str());
    out.append("</details>");
    out
}

// ---------------------------------------------------------------------------
// The conversation
// ---------------------------------------------------------------------------

/// The messages as markup, one after another.
pub open spec fn entries_markup(entries: Seq<Entry<'_>>, attribute: Seq<char>) -> Seq<char>
    decreases entries.len(),
{
    if entries.len() == 0 {
        Seq::empty()
    } else {
        entries_markup(entries.drop_last(), attribute) + entry_markup(entries.last(), attribute)
    }
}

/// The messages' own rules, in order.
pub open spec fn styles_of(entries: Seq<Entry<'_>>) -> Seq<Seq<char>> {
    Seq::new(entries.len(), |i: int| entries[i].styles@)
}

/// Every sender's own rules, one message after another: what a frontend makes
/// the senders' stylesheet of.
pub fn senders_styles(entries: &[Entry<'_>]) -> (out: String)
    ensures
        out@ == joined(styles_of(entries@), "\n"@),
{
    let mut styles: Vec<String> = Vec::new();
    let mut i: usize = 0;
    while i < entries.len()
        invariant
            i <= entries@.len(),
            styles@.len() == i,
            forall|k: int| 0 <= k < i ==> (#[trigger] styles@[k])@ == entries@[k].styles@,
        decreases entries@.len() - i,
    {
        styles.push(entries[i].styles.to_owned());
        i += 1;
    }
    assert(crate::text::texts(styles@) =~= styles_of(entries@));
    join(styles.as_slice(), "\n")
}

/// What a conversation document holds.
pub open spec fn conversation_body(
    entries: Seq<Entry<'_>>,
    chrome: Seq<char>,
    senders: Seq<char>,
    attribute: Seq<char>,
) -> Seq<char> {
    "<style>"@ + chrome + "</style>"@ + senders + "<div class=\"postio-thread\">"@ + entries_markup(
        entries,
        attribute,
    ) + "</div>"@ + markers(SCROLL_MARKERS as nat)
}

/// The whole conversation, as one hardened document.
///
/// `chrome` is the conversation's own stylesheet, appended only to such a
/// document, and `senders` the stylesheet made of [`senders_styles`], as
/// markup. `attribute` is what each body's surface carries its message's scope
/// in. Ours is the ground the page sits on; theirs describes their own
/// message and wins where the two genuinely collide.
pub fn conversation_document(
    entries: &[Entry<'_>],
    chrome: &str,
    senders: &str,
    attribute: &str,
    remote: RemoteImages,
    sheet: Sheet,
    styles: Stylesheets<'_>,
) -> (out: String)
    requires
        sheet is Senders ==> light_declarations(styles.palette@) is Some,
    ensures
        out@ == wrapped(conversation_body(entries@, chrome@, senders@, attribute@), remote, sheet, styles),
{
    let mut content = "<style>".to_owned();
    content.append(chrome);
    content.append("</style>");
    content.append(senders);
    content.append("<div class=\"postio-thread\">");
    let ghost head = content@;
    let mut i: usize = 0;
    assert(content@ =~= head + entries_markup(entries@.take(0), attribute@));
    while i < entries.len()
        invariant
            i <= entries@.len(),
            content@ == head + entries_markup(entries@.take(i as int), attribute@),
        decreases entries@.len() - i,
    {
        assert(entries@.take(i + 1).drop_last() =~= entries@.take(i as int));
        content.append(entry_html(&entries[i], attribute).as_str());
        i += 1;
        assert(content@ =~= head + entries_markup(entries@.take(i as int), attribute@));
    }
    assert(entries@.take(entries@.len() as int) =~= entries@);
    content.append("</div>");
    content.append(scroll_markers().as_str());
    assert(content@ =~= conversation_body(entries@, chrome@, senders@, attribute@));
    wrap_document(content.as_str(), remote, sheet, styles)
}

// ---------------------------------------------------------------------------
// Laws
// ---------------------------------------------------------------------------

proof fn lemma_regrouped(a: Seq<char>, b: Seq<char>, c: Seq<char>)
    ensures
        a + b + c == a + (b + c),
{
    assert(a + b + c =~= a + (b + c));
}

/// A conversation is its messages one after another, each whole: nothing one
/// message says depends on another.
pub proof fn lemma_messages_stand_alone(
    first: Seq<Entry<'_>>,
    rest: Seq<Entry<'_>>,
    attribute: Seq<char>,
)
    ensures
        entries_markup(first + rest, attribute) == entries_markup(first, attribute)
            + entries_markup(rest, attribute),
    decreases rest.len(),
{
    if rest.len() == 0 {
        assert(first + rest =~= first);
        assert(entries_markup(first, attribute) + entries_markup(rest, attribute)
            =~= entries_markup(first, attribute));
    } else {
        lemma_messages_stand_alone(first, rest.drop_last(), attribute);
        assert((first + rest).drop_last() =~= first + rest.drop_last());
        assert((first + rest).last() == rest.last());
        lemma_regrouped(
            entries_markup(first, attribute),
            entries_markup(rest.drop_last(), attribute),
            entry_markup(rest.last(), attribute),
        );
    }
}

proof fn lemma_stands_in_the_middle(
    first: Seq<char>,
    head: Seq<char>,
    part: Seq<char>,
    tail: Seq<char>,
    rest: Seq<char>,
)
    ensures
        stands_at(first + (head + part + tail) + rest, part, (first + head).len() as int),
{
    assert(first + (head + part + tail) + rest =~= (first + head) + part + (tail + rest));
    lemma_stands_inside(first + head, part, tail + rest);
}

/// Every message keeps a bounded surface of its own: somewhere in the
/// conversation stands its body, whole and alone in a surface that carries the
/// message's scope.
pub proof fn lemma_every_body_is_bounded(entries: Seq<Entry<'_>>, index: int, attribute: Seq<char>)
    requires
        0 <= index < entries.len(),
    ensures
        exists|at: int|
            stands_at(
                entries_markup(entries, attribute),
                contained_in(entries[index].body@, attribute, Some(entries[index].scope@)),
                at,
            ),
{
    let first = entries.take(index);
    let entry = entries[index];
    let rest = entries.skip(index + 1);
    let surface = contained_in(entry.body@, attribute, Some(entry.scope@));
    lemma_messages_stand_alone(first.push(entry), rest, attribute);
    assert(entries =~= first.push(entry) + rest);
    assert(first.push(entry).drop_last() =~= first);
    let head = head_html(entry) + recipient_row("To"@, entry.recipients@) + recipient_row(
        "Cc"@,
        entry.cc@,
    ) + blocked_html(entry.blocked as nat, entry.scope@);
    assert(entry_markup(entry, attribute) == head + surface + "</details>"@);
    lemma_stands_in_the_middle(
        entries_markup(first, attribute),
        head,
        surface,
        "</details>"@,
        entries_markup(rest, attribute),
    );
}

/// A message that had nothing held back says and offers nothing about it:
/// between its recipients and its body stands nothing.
pub proof fn lemma_nothing_held_back_offers_nothing(entry: Entry<'_>, attribute: Seq<char>)
    requires
        entry.blocked == 0,
    ensures
        entry_markup(entry, attribute) == head_html(entry) + recipient_row(
            "To"@,
            entry.recipients@,
        ) + recipient_row("Cc"@, entry.cc@) + contained_in(
            entry.body@,
            attribute,
            Some(entry.scope@),
        ) + "</details>"@,
{
    let before = head_html(entry) + recipient_row("To"@, entry.recipients@) + recipient_row(
        "Cc"@,
        entry.cc@,
    );
    assert(before + blocked_html(0, entry.scope@) =~= before);
}

/// A text is escaped character by character: the five that markup reads as its
/// own as their names, every other as itself.
pub proof fn lemma_escaped_one_by_one(a: Seq<char>, b: Seq<char>, c: char)
    ensures
        escaped(a + b) == escaped(a) + escaped(b),
        escaped(seq!['&']) == "&amp;"@,
        escaped(seq!['<']) == "&lt;"@,
        escaped(seq!['>']) == "&gt;"@,
        escaped(seq!['"']) == "&quot;"@,
        escaped(seq!['\'']) == "&#39;"@,
        c != '&' && c != '<' && c != '>' && c != '"' && c != '\'' ==> escaped(seq![c]) == seq![c],
    decreases b.len(),
{
    lemma_escaped_alone('&');
    lemma_escaped_alone('<');
    lemma_escaped_alone('>');
    lemma_escaped_alone('"');
    lemma_escaped_alone('\'');
    lemma_escaped_alone(c);
    if b.len() == 0 {
        assert(a + b =~= a);
        assert(escaped(a) + escaped(b) =~= escaped(a));
    } else {
        lemma_escaped_one_by_one(a, b.drop_last(), c);
        assert((a + b).drop_last() =~= a + b.drop_last());
        assert((a + b).last() == b.last());
        assert(escaped(a + b) =~= escaped(a) + escaped(b));
    }
}

proof fn lemma_escaped_alone(c: char)
    ensures
        escaped(seq![c]) == escaped_char(c),
{
    let one = seq![c];
    assert(escaped(one.drop_last()) =~= Seq::<char>::empty());
    assert(one.last() == c);
    assert(escaped(one) =~= escaped_char(c));
}

proof fn lemma_still_has(s: Seq<char>, more: Seq<char>, middle: Seq<char>)
    requires
        has_text(s, middle),
    ensures
        has_text(s + more, middle),
{
    let at = choose|at: int| #[trigger] occurs_at(s, middle, at);
    assert((s + more).subrange(at, at + middle.len()) =~= s.subrange(at, at + middle.len()));
    assert(occurs_at(s + more, middle, at));
}

proof fn lemma_ends_with(
    before: Seq<char>,
    label: Seq<char>,
    lead: Seq<char>,
    word: Seq<char>,
    name: Seq<char>,
)
    requires
        label == lead + word,
    ensures
        has_text(before + label + name, word + name),
{
    let all = before + label + name;
    let at = (before.len() + lead.len()) as int;
    assert(all.subrange(at, at + (word + name).len()) =~= word + name);
    assert(occurs_at(all, word + name, at));
}

proof fn lemma_ends_with_reference(
    before: Seq<char>,
    scheme: Seq<char>,
    colon: Seq<char>,
    scope: Seq<char>,
)
    ensures
        has_text(before + scheme + colon + scope, scheme + colon + scope),
{
    let all = before + scheme + colon + scope;
    let at = before.len() as int;
    assert(all.subrange(at, at + (scheme + colon + scope).len()) =~= scheme + colon + scope);
    assert(occurs_at(all, scheme + colon + scope, at));
}

proof fn lemma_has_the_middle(before: Seq<char>, middle: Seq<char>, after: Seq<char>)
    ensures
        has_text(before + middle + after, middle),
{
    let all = before + middle + after;
    let at = before.len() as int;
    assert(all.subrange(at, at + middle.len()) =~= middle);
    assert(occurs_at(all, middle, at));
}

/// What was held back is counted and can be asked for, under the message's own
/// scope; where nothing was, nothing is said.
pub proof fn lemma_held_back_can_be_asked_for(count: nat, scope: Seq<char>)
    ensures
        count == 0 <==> blocked_html(count, scope).len() == 0,
        count > 0 ==> has_text(
            blocked_html(count, scope),
            decimal(count) + " remote image"@,
        ),
        count > 0 ==> has_text(blocked_html(count, scope), "href=\"postio-allow:"@ + scope + "\">Show</a>"@),
{
    reveal_strlit("<div class=\"postio-blocked\">");
    reveal_strlit("1 remote image blocked");
    reveal_strlit(" remote images blocked");
    reveal_strlit(" remote image");
    reveal_strlit(" <a class=\"postio-blocked-show\" href=\"");
    reveal_strlit("postio-allow");
    reveal_strlit(":");
    reveal_strlit("\">Show</a></div>");
    reveal_strlit("href=\"postio-allow:");
    reveal_strlit("\">Show</a>");
    if count > 0 {
        let said = blocked_html(count, scope);
        let open = "<div class=\"postio-blocked\">"@;
        let what = decimal(count) + " remote image"@;
        assert(decimal(1) =~= seq!['1']);
        assert(said.subrange(open.len() as int, (open.len() + what.len()) as int) =~= what);
        assert(occurs_at(said, what, open.len() as int));
        let link = "href=\"postio-allow:"@ + scope + "\">Show</a>"@;
        let at = said.len() - link.len() - 6;
        assert(said.subrange(at, at + link.len()) =~= link);
        assert(occurs_at(said, link, at));
    }
}

/// A draft is continued, and whoever it is from makes no difference to that; a
/// message that was sent is answered and passed on, each verb under the
/// message's own scope and named for its sender.
pub proof fn lemma_which_verbs_are_offered(scope: Seq<char>, sender: Seq<char>, other: Seq<char>)
    ensures
        actions_html(true, scope, sender) == actions_html(true, scope, other),
        has_text(actions_html(true, scope, sender), CONTINUE_SCHEME@ + ":"@ + escaped(scope)),
        has_text(actions_html(false, scope, sender), REPLY_SCHEME@ + ":"@ + escaped(scope)),
        has_text(actions_html(false, scope, sender), FORWARD_SCHEME@ + ":"@ + escaped(scope)),
        has_text(actions_html(false, scope, sender), "Reply to "@ + escaped(sender)),
        has_text(actions_html(false, scope, sender), "Forward "@ + escaped(sender)),
{
    let open = "<span class=\"postio-message-actions\"><a class=\"postio-message-action\" href=\""@;
    let scoped = escaped(scope);
    let named = escaped(sender);
    let continues = open + CONTINUE_SCHEME@ + ":"@ + scoped;
    lemma_ends_with_reference(open, CONTINUE_SCHEME@, ":"@, scoped);
    lemma_still_has(
        continues,
        "\" aria-label=\"Continue editing this draft\" title=\"Continue editing this draft\">Continue editing</a></span>"@,
        CONTINUE_SCHEME@ + ":"@ + scoped,
    );
    lemma_verbs_of_sent(scope, sender);
}

proof fn lemma_verbs_of_sent(scope: Seq<char>, sender: Seq<char>)
    ensures
        has_text(actions_html(false, scope, sender), REPLY_SCHEME@ + ":"@ + escaped(scope)),
        has_text(actions_html(false, scope, sender), FORWARD_SCHEME@ + ":"@ + escaped(scope)),
        has_text(actions_html(false, scope, sender), "Reply to "@ + escaped(sender)),
        has_text(actions_html(false, scope, sender), "Forward "@ + escaped(sender)),
{
    let open = "<span class=\"postio-message-actions\"><a class=\"postio-message-action\" href=\""@;
    let scoped = escaped(scope);
    let named = escaped(sender);
    let reply = REPLY_SCHEME@ + ":"@ + scoped;
    let forward = FORWARD_SCHEME@ + ":"@ + scoped;
    let to = "Reply to "@ + named;
    let from = "Forward "@ + named;
    let s1 = open + REPLY_SCHEME@ + ":"@ + scoped;
    lemma_ends_with_reference(open, REPLY_SCHEME@, ":"@, scoped);
    assert("\" aria-label=\"Reply to "@ =~= "\" aria-label=\""@ + "Reply to "@) by {
        reveal_strlit("\" aria-label=\"Reply to ");
        reveal_strlit("\" aria-label=\"");
        reveal_strlit("Reply to ");
    }
    assert("\" aria-label=\"Forward "@ =~= "\" aria-label=\""@ + "Forward "@) by {
        reveal_strlit("\" aria-label=\"Forward ");
        reveal_strlit("\" aria-label=\"");
        reveal_strlit("Forward ");
    }
    let s2 = s1 + "\" aria-label=\"Reply to "@;
    let s3 = s2 + named;
    lemma_ends_with(s1, "\" aria-label=\"Reply to "@, "\" aria-label=\""@, "Reply to "@, named);
    lemma_still_has(s1, "\" aria-label=\"Reply to "@, reply);
    lemma_still_has(s2, named, reply);
    let s4 = s3 + "\" title=\"Reply to "@;
    lemma_still_has(s3, "\" title=\"Reply to "@, reply);
    lemma_still_has(s3, "\" title=\"Reply to "@, to);
    let s5 = s4 + named;
    lemma_still_has(s4, named, reply);
    lemma_still_has(s4, named, to);
    let second = "\">Reply</a><a class=\"postio-message-action\" href=\""@;
    let s6 = s5 + second;
    lemma_still_has(s5, second, reply);
    lemma_still_has(s5, second, to);
    let s7 = s6 + FORWARD_SCHEME@;
    lemma_still_has(s6, FORWARD_SCHEME@, reply);
    lemma_still_has(s6, FORWARD_SCHEME@, to);
    let s8 = s7 + ":"@;
    lemma_still_has(s7, ":"@, reply);
    lemma_still_has(s7, ":"@, to);
    let s9 = s8 + scoped;
    lemma_still_has(s8, scoped, reply);
    lemma_still_has(s8, scoped, to);
    lemma_ends_with_reference(s6, FORWARD_SCHEME@, ":"@, scoped);
    let s10 = s9 + "\" aria-label=\"Forward "@;
    lemma_still_has(s9, "\" aria-label=\"Forward "@, reply);
    lemma_still_has(s9, "\" aria-label=\"Forward "@, to);
    lemma_still_has(s9, "\" aria-label=\"Forward "@, forward);
    let s11 = s10 + named;
    lemma_still_has(s10, named, reply);
    lemma_still_has(s10, named, to);
    lemma_still_has(s10, named, forward);
    lemma_ends_with(s9, "\" aria-label=\"Forward "@, "\" aria-label=\""@, "Forward "@, named);
    let last = "&#39;s message\" title=\"Forward "@;
    let s12 = s11 + last;
    lemma_still_has(s11, last, reply);
    lemma_still_has(s11, last, to);
    lemma_still_has(s11, last, forward);
    lemma_still_has(s11, last, from);
    let s13 = s12 + named;
    lemma_still_has(s12, named, reply);
    lemma_still_has(s12, named, to);
    lemma_still_has(s12, named, forward);
    lemma_still_has(s12, named, from);
    let end = "&#39;s message\">Forward</a></span>"@;
    lemma_still_has(s13, end, reply);
    lemma_still_has(s13, end, to);
    lemma_still_has(s13, end, forward);
    lemma_still_has(s13, end, from);
    assert(actions_html(false, scope, sender) == s13 + end);
}

/// A line of recipients is drawn exactly when there is anybody on it, with its
/// label and everybody on it.
pub proof fn lemma_when_recipients_are_drawn(label: Seq<char>, value: Seq<char>)
    ensures
        recipient_row(label, value).len() == 0 <==> (forall|i: int|
            0 <= i < value.len() ==> white_space(#[trigger] value[i])),
        recipient_row(label, value).len() > 0 ==> has_text(recipient_row(label, value), label)
            && has_text(recipient_row(label, value), escaped(value)),
{
    lemma_trimmed(value);
    let (from, to) = choose|from: int, to: int|
        {
            &&& 0 <= from <= to <= value.len()
            &&& trimmed(value) == #[trigger] value.subrange(from, to)
            &&& forall|i: int| 0 <= i < from ==> white_space(#[trigger] value[i])
            &&& forall|i: int| to <= i < value.len() ==> white_space(#[trigger] value[i])
        };
    reveal_strlit("</span></div>");
    if trimmed(value).len() > 0 {
        assert(trimmed(value)[0] == value[from]);
        assert(!white_space(value[from]));
        let open =
            "<div class=\"postio-message-recipients\"><span class=\"postio-recipients-label\">"@;
        let middle = "</span><span class=\"postio-recipients-value\">"@;
        let end = "</span></div>"@;
        let row = recipient_row(label, value);
        assert(row =~= open + label + (middle + escaped(value) + end));
        lemma_has_the_middle(open, label, middle + escaped(value) + end);
        assert(row =~= (open + label + middle) + escaped(value) + end);
        lemma_has_the_middle(open + label + middle, escaped(value), end);
    } else {
        assert(recipient_row(label, value) =~= Seq::<char>::empty());
    }
}

/// The row a message shows folded says who it is from, from where, what it
/// starts with and when; it is open only where the message starts open, wears
/// the user's mark only on their own, and says that it is the latest only of
/// the latest.
pub proof fn lemma_what_a_head_says(entry: Entry<'_>)
    ensures
        has_prefix(
            head_html(entry),
            "<details class=\"postio-message"@ + (if entry.mine {
                " "@ + MINE_CLASS@
            } else {
                Seq::empty()
            }) + "\" id=\""@ + ("m-"@ + escaped(entry.scope@)) + "\""@ + (if entry.expanded {
                " open"@
            } else {
                Seq::empty()
            }) + "><summary"@,
        ),
        has_text(
            head_html(entry),
            "<span class=\"postio-from\">"@ + escaped(entry.sender@)
                + "</span><span class=\"postio-address\">"@ + escaped(entry.address@)
                + "</span><span class=\"postio-preview\">"@ + escaped(entry.preview@) + "</span>"@ + (
            if entry.latest {
                "<span class=\"postio-latest\">latest</span>"@
            } else {
                Seq::empty()
            }) + "<span class=\"postio-when\">"@ + escaped(entry.when@) + "</span>"@,
        ),
        has_text(head_html(entry), actions_html(entry.draft, entry.scope@, entry.sender@)),
{
    reveal_strlit(
        "><summary class=\"postio-message-head\"><span class=\"postio-recipients-label\">From</span><span class=\"postio-from\">",
    );
    reveal_strlit("><summary");
    reveal_strlit(
        " class=\"postio-message-head\"><span class=\"postio-recipients-label\">From</span>",
    );
    reveal_strlit("<span class=\"postio-from\">");
    let long =
        "><summary class=\"postio-message-head\"><span class=\"postio-recipients-label\">From</span><span class=\"postio-from\">"@;
    let label = " class=\"postio-message-head\"><span class=\"postio-recipients-label\">From</span>"@;
    assert(long =~= "><summary"@ + label + "<span class=\"postio-from\">"@);
    let tag = "<details class=\"postio-message"@ + (if entry.mine {
        " "@ + MINE_CLASS@
    } else {
        Seq::empty()
    }) + "\" id=\""@ + ("m-"@ + escaped(entry.scope@)) + "\""@ + (if entry.expanded {
        " open"@
    } else {
        Seq::empty()
    }) + "><summary"@;
    let row = "<span class=\"postio-from\">"@ + escaped(entry.sender@)
        + "</span><span class=\"postio-address\">"@ + escaped(entry.address@)
        + "</span><span class=\"postio-preview\">"@ + escaped(entry.preview@) + "</span>"@ + (
    if entry.latest {
        "<span class=\"postio-latest\">latest</span>"@
    } else {
        Seq::empty()
    }) + "<span class=\"postio-when\">"@ + escaped(entry.when@) + "</span>"@;
    let verbs = actions_html(entry.draft, entry.scope@, entry.sender@);
    let head = head_html(entry);
    assert(head =~= tag + label + row + verbs + "</summary>"@);
    assert(head.subrange(0, tag.len() as int) =~= tag);
    assert(head =~= (tag + label) + row + (verbs + "</summary>"@));
    lemma_has_the_middle(tag + label, row, verbs + "</summary>"@);
    assert(head =~= (tag + label + row) + verbs + "</summary>"@);
    lemma_has_the_middle(tag + label + row, verbs, "</summary>"@);
}

/// The conversation's own rules come before the senders', which so win where
/// the two collide, and both before any message.
pub proof fn lemma_whose_rules_come_first(
    entries: Seq<Entry<'_>>,
    chrome: Seq<char>,
    senders: Seq<char>,
    attribute: Seq<char>,
)
    ensures
        has_prefix(
            conversation_body(entries, chrome, senders, attribute),
            "<style>"@ + chrome + "</style>"@ + senders + "<div class=\"postio-thread\">"@
                + entries_markup(entries, attribute),
        ),
{
    let all = conversation_body(entries, chrome, senders, attribute);
    let first = "<style>"@ + chrome + "</style>"@ + senders + "<div class=\"postio-thread\">"@
        + entries_markup(entries, attribute);
    assert(all.subrange(0, first.len() as int) =~= first);
}

} // verus!
