//! The reading pane's header: how a sender reads, how a recipient list joins,
//! what a missing subject says, and how an opened message is dated.
//!
//! Nothing here decides *layout*; [`MessageHeader`] carries rendered strings
//! rather than widgets.
use vstd::prelude::*;
use crate::hints::primary;
use crate::model::{Address, CommandKeymap};
use crate::text::{decimal, decimal_of, join, joined, str_opt, text_opt, trim, trimmed};
use crate::text::{has_prefix, lemma_decimal_differs, lemma_padding_comes_off, lemma_trimmed, white_space};

verus! {

/// Shown in place of a blank line -- a missing subject is a fact about the
/// message, not something to render as if it were not there.
pub const NO_SUBJECT: &'static str = "(no subject)";

/// How many recipients a header names before it starts counting the rest.
pub const RECIPIENTS_SHOWN: usize = 3;

/// One address as a header line gives it.
pub open spec fn address_text(address: Address) -> Seq<char> {
    match text_opt(address.name) {
        Some(name) => if trimmed(name).len() > 0 {
            trimmed(name) + " <"@ + address.address@ + ">"@
        } else {
            address.address@
        },
        None => address.address@,
    }
}

/// `"Name <address>"` when a display name is present, the bare address
/// otherwise: an address without a name is not made to stand for one. A name
/// that happens to be the address is a name like any other.
pub fn address_line(address: &Address) -> (out: String)
    ensures
        out@ == address_text(*address),
{
    if let Some(name) = &address.name {
        let mut out = trim(name.as_str());
        if out.as_str().unicode_len() > 0 {
            out.append(" <");
            out.append(address.address.as_str());
            out.append(">");
            return out;
        }
    }
    address.address.clone()
}

/// The addresses, each as a header line gives it.
pub open spec fn address_texts(addresses: Seq<Address>) -> Seq<Seq<char>> {
    Seq::new(addresses.len(), |i: int| address_text(addresses[i]))
}

/// Several addresses on one line.
pub open spec fn list_text(addresses: Seq<Address>) -> Seq<char> {
    joined(address_texts(addresses), ", "@)
}

/// The first `n` addresses on one line.
fn first_addresses(addresses: &[Address], n: usize) -> (out: String)
    requires
        n <= addresses@.len(),
    ensures
        out@ == list_text(addresses@.take(n as int)),
{
    let mut lines: Vec<String> = Vec::new();
    let mut i: usize = 0;
    while i < n
        invariant
            i <= n <= addresses@.len(),
            lines@.len() == i,
            forall|k: int| 0 <= k < i ==> (#[trigger] lines@[k])@ == address_text(addresses@[k]),
        decreases n - i,
    {
        lines.push(address_line(&addresses[i]));
        i += 1;
    }
    assert(crate::text::texts(lines@) =~= address_texts(addresses@.take(n as int)));
    join(lines.as_slice(), ", ")
}

/// Several addresses on one line, comma-joined.
pub fn address_list(addresses: &[Address]) -> (out: String)
    ensures
        out@ == list_text(addresses@),
{
    assert(addresses@.take(addresses@.len() as int) =~= addresses@);
    first_addresses(addresses, addresses.len())
}

/// The recipients as a header draws them.
pub open spec fn recipients_text(addresses: Seq<Address>) -> Seq<char> {
    if addresses.len() <= RECIPIENTS_SHOWN {
        list_text(addresses)
    } else {
        let hidden = (addresses.len() - RECIPIENTS_SHOWN) as nat;
        list_text(addresses.take(RECIPIENTS_SHOWN as int)) + " and "@ + decimal(hidden) + " "@ + (
        if hidden == 1 {
            "other"@
        } else {
            "others"@
        })
    }
}

/// The recipients as a header draws them: the first few, then how many are
/// left.
///
/// **The count is the information.** "Ada, Bob and 197 others" says at a
/// glance that this is a broadcast and that reply-all would be a mistake. A
/// list that fits is returned untouched: no "and 0 others".
pub fn recipient_line(addresses: &[Address]) -> (out: String)
    ensures
        out@ == recipients_text(addresses@),
{
    if addresses.len() <= RECIPIENTS_SHOWN {
        return address_list(addresses);
    }
    let hidden: usize = addresses.len() - RECIPIENTS_SHOWN;
    let mut out = first_addresses(addresses, RECIPIENTS_SHOWN);
    out.append(" and ");
    out.append(decimal_of(hidden as u64).as_str());
    out.append(" ");
    if hidden == 1 {
        out.append("other");
    } else {
        out.append("others");
    }
    out
}

/// The subject as the header shows it.
pub open spec fn subject_shown(subject: Option<Seq<char>>) -> Seq<char> {
    match subject {
        Some(subject) => if trimmed(subject).len() > 0 {
            trimmed(subject)
        } else {
            NO_SUBJECT@
        },
        None => NO_SUBJECT@,
    }
}

/// The subject as the header shows it, or [`NO_SUBJECT`].
pub fn subject_text(subject: Option<&str>) -> (out: String)
    ensures
        out@ == subject_shown(str_opt(subject)),
{
    if let Some(subject) = subject {
        let out = trim(subject);
        if out.as_str().unicode_len() > 0 {
            return out;
        }
    }
    NO_SUBJECT.to_owned()
}

// ---------------------------------------------------------------------------
// Dates
// ---------------------------------------------------------------------------

/// How a header writes a date, in `strftime` terms.
pub const DATE_PATTERN: &'static str = "%a, %-d %b %Y at %H:%M";

/// The first second `chrono` can date, counted from the start of 1970 in UTC.
pub const FIRST_SECOND: i64 = -8_334_601_228_800;

/// The last second `chrono` can date.
pub const LAST_SECOND: i64 = 8_210_266_876_799;

/// The moment and the offset are ones `chrono` can date.
pub open spec fn datable(at: i64, offset: i32) -> bool {
    FIRST_SECOND <= at <= LAST_SECOND && -86_400 < offset < 86_400
}

/// What `chrono` writes for the moment `at`, seconds from the start of 1970 in
/// UTC, on a clock `offset` seconds ahead of UTC, by `pattern`.
pub uninterp spec fn date_text(at: int, offset: int, pattern: Seq<char>) -> Seq<char>;

/// `DateTime::format` of `chrono`, on the moment `DateTime::from_timestamp`
/// makes of `at`, seen at the offset `FixedOffset::east_opt` makes of
/// `offset`. The text depends on the moment, the offset and the pattern alone;
/// what it is stays unsaid. The pattern is the one header lines are written
/// by, which `chrono` accepts.
#[verifier::external_body]
fn format_date(at: i64, offset: i32, pattern: &str) -> (out: String)
    requires
        datable(at, offset),
        pattern@ == DATE_PATTERN@,
    ensures
        out@ == date_text(at as int, offset as int, pattern@),
{
    let zone = chrono::FixedOffset::east_opt(offset).expect("an offset within a day");
    let moment = chrono::DateTime::from_timestamp(at, 0).expect("a moment in range");
    moment.with_timezone(&zone).format(pattern).to_string()
}

/// The header's date line: always absolute -- a message once opened is not
/// "3h ago" any more, it is dated. `offset` is how far the reader's own clock
/// was ahead of UTC at that moment, in seconds.
pub fn absolute_date(at: i64, offset: i32) -> (out: String)
    requires
        datable(at, offset),
    ensures
        out@ == date_text(at as int, offset as int, DATE_PATTERN@),
{
    format_date(at, offset, DATE_PATTERN)
}

// ---------------------------------------------------------------------------
// The header
// ---------------------------------------------------------------------------

/// Every line of the header, already rendered.
#[derive(Debug, Clone, PartialEq, Eq)]
pub struct MessageHeader {
    /// The subject, or [`NO_SUBJECT`] -- never empty.
    pub subject: String,
    /// Who it is from, as `Name <address>` joined by commas.
    pub from: String,
    /// Every recipient, joined -- the full list, which stays reachable even
    /// when [`Self::to_line`] shortens what it draws.
    pub to: Option<String>,
    /// The recipients as they are drawn. See [`recipient_line`].
    pub to_short: Option<String>,
    /// The `Cc` addresses, joined; `None` when there are none.
    pub cc: Option<String>,
    /// How many addresses `cc` holds, for the disclosure's own label.
    pub cc_count: usize,
    /// When it arrived, absolute and on the reader's own clock.
    pub date: String,
}

/// `text` when there is anybody.
pub open spec fn if_anybody(addresses: Seq<Address>, text: Seq<char>) -> Option<Seq<char>> {
    if addresses.len() > 0 {
        Some(text)
    } else {
        None
    }
}

impl MessageHeader {
    /// Render an envelope into the lines a header draws.
    pub fn of(
        from: &[Address],
        to: &[Address],
        cc: &[Address],
        subject: Option<&str>,
        date: i64,
        offset: i32,
    ) -> (out: Self)
        requires
            datable(date, offset),
        ensures
            out.subject@ == subject_shown(str_opt(subject)),
            out.from@ == list_text(from@),
            text_opt(out.to) == if_anybody(to@, list_text(to@)),
            text_opt(out.to_short) == if_anybody(to@, recipients_text(to@)),
            text_opt(out.cc) == if_anybody(cc@, list_text(cc@)),
            out.cc_count == cc@.len(),
            out.date@ == date_text(date as int, offset as int, DATE_PATTERN@),
    {
        let (everyone, short) = if to.len() > 0 {
            (Some(address_list(to)), Some(recipient_line(to)))
        } else {
            (None, None)
        };
        let copied = if cc.len() > 0 {
            Some(address_list(cc))
        } else {
            None
        };
        MessageHeader {
            subject: subject_text(subject),
            from: address_list(from),
            to: everyone,
            to_short: short,
            cc: copied,
            cc_count: cc.len(),
            date: absolute_date(date, offset),
        }
    }

    /// The recipients as the header draws them, shortened -- without a label,
    /// which is the view's to draw.
    pub fn to_line(&self) -> (out: Option<String>)
        ensures
            text_opt(out) == text_opt(self.to_short),
    {
        crate::text::copy_opt(&self.to_short)
    }

    /// What the `Cc` disclosure is called while it is offered -- `Cc (2)`.
    pub fn cc_toggle_label(&self) -> (out: Option<String>)
        ensures
            text_opt(out) == (if self.cc_count > 0 {
                Some("Cc ("@ + decimal(self.cc_count as nat) + ")"@)
            } else {
                None
            }),
    {
        if self.cc_count == 0 {
            return None;
        }
        let mut out = "Cc (".to_owned();
        out.append(decimal_of(self.cc_count as u64).as_str());
        out.append(")");
        Some(out)
    }
}

/// Shortening the line never hides how many there are: the full list stays
/// reachable, and a list that fits is drawn whole.
pub proof fn lemma_short_list_is_whole(addresses: Seq<Address>)
    requires
        addresses.len() <= RECIPIENTS_SHOWN,
    ensures
        recipients_text(addresses) == list_text(addresses),
{
}

// ---------------------------------------------------------------------------
// The verbs
// ---------------------------------------------------------------------------

/// One verb the reading pane offers under the message.
///
/// *Which four, in what order* is a product decision, not a toolkit one.
#[derive(Clone, Copy, Debug, PartialEq, Eq, Structural)]
pub enum ReaderAction {
    /// Reply to the sender -- the primary.
    Reply,
    /// Reply to everyone on the message.
    ReplyAll,
    /// Forward it.
    Forward,
    /// Archive it.
    Archive,
}

/// What one of the conversation bar's verbs acts on.
///
/// The bar is **fixed**: it does not retarget as the reader scrolls or focuses
/// an older message.
#[derive(Debug, Clone, Copy, PartialEq, Eq, Structural)]
pub enum ActionScope {
    /// The most recent message in the conversation.
    LatestMessage,
    /// Every message in it.
    WholeConversation,
}

/// What the button is labelled.
pub open spec fn title_of(action: ReaderAction) -> Seq<char> {
    match action {
        ReaderAction::Reply => "Reply"@,
        ReaderAction::ReplyAll => "Reply all"@,
        ReaderAction::Forward => "Forward"@,
        ReaderAction::Archive => "Archive"@,
    }
}

/// The id of the command the button runs.
pub open spec fn command_of(action: ReaderAction) -> Seq<char> {
    match action {
        ReaderAction::Reply => "reply"@,
        ReaderAction::ReplyAll => "reply_all"@,
        ReaderAction::Forward => "forward"@,
        ReaderAction::Archive => "archive"@,
    }
}

/// What the verb will do to a conversation of `messages`.
pub open spec fn description_of(action: ReaderAction, messages: nat) -> Seq<char> {
    if messages <= 1 {
        title_of(action)
    } else {
        match action {
            ReaderAction::Forward => title_of(action) + " the latest message"@,
            ReaderAction::Archive => if messages == 2 {
                title_of(action) + " both messages"@
            } else {
                title_of(action) + " all "@ + decimal(messages) + " messages"@
            },
            _ => title_of(action) + " to the latest message"@,
        }
    }
}

impl ReaderAction {
    /// The four verbs, in order.
    pub const ALL: [ReaderAction; 4] = [
        ReaderAction::Reply,
        ReaderAction::ReplyAll,
        ReaderAction::Forward,
        ReaderAction::Archive,
    ];

    /// What the button is labelled.
    pub fn title(self) -> (out: &'static str)
        ensures
            out@ == title_of(self),
    {
        match self {
            ReaderAction::Reply => "Reply",
            ReaderAction::ReplyAll => "Reply all",
            ReaderAction::Forward => "Forward",
            ReaderAction::Archive => "Archive",
        }
    }

    /// Which registry command it runs, by its id. Never a local
    /// implementation: a button that did its own thing would be a second way
    /// to reply that undo did not know about.
    pub fn command(self) -> (out: &'static str)
        ensures
            out@ == command_of(self),
    {
        match self {
            ReaderAction::Reply => "reply",
            ReaderAction::ReplyAll => "reply_all",
            ReaderAction::Forward => "forward",
            ReaderAction::Archive => "archive",
        }
    }

    /// What this verb acts on when the pane is showing a conversation.
    ///
    /// Archive is the odd one out: "archive this thread" is what a person
    /// means by it, while replying to a thread means replying to where it got
    /// to.
    pub fn scope(self) -> (out: ActionScope)
        ensures
            out is WholeConversation <==> self is Archive,
    {
        match self {
            ReaderAction::Archive => ActionScope::WholeConversation,
            _ => ActionScope::LatestMessage,
        }
    }

    /// What this verb will do, in words, for a conversation of `messages`.
    ///
    /// A one-message conversation gets the bare verb back. The preposition
    /// belongs to the verb: "Forward to the latest message" would read as
    /// forwarding *to* a recipient.
    pub fn describe(self, messages: usize) -> (out: String)
        ensures
            out@ == description_of(self, messages as nat),
    {
        let mut out = self.title().to_owned();
        if messages <= 1 {
            return out;
        }
        match self {
            ReaderAction::Forward => out.append(" the latest message"),
            ReaderAction::Archive => {
                if messages == 2 {
                    out.append(" both messages");
                } else {
                    out.append(" all ");
                    out.append(decimal_of(messages as u64).as_str());
                    out.append(" messages");
                }
            },
            _ => out.append(" to the latest message"),
        }
        out
    }

    /// Whether it gets the primary treatment. Exactly one does.
    pub fn primary(self) -> (out: bool)
        ensures
            out == (self is Reply),
    {
        match self {
            ReaderAction::Reply => true,
            _ => false,
        }
    }
}

/// The four verbs with the key each currently carries, in order.
///
/// From the keymap rather than the registry's defaults: a button teaching the
/// wrong key is worse than one teaching none, so a verb whose key has been
/// taken shows no hint at all.
pub fn actions(keymap: &CommandKeymap) -> (out: Vec<(ReaderAction, Option<String>)>)
    ensures
        out@.len() == 4,
        forall|i: int|
            0 <= i < 4 ==> (#[trigger] out@[i]).0 == ReaderAction::ALL[i] && text_opt(out@[i].1)
                == primary(keymap.bindings_of(command_of(out@[i].0))),
{
    let mut out: Vec<(ReaderAction, Option<String>)> = Vec::new();
    let verbs = ReaderAction::ALL;
    let mut i: usize = 0;
    while i < 4
        invariant
            i <= 4,
            verbs == ReaderAction::ALL,
            out@.len() == i,
            forall|k: int|
                0 <= k < i ==> (#[trigger] out@[k]).0 == ReaderAction::ALL[k] && text_opt(out@[k].1)
                    == primary(keymap.bindings_of(command_of(out@[k].0))),
        decreases 4 - i,
    {
        let action = verbs[i];
        let bound = keymap.bindings(action.command());
        let key = if bound.len() > 0 {
            Some(bound[0].clone())
        } else {
            None
        };
        out.push((action, key));
        i += 1;
    }
    out
}

// ---------------------------------------------------------------------------
// Laws
// ---------------------------------------------------------------------------

/// A name stands before its address, without the white space around it; no
/// name, or a blank one, leaves the address alone.
pub proof fn lemma_how_an_address_reads(
    address: Address,
    before: Seq<char>,
    name: Seq<char>,
    after: Seq<char>,
)
    requires
        name.len() > 0 && !white_space(name[0]) && !white_space(name.last()),
        forall|i: int| 0 <= i < before.len() ==> white_space(#[trigger] before[i]),
        forall|i: int| 0 <= i < after.len() ==> white_space(#[trigger] after[i]),
    ensures
        address.name is Some && address.name->0@ == before + name + after ==> address_text(address)
            == name + " <"@ + address.address@ + ">"@,
        address.name is None || (forall|i: int|
            0 <= i < address.name->0@.len() ==> white_space(#[trigger] address.name->0@[i]))
            ==> address_text(address) == address.address@,
{
    lemma_padding_comes_off(before, name, after);
    if address.name is Some {
        lemma_trimmed(address.name->0@);
        let s = address.name->0@;
        let (from, to) = choose|from: int, to: int|
            {
                &&& 0 <= from <= to <= s.len()
                &&& trimmed(s) == #[trigger] s.subrange(from, to)
                &&& forall|i: int| 0 <= i < from ==> white_space(#[trigger] s[i])
                &&& forall|i: int| to <= i < s.len() ==> white_space(#[trigger] s[i])
            };
        if trimmed(s).len() > 0 {
            assert(trimmed(s)[0] == s[from]);
        }
    }
}

/// Several addresses read one after another, a comma between them.
pub proof fn lemma_how_a_list_reads(addresses: Seq<Address>, next: Address)
    ensures
        list_text(seq![next]) == address_text(next),
        addresses.len() > 0 ==> list_text(addresses.push(next)) == list_text(addresses) + ", "@
            + address_text(next),
        list_text(Seq::empty()).len() == 0,
{
    let all = address_texts(addresses.push(next));
    assert(all.drop_last() =~= address_texts(addresses));
    assert(all.last() == address_text(next));
    assert(address_texts(seq![next])[0] == address_text(next));
}

/// Of more than three recipients the first three are named and the others
/// counted, every one of them.
pub proof fn lemma_the_rest_are_counted(addresses: Seq<Address>)
    requires
        addresses.len() > 3,
    ensures
        addresses.len() == 4 ==> recipients_text(addresses) == list_text(addresses.take(3))
            + " and "@ + seq!['1'] + " "@ + "other"@,
        addresses.len() > 4 ==> recipients_text(addresses) == list_text(addresses.take(3)) + " and "@
            + decimal((addresses.len() - 3) as nat) + " "@ + "others"@,
        addresses.take(3).len() + (addresses.len() - 3) == addresses.len(),
{
    assert(decimal(1) =~= seq!['1']);
}

/// The subject shown is never blank: it is the one there is, without the white
/// space around it, or it says that there is none.
pub proof fn lemma_subject_is_never_blank(before: Seq<char>, subject: Seq<char>, after: Seq<char>)
    requires
        forall|i: int| 0 <= i < before.len() ==> white_space(#[trigger] before[i]),
        forall|i: int| 0 <= i < after.len() ==> white_space(#[trigger] after[i]),
        subject.len() > 0 ==> !white_space(subject[0]) && !white_space(subject.last()),
    ensures
        subject.len() > 0 ==> subject_shown(Some(before + subject + after)) == subject,
        subject.len() == 0 ==> subject_shown(Some(before)) == "(no subject)"@,
        subject_shown(None) == "(no subject)"@,
{
    if subject.len() > 0 {
        lemma_padding_comes_off(before, subject, after);
    }
    lemma_trimmed(before);
    let (from, to) = choose|from: int, to: int|
        {
            &&& 0 <= from <= to <= before.len()
            &&& trimmed(before) == #[trigger] before.subrange(from, to)
            &&& forall|i: int| 0 <= i < from ==> white_space(#[trigger] before[i])
            &&& forall|i: int| to <= i < before.len() ==> white_space(#[trigger] before[i])
        };
    if trimmed(before).len() > 0 {
        assert(trimmed(before)[0] == before[from]);
    }
}

/// What a verb says it will do starts with the verb. It says no more of a lone
/// message; of a conversation, archiving says how many go, and the others that
/// they act on the latest, however long it is.
pub proof fn lemma_what_a_verb_says(action: ReaderAction, messages: nat, more: nat)
    ensures
        messages <= 1 ==> description_of(action, messages) == title_of(action),
        messages > 1 ==> description_of(action, messages).len() > title_of(action).len(),
        has_prefix(description_of(action, messages), title_of(action)),
        !(action is Archive) && messages > 1 && more > 1 ==> description_of(action, messages)
            == description_of(action, more),
        action is Archive && messages > 1 && more > 1 && description_of(action, messages)
            == description_of(action, more) ==> messages == more,
        action is Archive && messages > 2 ==> description_of(action, messages) == "Archive all "@
            + decimal(messages) + " messages"@,
{
    reveal_strlit(" the latest message");
    reveal_strlit(" both messages");
    reveal_strlit(" all ");
    reveal_strlit(" messages");
    reveal_strlit(" to the latest message");
    reveal_strlit("Archive");
    reveal_strlit("Archive all ");
    let said = description_of(action, messages);
    let title = title_of(action);
    assert(said.subrange(0, title.len() as int) =~= title);
    if action is Archive && messages > 2 {
        assert(title + " all "@ =~= "Archive all "@);
    }
    if action is Archive && messages > 1 && more > 1 && said == description_of(action, more) {
        let other = description_of(action, more);
        assert(said[8] == other[8]);
        if messages > 2 && more > 2 {
            assert(said.subrange(12, said.len() - 9) =~= decimal(messages));
            assert(other.subrange(12, other.len() - 9) =~= decimal(more));
            lemma_decimal_differs(messages, more);
        }
    }
}

/// Every verb has a title and a command of its own.
pub proof fn lemma_verbs_are_told_apart(a: ReaderAction, b: ReaderAction)
    requires
        title_of(a) == title_of(b) || command_of(a) == command_of(b),
    ensures
        a == b,
{
    reveal_strlit("Reply");
    reveal_strlit("Reply all");
    reveal_strlit("Forward");
    reveal_strlit("Archive");
    reveal_strlit("reply");
    reveal_strlit("reply_all");
    reveal_strlit("forward");
    reveal_strlit("archive");
    assert(title_of(ReaderAction::Reply).len() == 5);
    assert(title_of(ReaderAction::ReplyAll).len() == 9);
    assert(title_of(ReaderAction::Forward)[0] == 'F' && title_of(ReaderAction::Forward).len() == 7);
    assert(title_of(ReaderAction::Archive)[0] == 'A' && title_of(ReaderAction::Archive).len() == 7);
    assert(command_of(ReaderAction::Reply).len() == 5);
    assert(command_of(ReaderAction::ReplyAll).len() == 9);
    assert(command_of(ReaderAction::Forward)[0] == 'f' && command_of(ReaderAction::Forward).len()
        == 7);
    assert(command_of(ReaderAction::Archive)[0] == 'a' && command_of(ReaderAction::Archive).len()
        == 7);
    match a {
        ReaderAction::Reply => {},
        ReaderAction::ReplyAll => {},
        ReaderAction::Forward => {},
        ReaderAction::Archive => {},
    }
    match b {
        ReaderAction::Reply => {},
        ReaderAction::ReplyAll => {},
        ReaderAction::Forward => {},
        ReaderAction::Archive => {},
    }
}

} // verus!
