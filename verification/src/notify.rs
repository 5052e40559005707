//! Whether new mail is worth interrupting somebody for, and what the
//! notification may say — decided once, for every frontend.
//!
//! The suppression, the identifier, and where a click lands are one rule.
//! The wording is a per-platform choice, carried in by [`Wording`]. Every
//! notification for one mailbox reuses the same identifier, so several
//! arrivals in a row settle into one popup saying the current state.
use vstd::prelude::*;
use crate::model::{MailboxId, MessageId, SyncConfig};
use crate::text::{has_prefix, lemma_signed_decimal_differs};
use crate::text::{decimal, decimal_of, same_text, signed_decimal, signed_decimal_of, str_opt, texts};

verus! {

/// New mail as the engine reports it: ids and nothing else.
#[derive(Clone, Debug, PartialEq, Eq)]
pub struct Arrival {
    /// The folder it landed in.
    pub mailbox: MailboxId,
    /// The newly delivered messages.
    pub messages: Vec<MessageId>,
}

/// What the person is looking at at the moment the mail lands.
///
/// **Both** halves are needed to suppress: a folder left open behind another
/// application is not one the user is watching.
#[derive(Clone, Copy, Debug, Default, PartialEq, Eq)]
pub struct Attention {
    /// The mailbox the list has open, if any.
    pub showing: Option<MailboxId>,
    /// Whether this is the frontmost application.
    pub active: bool,
}

/// How much a notification may say.
#[derive(Clone, Copy, Debug, PartialEq, Eq)]
pub enum Wording<'a> {
    /// Counts and the folder's name, never content.
    Counts {
        /// The folder's display name, when the frontend knows it.
        mailbox_name: Option<&'a str>,
    },
    /// The newest arrival's sender and subject.
    Newest {
        /// The arrival to name, which the caller decides because it is the
        /// one holding the rows.
        message: MessageId,
        /// Its sender, as the frontend displays addresses.
        from: Option<&'a str>,
        /// Its subject line.
        subject: Option<&'a str>,
        /// The account's name, when more than one is enabled.
        account: Option<&'a str>,
    },
}

/// Why an arrival did not become a notification.
#[derive(Clone, Copy, Debug, PartialEq, Eq, Structural)]
pub enum Suppressed {
    /// The event carried no new messages.
    NothingArrived,
    /// It landed in the folder the user is looking at, right now.
    AlreadyOnScreen,
}

/// What to do about an arrival.
#[derive(Clone, Debug, PartialEq, Eq)]
pub enum Decision {
    /// Nothing, and why.
    Suppress(Suppressed),
    /// Post this.
    Deliver(Notification),
}

/// One notification, ready for the toolkit to post.
#[derive(Clone, Debug, PartialEq, Eq)]
pub struct Notification {
    /// Stable per folder.
    pub identifier: String,
    /// What it says.
    pub title: String,
    /// The rest of what it says.
    pub body: String,
    /// The folder a click opens.
    pub mailbox: MailboxId,
    /// The message a click lands on, when the notification named one.
    pub message: Option<MessageId>,
}

/// What to do about an arrival, its words as text.
pub enum DecisionView {
    /// Nothing, and why.
    Suppress(Suppressed),
    /// Post this.
    Deliver {
        /// Stable per folder.
        identifier: Seq<char>,
        /// What it says.
        title: Seq<char>,
        /// The rest of what it says.
        body: Seq<char>,
        /// The folder a click opens.
        mailbox: MailboxId,
        /// The message a click lands on.
        message: Option<MessageId>,
    },
}

impl View for Decision {
    type V = DecisionView;

    open spec fn view(&self) -> DecisionView {
        match *self {
            Decision::Suppress(why) => DecisionView::Suppress(why),
            Decision::Deliver(notification) => DecisionView::Deliver {
                identifier: notification.identifier@,
                title: notification.title@,
                body: notification.body@,
                mailbox: notification.mailbox,
                message: notification.message,
            },
        }
    }
}

/// Whether the configuration says `role`'s arrivals are worth a notification.
///
/// Asked before [`decide`], by whoever holds the config: the role gate is the
/// one input that costs a store read to answer.
pub fn watched(config: &SyncConfig, role: &str) -> (out: bool)
    ensures
        out == (config.notify && texts(config.notify_roles@).contains(role@)),
{
    if !config.notify {
        return false;
    }
    let mut i: usize = 0;
    while i < config.notify_roles.len()
        invariant
            config.notify,
            i <= config.notify_roles@.len(),
            forall|j: int| 0 <= j < i ==> (#[trigger] config.notify_roles@[j])@ != role@,
        decreases config.notify_roles@.len() - i,
    {
        if same_text(config.notify_roles[i].as_str(), role) {
            assert(texts(config.notify_roles@)[i as int] == role@);
            return true;
        }
        i += 1;
    }
    assert forall|j: int| 0 <= j < texts(config.notify_roles@).len() implies texts(
        config.notify_roles@,
    )[j] != role@ by {
        assert(config.notify_roles@[j]@ != role@);
    }
    false
}

/// The identifier of a mailbox's notifications.
pub open spec fn identifier_of(mailbox: MailboxId) -> Seq<char> {
    "new-mail-"@ + signed_decimal(mailbox.0 as int)
}

/// A notification id scoped to one mailbox.
pub fn identifier(mailbox: MailboxId) -> (out: String)
    ensures
        out@ == identifier_of(mailbox),
{
    let mut out = "new-mail-".to_owned();
    out.append(signed_decimal_of(mailbox.get()).as_str());
    out
}

/// `text`, or `otherwise` when there is none.
pub open spec fn or_else(text: Option<Seq<char>>, otherwise: Seq<char>) -> Seq<char> {
    match text {
        Some(text) => text,
        None => otherwise,
    }
}

/// The title a wording gives.
pub open spec fn title_of(wording: Wording) -> Seq<char> {
    match wording {
        Wording::Counts { mailbox_name } => match str_opt(mailbox_name) {
            Some(name) => "New mail in "@ + name,
            None => "New mail"@,
        },
        Wording::Newest { from, account, .. } => match str_opt(account) {
            Some(name) => or_else(str_opt(from), "Someone"@) + " — "@ + name,
            None => or_else(str_opt(from), "Someone"@),
        },
    }
}

/// The body a wording gives `count` arrivals.
pub open spec fn body_of(wording: Wording, count: nat) -> Seq<char> {
    match wording {
        Wording::Counts { .. } => if count == 1 {
            "1 new message"@
        } else {
            decimal(count) + " new messages"@
        },
        Wording::Newest { subject, .. } => {
            let subject = or_else(str_opt(subject), "(no subject)"@);
            if count == 1 {
                subject
            } else {
                "\""@ + subject + "\" and "@ + decimal((count - 1) as nat) + " more"@
            }
        },
    }
}

/// The message a click lands on: the one the notification named.
pub open spec fn named_message(wording: Wording, messages: Seq<MessageId>) -> Option<MessageId> {
    match wording {
        Wording::Counts { .. } => if messages.len() == 1 {
            Some(messages[0])
        } else {
            None
        },
        Wording::Newest { message, .. } => Some(message),
    }
}

/// What to do about an arrival.
pub open spec fn decision(
    mailbox: MailboxId,
    messages: Seq<MessageId>,
    attention: Attention,
    wording: Wording,
) -> DecisionView {
    if messages.len() == 0 {
        DecisionView::Suppress(Suppressed::NothingArrived)
    } else if attention.active && attention.showing == Some(mailbox) {
        DecisionView::Suppress(Suppressed::AlreadyOnScreen)
    } else {
        DecisionView::Deliver {
            identifier: identifier_of(mailbox),
            title: title_of(wording),
            body: body_of(wording, messages.len()),
            mailbox,
            message: named_message(wording, messages),
        }
    }
}

/// The title `wording` gives.
fn write_title(wording: Wording<'_>) -> (out: String)
    ensures
        out@ == title_of(wording),
{
    match wording {
        Wording::Counts { mailbox_name } => match mailbox_name {
            Some(name) => {
                let mut title = "New mail in ".to_owned();
                title.append(name);
                title
            },
            None => "New mail".to_owned(),
        },
        Wording::Newest { from, account, .. } => {
            let mut title = match from {
                Some(from) => from.to_owned(),
                None => "Someone".to_owned(),
            };
            if let Some(name) = account {
                title.append(" — ");
                title.append(name);
            }
            title
        },
    }
}

/// The body `wording` gives `count` arrivals.
fn write_body(wording: Wording<'_>, count: usize) -> (out: String)
    requires
        count > 0,
    ensures
        out@ == body_of(wording, count as nat),
{
    match wording {
        Wording::Counts { .. } => {
            if count == 1 {
                return "1 new message".to_owned();
            }
            let mut body = decimal_of(count as u64);
            body.append(" new messages");
            body
        },
        Wording::Newest { subject, .. } => {
            let subject = match subject {
                Some(subject) => subject.to_owned(),
                None => "(no subject)".to_owned(),
            };
            if count == 1 {
                return subject;
            }
            let mut body = "\"".to_owned();
            body.append(subject.as_str());
            body.append("\" and ");
            body.append(decimal_of((count - 1) as u64).as_str());
            body.append(" more");
            body
        },
    }
}

/// Whether `arrival` becomes a notification, and what it says.
pub fn decide(arrival: &Arrival, attention: Attention, wording: Wording<'_>) -> (out: Decision)
    ensures
        out@ == decision(arrival.mailbox, arrival.messages@, attention, wording),
{
    let count: usize = arrival.messages.len();
    if count == 0 {
        return Decision::Suppress(Suppressed::NothingArrived);
    }
    let on_screen = match attention.showing {
        Some(showing) => showing.0 == arrival.mailbox.0,
        None => false,
    };
    if attention.active && on_screen {
        return Decision::Suppress(Suppressed::AlreadyOnScreen);
    }
    // A single arrival names its message so the click lands on that row; a
    // burst's count picks no message, so the click opens the folder.
    let message = match wording {
        Wording::Counts { .. } => if count == 1 {
            Some(arrival.messages[0])
        } else {
            None
        },
        Wording::Newest { message, .. } => Some(message),
    };
    Decision::Deliver(
        Notification {
            identifier: identifier(arrival.mailbox),
            title: write_title(wording),
            body: write_body(wording, count),
            mailbox: arrival.mailbox,
            message,
        },
    )
}

/// Every notification for one mailbox reuses its identifier, whatever arrived
/// and however it is worded.
pub proof fn lemma_one_identifier_per_mailbox(
    mailbox: MailboxId,
    first: Seq<MessageId>,
    second: Seq<MessageId>,
    attention: Attention,
    wording: Wording,
    other: Wording,
)
    requires
        decision(mailbox, first, attention, wording) is Deliver,
        decision(mailbox, second, attention, other) is Deliver,
    ensures
        decision(mailbox, first, attention, wording)->identifier == decision(
            mailbox,
            second,
            attention,
            other,
        )->identifier,
{
}

/// Counts alone never say anything of a message: the words are the same
/// whatever messages arrived, as many of them.
pub proof fn lemma_counts_say_no_content(
    mailbox: MailboxId,
    first: Seq<MessageId>,
    second: Seq<MessageId>,
    attention: Attention,
    wording: Wording,
)
    requires
        wording is Counts,
        first.len() == second.len(),
        decision(mailbox, first, attention, wording) is Deliver,
    ensures
        decision(mailbox, second, attention, wording) is Deliver,
        decision(mailbox, first, attention, wording)->title == decision(
            mailbox,
            second,
            attention,
            wording,
        )->title,
        decision(mailbox, first, attention, wording)->body == decision(
            mailbox,
            second,
            attention,
            wording,
        )->body,
{
}

/// Somebody is interrupted exactly when something arrived that they are not
/// looking at: they are looking when the folder is the one shown *and* this is
/// the application in front. Otherwise the reason is said.
pub proof fn lemma_who_is_interrupted(
    mailbox: MailboxId,
    messages: Seq<MessageId>,
    attention: Attention,
    wording: Wording,
)
    ensures
        decision(mailbox, messages, attention, wording) is Deliver <==> messages.len() > 0 && (
        !attention.active || attention.showing != Some(mailbox)),
        decision(mailbox, messages, attention, wording) matches DecisionView::Suppress(why) ==> (
        why is NothingArrived <==> messages.len() == 0),
        decision(mailbox, messages, attention, wording) matches DecisionView::Deliver {
            mailbox: opens,
            message: lands_on,
            ..
        } ==> {
            &&& opens == mailbox
            &&& (wording matches Wording::Newest { message, .. } ==> lands_on == Some(message))
            &&& wording is Counts && messages.len() == 1 ==> lands_on == Some(messages[0])
            &&& wording is Counts && messages.len() > 1 ==> lands_on is None
        },
{
}

/// No two mailboxes share an identifier: a notification replaces those of its
/// own folder and no other's.
pub proof fn lemma_identifiers_differ(a: MailboxId, b: MailboxId)
    requires
        identifier_of(a) == identifier_of(b),
    ensures
        a == b,
{
    let said = "new-mail-"@;
    assert(identifier_of(a).skip(said.len() as int) =~= signed_decimal(a.0 as int));
    assert(identifier_of(b).skip(said.len() as int) =~= signed_decimal(b.0 as int));
    lemma_signed_decimal_differs(a.0 as int, b.0 as int);
}

/// What is said is what there is: counts say how many came and in which
/// folder; the newest is said by its sender and its subject, and how many came
/// besides it.
pub proof fn lemma_what_is_said(
    mailbox: MailboxId,
    messages: Seq<MessageId>,
    attention: Attention,
    wording: Wording,
)
    requires
        decision(mailbox, messages, attention, wording) is Deliver,
    ensures
        ({
            let title = decision(mailbox, messages, attention, wording)->title;
            let body = decision(mailbox, messages, attention, wording)->body;
            match wording {
                Wording::Counts { mailbox_name } => {
                    &&& mailbox_name matches Some(name) ==> title == "New mail in "@ + name@
                    &&& mailbox_name is None ==> title == "New mail"@
                    &&& body == decimal(messages.len()) + (if messages.len() > 1 {
                        " new messages"@
                    } else {
                        " new message"@
                    })
                },
                Wording::Newest { from, subject, account, .. } => {
                    &&& from matches Some(name) ==> has_prefix(title, name@)
                    &&& account is None ==> (from matches Some(name) ==> title == name@)
                    &&& account matches Some(name) ==> title.len() > name@.len() && title.skip(
                        title.len() - name@.len(),
                    ) == name@
                    &&& messages.len() == 1 ==> (subject matches Some(line) ==> body == line@)
                    &&& messages.len() > 1 ==> (subject matches Some(line) ==> body == "\""@ + line@
                        + "\" and "@ + decimal((messages.len() - 1) as nat) + " more"@)
                },
            }
        }),
{
    reveal_strlit("1 new message");
    reveal_strlit(" new message");
    reveal_strlit(" — ");
    let title = decision(mailbox, messages, attention, wording)->title;
    match wording {
        Wording::Counts { .. } => {
            if messages.len() == 1 {
                assert(decimal(1) =~= seq!['1']);
                assert(decimal(1) + " new message"@ =~= "1 new message"@);
            }
        },
        Wording::Newest { from, account, .. } => {
            if let Some(name) = from {
                assert(title.subrange(0, name@.len() as int) =~= name@);
            }
            if let Some(name) = account {
                assert(title.skip(title.len() - name@.len()) =~= name@);
            }
        },
    }
}

} // verus!
