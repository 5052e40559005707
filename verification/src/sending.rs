//! What a composer asks before it sends: the questions and their words.
use vstd::prelude::*;
use crate::text::{is_blank, join_and, joined_with_and, lemma_trimmed, texts, trimmed, white_space};

verus! {

/// What the status line says when a draft addressed to nobody is sent.
pub const NO_RECIPIENTS: &'static str = "not sent — add a recipient first";

/// What the status line says when a draft that has already been handed over
/// is sent: it is the queue's now, not the composer's.
pub const ALREADY_QUEUED: &'static str = "not sent again — this draft is already on its way";

/// What is odd about a message, in the words the dialog uses.
pub open spec fn concerns(subject: Seq<char>, mentions_an_attachment: bool) -> Seq<Seq<char>> {
    let about_subject = if trimmed(subject).len() == 0 {
        seq!["this message has no subject"@]
    } else {
        Seq::empty()
    };
    if mentions_an_attachment {
        about_subject.push("it mentions an attachment and does not carry one"@)
    } else {
        about_subject
    }
}

/// What is odd about this message, in the words the dialog uses, given its
/// subject and whether it mentions an attachment it does not carry.
///
/// Empty for a message with nothing odd about it, which is almost all of
/// them. Each entry is a clause rather than a sentence, because they are
/// joined into one. Asked, never refused.
pub fn send_concerns(subject: &str, mentions_an_attachment: bool) -> (out: Vec<String>)
    ensures
        texts(out@) == concerns(subject@, mentions_an_attachment),
{
    let mut out: Vec<String> = Vec::new();
    if is_blank(subject) {
        out.push("this message has no subject".to_owned());
    }
    if mentions_an_attachment {
        out.push("it mentions an attachment and does not carry one".to_owned());
    }
    assert(texts(out@) =~= concerns(subject@, mentions_an_attachment));
    out
}

/// `a`, `a and b`, `a, b and c`.
pub fn join_with_and(parts: &[String]) -> (out: String)
    ensures
        out@ == joined_with_and(texts(parts@)),
{
    join_and(parts)
}

/// What is odd is said, once each and the subject first: a subject of nothing
/// but white space, an attachment that is mentioned and not there. A message
/// with neither has nothing odd about it.
pub proof fn lemma_what_is_odd(subject: Seq<char>, mentions: bool)
    ensures
        ({
            let blank = forall|i: int| 0 <= i < subject.len() ==> white_space(#[trigger] subject[i]);
            let said = concerns(subject, mentions);
            &&& said.len() == (if blank {
                1int
            } else {
                0
            }) + (if mentions {
                1int
            } else {
                0
            })
            &&& blank ==> said[0] == "this message has no subject"@
            &&& mentions ==> said.last() == "it mentions an attachment and does not carry one"@
        }),
{
    lemma_trimmed(subject);
    let (from, to) = choose|from: int, to: int|
        {
            &&& 0 <= from <= to <= subject.len()
            &&& trimmed(subject) == #[trigger] subject.subrange(from, to)
            &&& forall|i: int| 0 <= i < from ==> white_space(#[trigger] subject[i])
            &&& forall|i: int| to <= i < subject.len() ==> white_space(#[trigger] subject[i])
        };
    if trimmed(subject).len() > 0 {
        assert(trimmed(subject)[0] == subject[from]);
        assert(!white_space(subject[from]));
    }
}

} // verus!
