//! The privacy pane's words: what it calls each list, what it says when a
//! list is empty, and how it sets out a connection.
//!
//! The pane is the privacy claim made auditable, so every frontend must make
//! the same claim in the same words.
use vstd::prelude::*;
use crate::model::EgressEvent;
use crate::text::{decimal, decimal_of, has_prefix, lemma_decimal_differs, lemma_decimal_digits};

verus! {

/// The senders whose remote images load without asking.
pub const ALLOWED: &'static str = "Remote images allowed";

/// The mailing lists left through one-click unsubscribe.
pub const LISTS_LEFT: &'static str = "Mailing lists left";

/// How many messages asked for a read receipt.
pub const READ_RECEIPTS: &'static str = "Read receipts";

/// The connections that were opened.
pub const CONNECTIONS: &'static str = "Recent connections";

/// [`ALLOWED`], with nobody on it.
pub const NO_ALLOWED: &'static str = "No senders are always allowed to load remote images.";

/// [`LISTS_LEFT`], with nothing on it.
pub const NO_LISTS_LEFT: &'static str = "No mailing lists have been left yet.";

/// [`CONNECTIONS`], with nothing on it: on a machine that has never synced,
/// exactly the claim.
pub const NO_CONNECTIONS: &'static str = "Nothing has connected out yet this session.";

/// How a connection's time is set, in local time.
pub const CONNECTION_WHEN: &'static str = "%d %b %H:%M";

/// How the day a list was left is set.
pub const LEFT_WHEN: &'static str = "%Y-%m-%d";

/// How many connections the pane lists. An audit surface, not an archive.
pub const CONNECTION_ROWS: u32 = 50;

/// The read-receipt count as a sentence.
pub open spec fn receipts_text(count: nat) -> Seq<char> {
    if count == 0 {
        "No messages have requested a read receipt."@
    } else if count == 1 {
        "1 message has requested a read receipt; none have been sent automatically."@
    } else {
        decimal(count)
            + " messages have requested a read receipt; none have been sent automatically."@
    }
}

/// The read-receipt count as a sentence. A count, not a switch: a receipt is
/// never sent automatically, so there is nothing to turn off.
pub fn read_receipts(count: u64) -> (out: String)
    ensures
        out@ == receipts_text(count as nat),
{
    if count == 0 {
        return "No messages have requested a read receipt.".to_owned();
    }
    if count == 1 {
        return "1 message has requested a read receipt; none have been sent automatically.".to_owned();
    }
    let mut out = decimal_of(count);
    out.append(" messages have requested a read receipt; none have been sent automatically.");
    out
}

/// What a connection was: who opened it, and to where.
pub fn connection(event: &EgressEvent) -> (out: String)
    ensures
        out@ == event.subsystem@ + " · "@ + event.host@ + ":"@ + decimal(event.port as nat),
{
    let mut out = event.subsystem.clone();
    out.append(" · ");
    out.append(event.host.as_str());
    out.append(":");
    out.append(decimal_of(event.port as u64).as_str());
    out
}

/// No two counts of receipts are said in the same sentence.
pub proof fn lemma_receipts_are_told_apart(a: nat, b: nat)
    requires
        receipts_text(a) == receipts_text(b),
    ensures
        a == b,
        a > 1 ==> has_prefix(receipts_text(a), decimal(a)),
{
    reveal_strlit("No messages have requested a read receipt.");
    reveal_strlit("1 message has requested a read receipt; none have been sent automatically.");
    reveal_strlit(" messages have requested a read receipt; none have been sent automatically.");
    lemma_decimal_digits(a);
    lemma_decimal_digits(b);
    let one = receipts_text(a);
    let two = receipts_text(b);
    let tail = " messages have requested a read receipt; none have been sent automatically."@;
    assert("No messages have requested a read receipt."@[0] == 'N');
    let single = "1 message has requested a read receipt; none have been sent automatically."@;
    assert(single.len() == 74);
    assert(single[12] == 's');
    assert(tail.len() == 75);
    assert(tail[13] == 'e');
    assert('0' <= decimal(a)[0] && decimal(a)[0] <= '9');
    assert('0' <= decimal(b)[0] && decimal(b)[0] <= '9');
    assert(one[0] == two[0]);
    assert(one[one.len() - 62] == two[two.len() - 62]);
    if a > 1 {
        assert(one.subrange(0, decimal(a).len() as int) =~= decimal(a));
        assert(one[one.len() - 62] == tail[13]);
    }
    if b > 1 {
        assert(two[two.len() - 62] == tail[13]);
    }
    if a > 1 && b > 1 {
        assert(one.take(one.len() - tail.len()) =~= decimal(a));
        assert(two.take(two.len() - tail.len()) =~= decimal(b));
        lemma_decimal_differs(a, b);
    }
}

} // verus!
