//! The Contacts screen's rules, without a toolkit: what a row says, what "show
//! mail" searches, and which command means something on which kind of row.
use vstd::prelude::*;
use crate::model::ContactSource;
use crate::text::{contains_white_space, decimal, decimal_of, has_white_space, join, joined, replace_char};
use crate::format::lemma_joined_says;
use crate::text::{has_prefix, has_text, occurs_at, replaced_char, str_opt, texts};

verus! {

/// The query for the mail of every one of `addresses`, in one field.
pub open spec fn mail_query(addresses: Seq<Seq<char>>) -> Seq<char> {
    let value = joined(addresses, ","@);
    if has_white_space(value) {
        "with:\""@ + replaced_char(value, '"', ""@) + "\""@
    } else {
        "with:"@ + value
    }
}

/// The query "show mail" writes for a person: every address they own, in one
/// `with:` field. Addresses, not the person, so a search pinned from it keeps
/// meaning the addresses it named.
///
/// Quoted only when the value could not survive being typed back in: tokens
/// are split on white space, and a quote inside would end it.
pub fn show_mail_query(addresses: &[String]) -> (out: String)
    ensures
        out@ == mail_query(texts(addresses@)),
{
    let value = join(addresses, ",");
    if contains_white_space(value.as_str()) {
        let mut out = "with:\"".to_owned();
        out.append(replace_char(value.as_str(), '"', "").as_str());
        out.append("\"");
        out
    } else {
        let mut out = "with:".to_owned();
        out.append(value.as_str());
        out
    }
}

/// Whether a row carries the mark for a person the user made or imported: the
/// list distinguishes the address book from the mail.
pub fn is_made(source: ContactSource) -> (out: bool)
    ensures
        out == !(source is Mail),
{
    match source {
        ContactSource::Mail => false,
        _ => true,
    }
}

/// The line under a person's name.
pub open spec fn line_for(address_count: nat, when: Option<Seq<char>>) -> Seq<char> {
    let count = if address_count == 1 {
        "1 address"@
    } else {
        decimal(address_count) + " addresses"@
    };
    match when {
        Some(when) => count + " · "@ + when,
        None => count,
    }
}

/// The line under a person's name: how many addresses, and when they were
/// last in touch, in the row's words for a moment -- `2 addresses · Thu`,
/// `1 address`. No mail, no date.
pub fn secondary_line(address_count: u32, last_in_touch: Option<&str>) -> (out: String)
    ensures
        out@ == line_for(address_count as nat, str_opt(last_in_touch)),
{
    let mut line = if address_count == 1 {
        "1 address".to_owned()
    } else {
        let mut count = decimal_of(address_count as u64);
        count.append(" addresses");
        count
    };
    if let Some(when) = last_in_touch {
        line.append(" · ");
        line.append(when);
    }
    line
}

/// The kind of row the keyboard is on. The Contacts screen is one context,
/// and a command acts on the focused row's kind.
#[derive(Debug, Clone, Copy, PartialEq, Eq, Structural)]
pub enum RowKind {
    /// A person in the list.
    Person,
    /// One of a person's addresses, in the detail.
    Address,
    /// A group.
    Group,
    /// A suggestion that two people may be one.
    Suggestion,
}

/// A command of the Contacts screen.
#[derive(Debug, Clone, Copy, PartialEq, Eq, Structural)]
pub enum ContactCommand {
    /// Search for somebody's mail.
    ShowMail,
    /// Write to somebody.
    Compose,
    /// Anything else: it names a person, an address or a group -- each of
    /// which it means something on -- or is the screen's own.
    Other,
}

/// Why a command did nothing on the focused row: the one-line hint the screen
/// shows instead of failing silently.
#[derive(Debug, Clone, Copy, PartialEq, Eq)]
pub struct Hint(pub &'static str);

/// Whether `command` means something on a row of `kind`, and the hint to show
/// when it does not.
///
/// A suggestion is two people; showing mail or writing to it would have to
/// guess which one.
pub fn applies(command: ContactCommand, kind: RowKind) -> (out: Result<(), Hint>)
    ensures
        out is Err <==> kind is Suggestion && !(command is Other),
        out matches Err(hint) ==> hint.0@ == "Choose one of the two people first"@,
{
    match (command, kind) {
        (ContactCommand::ShowMail | ContactCommand::Compose, RowKind::Suggestion) => Err(
            Hint("Choose one of the two people first"),
        ),
        _ => Ok(()),
    }
}

proof fn lemma_taken_out(s: Seq<char>, c: char)
    ensures
        !replaced_char(s, c, ""@).contains(c),
    decreases s.len(),
{
    reveal_strlit("");
    if s.len() > 0 {
        lemma_taken_out(s.drop_last(), c);
    }
}

/// A value that has to be quoted ends where its quotation ends: it holds no
/// quotation mark of its own.
pub proof fn lemma_quoted_value_holds_no_quote(addresses: Seq<Seq<char>>)
    requires
        has_white_space(joined(addresses, ","@)),
    ensures
        exists|value: Seq<char>|
            mail_query(addresses) == "with:\""@ + value + "\""@ && !value.contains('"'),
{
    let value = replaced_char(joined(addresses, ","@), '"', ""@);
    lemma_taken_out(joined(addresses, ","@), '"');
    assert(mail_query(addresses) == "with:\""@ + value + "\""@ && !value.contains('"'));
}

/// Every address is in the query, in the one field it has, and the value is
/// quoted exactly when white space would part it.
pub proof fn lemma_query_names_every_address(addresses: Seq<Seq<char>>, i: int)
    requires
        0 <= i < addresses.len(),
    ensures
        has_prefix(mail_query(addresses), "with:"@),
        !has_white_space(joined(addresses, ","@)) ==> has_text(mail_query(addresses), addresses[i]),
        mail_query(addresses).len() > 5 && mail_query(addresses)[5] == '"' <==> has_white_space(
            joined(addresses, ","@),
        ) || (joined(addresses, ","@).len() > 0 && joined(addresses, ","@)[0] == '"'),
{
    reveal_strlit("with:");
    reveal_strlit("with:\"");
    reveal_strlit("\"");
    let value = joined(addresses, ","@);
    let query = mail_query(addresses);
    assert(query.subrange(0, 5) =~= "with:"@);
    if !has_white_space(value) {
        lemma_joined_says(addresses, ","@, i);
        let at = choose|at: int| #[trigger] occurs_at(value, addresses[i], at);
        assert(query.subrange(5 + at, 5 + at + addresses[i].len()) =~= value.subrange(
            at,
            at + addresses[i].len(),
        ));
        assert(occurs_at(query, addresses[i], 5 + at));
    }
}

/// The line says how many addresses there are, one of them as one, and the
/// date only where there is one.
pub proof fn lemma_what_the_line_says(count: nat, when: Seq<char>)
    ensures
        line_for(count, None) == decimal(count) + (if count == 1 {
            " address"@
        } else {
            " addresses"@
        }),
        line_for(count, Some(when)) == line_for(count, None) + " · "@ + when,
{
    reveal_strlit("1 address");
    reveal_strlit(" address");
    if count == 1 {
        assert(decimal(1) =~= seq!['1']);
        assert(line_for(1, None) =~= decimal(1) + " address"@);
    }
}

} // verus!
