//! What the one box can be asked, and the character that asks it.
//!
//! Typing searches mail, and a prefix in an empty box switches to running a
//! command, going to a folder, labelling the selection or finding a
//! correspondent. The bar's hint, the cheat sheet and the documentation all
//! read [`modes`].
use vstd::prelude::*;
use crate::model::{Contact, Label, LabelId};
use crate::palette::{copy_positions, is_within, lemma_a_match_is_a_subsequence, matched, scorable, score, Match};
use crate::palette::MAX_ROWS;
use crate::rank::{lemma_everything_shown_while_there_is_room, best_first, rank, top};
use crate::text::{byte_len, contains_white_space, has_white_space, replace_char, replaced_char, text_opt, trim, trimmed};

verus! {

/// One question the box can be asked.
#[derive(Debug, Clone, Copy, PartialEq, Eq)]
pub struct FinderMode {
    /// The character that reaches this mode from an empty box.
    ///
    /// `None` for search: it is what the box already is, so there is nothing
    /// to type to get there.
    pub prefix: Option<char>,
    /// What the field shows once the mode is active, so the mode is visible
    /// at a glance.
    pub marker: &'static str,
    /// What the mode is for, in a user's words.
    pub purpose: &'static str,
}

/// Every mode: its prefix, its marker and its purpose.
pub open spec fn mode_table() -> Seq<(Option<char>, Seq<char>, Seq<char>)> {
    seq![
        (None::<char>, "/"@, "Search all mail"@),
        (Some('>'), ">"@, "Run a command"@),
        (Some('#'), "#"@, "Go to a folder"@),
        (Some('@'), "@"@, "Find a correspondent"@),
        (Some('+'), "+"@, "Add a label"@),
    ]
}

/// Every mode, in the order the hint and the cheat sheet list them.
///
/// Search first because it is what the box does with no prefix at all.
pub fn modes() -> (out: Vec<FinderMode>)
    ensures
        out@.len() == mode_table().len(),
        forall|i: int|
            0 <= i < out@.len() ==> ((#[trigger] out@[i]).prefix, out@[i].marker@, out@[i].purpose@)
                == mode_table()[i],
{
    vec![
        FinderMode { prefix: None, marker: "/", purpose: "Search all mail" },
        FinderMode { prefix: Some('>'), marker: ">", purpose: "Run a command" },
        FinderMode { prefix: Some('#'), marker: "#", purpose: "Go to a folder" },
        FinderMode { prefix: Some('@'), marker: "@", purpose: "Find a correspondent" },
        FinderMode { prefix: Some('+'), marker: "+", purpose: "Add a label" },
    ]
}

// ---------------------------------------------------------------------------
// Labels
// ---------------------------------------------------------------------------

/// One label the `+` box can offer.
#[derive(Debug, Clone, PartialEq, Eq)]
pub struct LabelHit {
    /// The label to apply.
    pub id: LabelId,
    /// Its name, which is also what travels as a keyword.
    pub name: String,
    /// Byte indices in `name` the query matched, for highlighting.
    pub positions: Vec<usize>,
    /// How well it matched. Rows come out highest first.
    pub score: i32,
}

/// A label hit, its name as text.
pub struct LabelHitView {
    /// The label.
    pub id: LabelId,
    /// Its name.
    pub name: Seq<char>,
    /// Where the query matched.
    pub positions: Seq<usize>,
    /// How well.
    pub score: int,
}

impl View for LabelHit {
    type V = LabelHitView;

    open spec fn view(&self) -> LabelHitView {
        LabelHitView {
            id: self.id,
            name: self.name@,
            positions: self.positions@,
            score: self.score as int,
        }
    }
}

/// The views of label hits.
pub open spec fn label_views(hits: Seq<LabelHit>) -> Seq<LabelHitView> {
    hits.map_values(|hit: LabelHit| hit@)
}

/// The labels `query` matches, in the order they were given.
pub open spec fn label_rows(labels: Seq<Label>, query: Seq<char>) -> Seq<LabelHitView>
    decreases labels.len(),
{
    if labels.len() == 0 {
        Seq::empty()
    } else {
        let rest = label_rows(labels.drop_last(), query);
        let label = labels.last();
        match matched(query, label.name@) {
            Some(found) => rest.push(
                LabelHitView {
                    id: label.id,
                    name: label.name@,
                    positions: found.1,
                    score: found.0,
                },
            ),
            None => rest,
        }
    }
}

/// The scores of the hits.
pub open spec fn label_keys(rows: Seq<LabelHitView>) -> Seq<i64> {
    rows.map_values(|row: LabelHitView| row.score as i64)
}

impl LabelHit {
    fn copy(&self) -> (out: Self)
        ensures
            out@ == self@,
    {
        LabelHit {
            id: self.id,
            name: self.name.clone(),
            positions: copy_positions(&self.positions),
            score: self.score,
        }
    }
}

/// The labels matching `query`, best first.
///
/// The same matcher the command palette uses, so `wk` finds `Work` here
/// exactly as `cp` finds "Command palette" there. An empty query leaves the
/// given order alone.
pub fn labels(all: &[Label], query: &str) -> (out: Vec<LabelHit>)
    requires
        forall|i: int| 0 <= i < all@.len() ==> scorable((#[trigger] all@[i]).name@),
    ensures
        label_views(out@) == top(
            label_rows(all@, trimmed(query@)),
            label_keys(label_rows(all@, trimmed(query@))),
            MAX_ROWS as int,
        ),
{
    let query = trim(query);
    let mut found: Vec<LabelHit> = Vec::new();
    let mut keys: Vec<i64> = Vec::new();
    let mut i: usize = 0;
    assert(label_views(found@) =~= Seq::<LabelHitView>::empty());
    assert(keys@ =~= label_keys(label_views(found@)));
    while i < all.len()
        invariant
            i <= all@.len(),
            forall|i: int| 0 <= i < all@.len() ==> scorable((#[trigger] all@[i]).name@),
            label_views(found@) == label_rows(all@.take(i as int), query@),
            keys@ == label_keys(label_views(found@)),
        decreases all@.len() - i,
    {
        let ghost rows = label_views(found@);
        proof {
            assert(all@.take(i + 1).drop_last() =~= all@.take(i as int));
            assert(all@.take(i + 1).last() == all@[i as int]);
        }
        let label = &all[i];
        if let Some(matched) = score(query.as_str(), label.name.as_str()) {
            let hit = LabelHit {
                id: label.id,
                name: label.name.clone(),
                positions: matched.positions,
                score: matched.score,
            };
            let ghost row = hit@;
            keys.push(hit.score as i64);
            found.push(hit);
            assert(label_views(found@) =~= rows.push(row));
            assert(keys@ =~= label_keys(rows.push(row)));
        }
        i += 1;
    }
    assert(all@.take(all@.len() as int) =~= all@);
    let order = rank(&keys);
    let ghost rows = label_views(found@);
    let mut out: Vec<LabelHit> = Vec::new();
    let mut k: usize = 0;
    while k < order.len() && k < MAX_ROWS
        invariant
            rows == label_views(found@),
            keys@ == label_keys(rows),
            order@.len() == keys@.len(),
            order@.map_values(|i: usize| i as int) == best_first(keys@, keys@.len() as int),
            forall|i: int| 0 <= i < order@.len() ==> #[trigger] order@[i] < keys@.len(),
            k <= order@.len(),
            k <= MAX_ROWS,
            out@.len() == k,
            forall|j: int|
                0 <= j < k ==> (#[trigger] out@[j])@ == rows[best_first(keys@, keys@.len() as int)[j]],
        decreases order@.len() - k,
    {
        proof {
            let best = best_first(keys@, keys@.len() as int);
            assert(order@.map_values(|i: usize| i as int)[k as int] == best[k as int]);
        }
        let hit = found[order[k]].copy();
        out.push(hit);
        k += 1;
    }
    proof {
        assert(label_views(out@) =~= top(rows, keys@, MAX_ROWS as int));
    }
    out
}

// ---------------------------------------------------------------------------
// Correspondents
// ---------------------------------------------------------------------------

/// One correspondent the box matched.
#[derive(Clone, Debug, PartialEq, Eq)]
pub struct ContactHit {
    /// What to call them: the name the user set, then the last name seen on
    /// the address, then the address itself.
    pub name: String,
    /// The addr-spec, which is what `from:` will be given.
    pub address: String,
    /// How many messages this address has been seen on.
    pub times_seen: u32,
    /// Byte indices in `name` the query matched, for highlighting.
    pub positions: Vec<usize>,
    /// How well it matched. Rows come out highest first.
    pub score: i32,
}

/// A correspondent, their words as text.
pub struct ContactHitView {
    /// What to call them.
    pub name: Seq<char>,
    /// The addr-spec.
    pub address: Seq<char>,
    /// How often they were seen.
    pub times_seen: u32,
    /// Where the query matched.
    pub positions: Seq<usize>,
    /// How well.
    pub score: int,
}

impl View for ContactHit {
    type V = ContactHitView;

    open spec fn view(&self) -> ContactHitView {
        ContactHitView {
            name: self.name@,
            address: self.address@,
            times_seen: self.times_seen,
            positions: self.positions@,
            score: self.score as int,
        }
    }
}

/// The views of correspondents.
pub open spec fn contact_views(hits: Seq<ContactHit>) -> Seq<ContactHitView> {
    hits.map_values(|hit: ContactHit| hit@)
}

/// What to call a correspondent: the name the user set, then the last display
/// name seen on the address, then the address itself.
pub open spec fn name_for(contact: Contact) -> Seq<char> {
    match (text_opt(contact.name), text_opt(contact.address.name)) {
        (Some(name), _) => name,
        (None, Some(name)) => name,
        (None, None) => contact.address.address@,
    }
}

/// The row for `contact`, when `query` matches what they are called or else
/// their address.
pub open spec fn contact_row(contact: Contact, query: Seq<char>) -> Option<ContactHitView> {
    let row = ContactHitView {
        name: name_for(contact),
        address: contact.address.address@,
        times_seen: contact.times_seen,
        positions: Seq::empty(),
        score: 0,
    };
    match (matched(query, name_for(contact)), matched(query, contact.address.address@)) {
        (Some(found), _) => Some(ContactHitView { positions: found.1, score: found.0, ..row }),
        (None, Some(found)) => Some(ContactHitView { score: found.0, ..row }),
        (None, None) => None,
    }
}

/// The correspondents `query` matches, in the order they were given.
pub open spec fn contact_rows(contacts: Seq<Contact>, query: Seq<char>) -> Seq<ContactHitView>
    decreases contacts.len(),
{
    if contacts.len() == 0 {
        Seq::empty()
    } else {
        let rest = contact_rows(contacts.drop_last(), query);
        match contact_row(contacts.last(), query) {
            Some(row) => rest.push(row),
            None => rest,
        }
    }
}

/// What a correspondent ranks by: how well they matched, then how often they
/// were seen.
pub open spec fn contact_key(row: ContactHitView) -> i64 {
    (row.score * 0x1_0000_0000 + row.times_seen) as i64
}

/// What the correspondents rank by.
pub open spec fn contact_keys(rows: Seq<ContactHitView>) -> Seq<i64> {
    rows.map_values(|row: ContactHitView| contact_key(row))
}

impl ContactHit {
    fn copy(&self) -> (out: Self)
        ensures
            out@ == self@,
    {
        ContactHit {
            name: self.name.clone(),
            address: self.address.clone(),
            times_seen: self.times_seen,
            positions: copy_positions(&self.positions),
            score: self.score,
        }
    }
}

/// What to call a correspondent. Never empty for want of a name, so a row
/// always has something to say.
fn contact_name(contact: &Contact) -> (out: String)
    ensures
        out@ == name_for(*contact),
{
    match &contact.name {
        Some(name) => name.clone(),
        None => match &contact.address.name {
            Some(name) => name.clone(),
            None => contact.address.address.clone(),
        },
    }
}

/// The row for `contact`, when `query` matches.
fn match_contact(contact: &Contact, query: &str) -> (out: Option<ContactHit>)
    requires
        scorable(name_for(*contact)),
        scorable(contact.address.address@),
    ensures
        match out {
            Some(hit) => contact_row(*contact, query@) == Some(hit@),
            None => contact_row(*contact, query@) is None,
        },
{
    let name = contact_name(contact);
    let address = contact.address.address.clone();
    // The name first, so the highlight lands on what the row shows. Falling
    // back to the address means `@example.org` still finds people.
    let found = match score(query, name.as_str()) {
        Some(found) => found,
        None => match score(query, address.as_str()) {
            Some(found) => {
                let positions: Vec<usize> = Vec::new();
                assert(positions@ =~= Seq::<usize>::empty());
                Match { score: found.score, positions }
            },
            None => {
                return None;
            },
        },
    };
    Some(
        ContactHit {
            name,
            address,
            times_seen: contact.times_seen,
            positions: found.positions,
            score: found.score,
        },
    )
}

/// The correspondents matching `query`, best first.
///
/// Scored over the *name*, and again over the address when the name did not
/// match. Ties break on how often the correspondent has been seen, which is
/// the reason an empty query offers the people there is a lot of mail from.
pub fn contacts(everyone: &[Contact], query: &str) -> (out: Vec<ContactHit>)
    requires
        forall|i: int|
            0 <= i < everyone@.len() ==> scorable(name_for(#[trigger] everyone@[i])) && scorable(
                everyone@[i].address.address@,
            ),
    ensures
        contact_views(out@) == top(
            contact_rows(everyone@, trimmed(query@)),
            contact_keys(contact_rows(everyone@, trimmed(query@))),
            MAX_ROWS as int,
        ),
{
    let query = trim(query);
    let mut found: Vec<ContactHit> = Vec::new();
    let mut keys: Vec<i64> = Vec::new();
    let mut i: usize = 0;
    assert(contact_views(found@) =~= Seq::<ContactHitView>::empty());
    assert(keys@ =~= contact_keys(contact_views(found@)));
    while i < everyone.len()
        invariant
            i <= everyone@.len(),
            forall|i: int|
                0 <= i < everyone@.len() ==> scorable(name_for(#[trigger] everyone@[i]))
                    && scorable(everyone@[i].address.address@),
            contact_views(found@) == contact_rows(everyone@.take(i as int), query@),
            keys@ == contact_keys(contact_views(found@)),
        decreases everyone@.len() - i,
    {
        let ghost rows = contact_views(found@);
        proof {
            assert(everyone@.take(i + 1).drop_last() =~= everyone@.take(i as int));
            assert(everyone@.take(i + 1).last() == everyone@[i as int]);
        }
        if let Some(hit) = match_contact(&everyone[i], query.as_str()) {
            let ghost row = hit@;
            keys.push(hit.score as i64 * 0x1_0000_0000 + hit.times_seen as i64);
            found.push(hit);
            assert(contact_views(found@) =~= rows.push(row));
            assert(keys@ =~= contact_keys(rows.push(row)));
        }
        i += 1;
    }
    assert(everyone@.take(everyone@.len() as int) =~= everyone@);
    let order = rank(&keys);
    let ghost rows = contact_views(found@);
    let mut out: Vec<ContactHit> = Vec::new();
    let mut k: usize = 0;
    while k < order.len() && k < MAX_ROWS
        invariant
            rows == contact_views(found@),
            keys@ == contact_keys(rows),
            order@.len() == keys@.len(),
            order@.map_values(|i: usize| i as int) == best_first(keys@, keys@.len() as int),
            forall|i: int| 0 <= i < order@.len() ==> #[trigger] order@[i] < keys@.len(),
            k <= order@.len(),
            k <= MAX_ROWS,
            out@.len() == k,
            forall|j: int|
                0 <= j < k ==> (#[trigger] out@[j])@ == rows[best_first(keys@, keys@.len() as int)[j]],
        decreases order@.len() - k,
    {
        proof {
            let best = best_first(keys@, keys@.len() as int);
            assert(order@.map_values(|i: usize| i as int)[k as int] == best[k as int]);
        }
        let hit = found[order[k]].copy();
        out.push(hit);
        k += 1;
    }
    proof {
        assert(contact_views(out@) =~= top(rows, keys@, MAX_ROWS as int));
    }
    out
}

/// Correspondents who match equally well come out by how often they were
/// seen; a better match comes first whatever it was seen.
pub proof fn lemma_contact_order(a: ContactHitView, b: ContactHitView)
    requires
        i32::MIN <= a.score <= i32::MAX,
        i32::MIN <= b.score <= i32::MAX,
    ensures
        contact_key(a) > contact_key(b) <==> a.score > b.score || (a.score == b.score && a.times_seen
            > b.times_seen),
{
}

/// The query for the mail of one correspondent: quoted if the address could
/// not survive being typed back in.
pub open spec fn query_for(address: Seq<char>) -> Seq<char> {
    if has_white_space(address) {
        "from:\""@ + replaced_char(address, '"', ""@) + "\""@
    } else {
        "from:"@ + address
    }
}

/// The query picking `hit` puts in the box.
///
/// Deliberately *the query*, not a search that has already run: the point of
/// landing back in search is that the user can go on building on it.
pub fn contact_query(hit: &ContactHit) -> (out: String)
    ensures
        out@ == query_for(hit.address@),
{
    let address = hit.address.as_str();
    if contains_white_space(address) {
        let mut out = "from:\"".to_owned();
        out.append(replace_char(address, '"', "").as_str());
        out.append("\"");
        out
    } else {
        let mut out = "from:".to_owned();
        out.append(address);
        out
    }
}

// ---------------------------------------------------------------------------
// Laws
// ---------------------------------------------------------------------------

/// A correspondent has a row exactly when the query is a subsequence, ASCII
/// case aside, of what they are called or of their address; and the row says
/// what they are called, where they write from and how often they were seen.
/// What is highlighted is in the name.
pub proof fn lemma_who_a_query_finds(contact: Contact, query: Seq<char>, called: Seq<char>)
    requires
        byte_len(called) <= usize::MAX,
        byte_len(contact.address.address@) <= usize::MAX,
        contact.name matches Some(name) ==> called == name@,
        contact.name is None ==> (contact.address.name matches Some(name) ==> called == name@),
        contact.name is None && contact.address.name is None ==> called == contact.address.address@,
    ensures
        contact_row(contact, query) is Some <==> is_within(query, called) || is_within(
            query,
            contact.address.address@,
        ),
        contact_row(contact, query) matches Some(row) ==> {
            &&& row.name == called
            &&& row.address == contact.address.address@
            &&& row.times_seen == contact.times_seen
            &&& is_within(query, called) ==> (matched(query, called) matches Some(found)
                && row.positions == found.1 && row.score == found.0)
            &&& !is_within(query, called) ==> row.positions.len() == 0 && (matched(
                query,
                contact.address.address@,
            ) matches Some(found) && row.score == found.0)
        },
{
    lemma_a_match_is_a_subsequence(query, called);
    lemma_a_match_is_a_subsequence(query, contact.address.address@);
}

/// Everyone the query finds has a row, and every row is for someone it finds.
pub proof fn lemma_rows_are_those_found(contacts: Seq<Contact>, query: Seq<char>, i: int)
    ensures
        0 <= i < contacts.len() && contact_row(contacts[i], query) is Some ==> contact_rows(
            contacts,
            query,
        ).contains(contact_row(contacts[i], query)->0),
        0 <= i < contact_rows(contacts, query).len() ==> exists|k: int|
            0 <= k < contacts.len() && contact_row(#[trigger] contacts[k], query) == Some(
                contact_rows(contacts, query)[i],
            ),
    decreases contacts.len(),
{
    if contacts.len() > 0 {
        let rest = contacts.drop_last();
        let before = contact_rows(rest, query);
        let all = contact_rows(contacts, query);
        lemma_rows_are_those_found(rest, query, i);
        if 0 <= i < contacts.len() && contact_row(contacts[i], query) is Some {
            if i < rest.len() {
                assert(rest[i] == contacts[i]);
                let k = choose|k: int|
                    0 <= k < before.len() && before[k] == contact_row(contacts[i], query)->0;
                assert(all[k] == before[k]);
            } else {
                assert(all[before.len() as int] == contact_row(contacts[i], query)->0);
            }
        }
        if 0 <= i < all.len() {
            if i < before.len() {
                let k = choose|k: int|
                    0 <= k < rest.len() && contact_row(#[trigger] rest[k], query) == Some(before[i]);
                assert(contacts[k] == rest[k]);
            } else {
                assert(contact_row(contacts[contacts.len() - 1], query) == Some(all[i]));
            }
        }
    }
}

/// A label is offered exactly when the query is a subsequence of its name,
/// ASCII case aside, and as itself.
pub proof fn lemma_labels_are_those_found(labels: Seq<Label>, query: Seq<char>, i: int)
    requires
        forall|k: int|
            0 <= k < labels.len() ==> byte_len((#[trigger] labels[k]).name@) <= usize::MAX,
    ensures
        0 <= i < labels.len() && is_within(query, labels[i].name@) ==> exists|k: int|
            0 <= k < label_rows(labels, query).len() && (#[trigger] label_rows(labels, query)[k]).id
                == labels[i].id && label_rows(labels, query)[k].name == labels[i].name@,
        0 <= i < label_rows(labels, query).len() ==> exists|k: int|
            0 <= k < labels.len() && (#[trigger] labels[k]).id == label_rows(labels, query)[i].id
                && labels[k].name@ == label_rows(labels, query)[i].name && is_within(
                query,
                labels[k].name@,
            ),
    decreases labels.len(),
{
    if labels.len() > 0 {
        let rest = labels.drop_last();
        let before = label_rows(rest, query);
        let all = label_rows(labels, query);
        let last = labels[labels.len() - 1];
        assert forall|k: int| 0 <= k < rest.len() implies byte_len((#[trigger] rest[k]).name@)
            <= usize::MAX by {
            assert(rest[k] == labels[k]);
        }
        lemma_labels_are_those_found(rest, query, i);
        lemma_a_match_is_a_subsequence(query, last.name@);
        if 0 <= i < labels.len() && is_within(query, labels[i].name@) {
            if i < rest.len() {
                assert(rest[i] == labels[i]);
                let k = choose|k: int|
                    0 <= k < before.len() && (#[trigger] before[k]).id == rest[i].id
                        && before[k].name == rest[i].name@;
                assert(all[k] == before[k]);
            } else {
                assert(all[before.len() as int].id == last.id);
            }
        }
        if 0 <= i < all.len() {
            if i < before.len() {
                let k = choose|k: int|
                    0 <= k < rest.len() && (#[trigger] rest[k]).id == before[i].id && rest[k].name@
                        == before[i].name && is_within(query, rest[k].name@);
                assert(labels[k] == rest[k]);
            } else {
                assert(labels[labels.len() - 1].id == all[i].id);
            }
        }
    }
}

/// While there is room, everybody the query finds is shown.
pub proof fn lemma_everybody_found_is_shown(contacts: Seq<Contact>, query: Seq<char>, i: int)
    requires
        0 <= i < contacts.len(),
        contact_row(contacts[i], query) is Some,
        contact_rows(contacts, query).len() <= 48,
    ensures
        top(contact_rows(contacts, query), contact_keys(contact_rows(contacts, query)), MAX_ROWS as int).contains(
            contact_row(contacts[i], query)->0,
        ),
{
    let rows = contact_rows(contacts, query);
    lemma_rows_are_those_found(contacts, query, i);
    lemma_everything_shown_while_there_is_room(
        rows,
        contact_keys(rows),
        MAX_ROWS as int,
        contact_row(contacts[i], query)->0,
    );
}

/// What is highlighted in a label, and how well it did, is what the query
/// matched of its name; and the labels rank by how well they did.
pub proof fn lemma_label_rows_say_what_matched(labels: Seq<Label>, query: Seq<char>, i: int, j: int)
    requires
        0 <= i < label_rows(labels, query).len(),
        0 <= j < label_rows(labels, query).len(),
    ensures
        ({
            let rows = label_rows(labels, query);
            &&& matched(query, rows[i].name) == Some((rows[i].score, rows[i].positions))
            &&& i64::MIN <= rows[i].score <= i64::MAX && i64::MIN <= rows[j].score <= i64::MAX ==> (
            label_keys(rows)[i] > label_keys(rows)[j] <==> rows[i].score > rows[j].score)
        }),
    decreases labels.len(),
{
    let rest = labels.drop_last();
    let before = label_rows(rest, query);
    if i < before.len() {
        lemma_label_rows_say_what_matched(rest, query, i, i);
    }
}

/// The query for somebody's mail names their address, quoted exactly when
/// white space would part it; a quotation holds no quotation mark of its own,
/// and an address without one is in it whole.
pub proof fn lemma_query_for_a_correspondent(address: Seq<char>)
    ensures
        !has_white_space(address) ==> query_for(address) == "from:"@ + address,
        has_white_space(address) ==> exists|value: Seq<char>|
            query_for(address) == "from:\""@ + value + "\""@ && !value.contains('"') && (
            !address.contains('"') ==> value == address),
{
    if has_white_space(address) {
        let value = replaced_char(address, '"', ""@);
        lemma_quotes_taken_out(address);
        assert(query_for(address) == "from:\""@ + value + "\""@);
    }
}

proof fn lemma_quotes_taken_out(s: Seq<char>)
    ensures
        !replaced_char(s, '"', ""@).contains('"'),
        !s.contains('"') ==> replaced_char(s, '"', ""@) == s,
    decreases s.len(),
{
    reveal_strlit("");
    if s.len() > 0 {
        let rest = s.drop_last();
        lemma_quotes_taken_out(rest);
        if !s.contains('"') {
            assert(s[s.len() - 1] != '"');
            assert(!rest.contains('"')) by {
                if rest.contains('"') {
                    let i = choose|i: int| 0 <= i < rest.len() && rest[i] == '"';
                    assert(s[i] == '"');
                }
            }
            assert(replaced_char(s, '"', ""@) =~= s);
        }
    } else {
        assert(replaced_char(s, '"', ""@) =~= s);
    }
}

/// The box searches without a prefix and only then; every other mode is
/// entered by the character it is marked with, and no two by the same.
pub proof fn lemma_modes_by_prefix(i: int, j: int)
    requires
        0 <= i < mode_table().len(),
        0 <= j < mode_table().len(),
    ensures
        mode_table()[i].0 is None <==> i == 0,
        mode_table()[i].0 matches Some(prefix) ==> mode_table()[i].1 == seq![prefix],
        mode_table()[i].0 == mode_table()[j].0 ==> i == j,
{
    reveal_strlit(">");
    reveal_strlit("#");
    reveal_strlit("@");
    reveal_strlit("+");
    assert(">"@ =~= seq!['>']);
    assert("#"@ =~= seq!['#']);
    assert("@"@ =~= seq!['@']);
    assert("+"@ =~= seq!['+']);
}

} // verus!
