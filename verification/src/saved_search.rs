//! Keeping a query: the saved searches, and the four verbs a sidebar offers
//! over one.
//!
//! The promise is four edits to the settings file: save the query that is
//! showing, rename the row it made, move it among its neighbours, remove it.
//! The file is read, its table of saved searches mutated and spliced back by
//! the settings layer; what a verb asks of it, and what it leaves behind, is
//! decided here.
use vstd::prelude::*;
use crate::text::{copy_opt, has_text, lemma_trimmed, occurs_at, same_text, text_opt, trim, trimmed};
use crate::text::white_space;

verus! {

/// Which way a row moves.
#[derive(Debug, Clone, Copy, PartialEq, Eq, Structural)]
pub enum Reorder {
    /// Toward the first row.
    Up,
    /// Toward the last row.
    Down,
}

/// One pinned saved search, as a sidebar draws it.
#[derive(Debug, Clone, PartialEq, Eq)]
pub struct SavedSearch {
    /// The key -- the stable identity a rename, a reorder or a delete acts on.
    /// Never shown; [`SavedSearch::name`] draws.
    pub key: String,
    /// What the row shows: the display name the user chose, or the key when
    /// nobody has renamed it.
    pub name: String,
    /// The query text this row runs when it is picked.
    pub query: String,
}

/// A saved search as the settings file holds it, under its key.
#[derive(Debug, Clone, PartialEq, Eq)]
pub struct Filter {
    /// Its key.
    pub key: String,
    /// The display name the user chose.
    pub name: Option<String>,
    /// The query.
    pub query: String,
}

/// One of the four things a sidebar can do to the saved searches.
#[derive(Debug, Clone, Copy, PartialEq, Eq)]
pub enum Verb<'a> {
    /// Keep `query` as a new pinned search, named from its own text. Blank
    /// does nothing: pinning an empty query pins "everything".
    Save {
        /// The query as it stands in the search field.
        query: &'a str,
    },
    /// Give the search under `key` a display name of its own.
    Rename {
        /// Which search.
        key: &'a str,
        /// The new label. Blank, or the key repeated, means "not renamed".
        name: &'a str,
    },
    /// Move the search under `key` one place among its neighbours.
    Move {
        /// Which search.
        key: &'a str,
        /// Which way.
        direction: Reorder,
    },
    /// Remove the search under `key` entirely.
    Delete {
        /// Which search.
        key: &'a str,
    },
}

/// What a verb asks of the table of saved searches.
#[derive(Debug, Clone, PartialEq, Eq)]
pub enum Asked {
    /// Nothing: there is nothing to save.
    Nothing,
    /// Save this query.
    Save {
        /// The query, without the white space around it.
        query: String,
    },
    /// Rename the search under this key.
    Rename {
        /// Which search.
        key: String,
        /// The new label.
        name: String,
    },
    /// Move the search under this key.
    Move {
        /// Which search.
        key: String,
        /// Which way.
        direction: Reorder,
    },
    /// Delete the search under this key.
    Delete {
        /// Which search.
        key: String,
    },
}

/// What a verb left behind.
///
/// Always returned, even when the verb did nothing, because the caller's next
/// move is the same either way: draw [`Edit::searches`].
#[derive(Debug, Clone, PartialEq, Eq)]
pub struct Edit {
    /// The file as it now reads. Unchanged text when nothing happened.
    pub text: String,
    /// The rows the sidebar should draw now, in order.
    pub searches: Vec<SavedSearch>,
    /// The key of the entry that actually changed, or `None` when nothing did.
    /// After a reorder the keyboard has to stay on the row it moved.
    pub changed: Option<String>,
}

/// The words a frontend asks a question in.
#[derive(Debug, Clone, Copy, PartialEq, Eq)]
pub struct Prompt {
    /// The question itself.
    pub title: &'static str,
    /// What it costs, when that is not obvious from the title.
    pub body: Option<&'static str>,
    /// The button that goes through with it.
    pub confirm: &'static str,
    /// The button that does not.
    pub cancel: &'static str,
}

/// Asked before a saved search is deleted.
///
/// A settings edit has no undo stack to reach. The body says what is actually
/// lost: not the folder, which can be made again, but the query somebody
/// composed.
pub fn delete_prompt() -> (out: Prompt)
    ensures
        out.title@ == "Delete this saved search?"@,
        out.body matches Some(body) && body@
            == "It can be saved again from the same query, but the query itself is gone."@,
        out.confirm@ == "Delete"@,
        out.cancel@ == "Keep"@,
{
    Prompt {
        title: "Delete this saved search?",
        body: Some("It can be saved again from the same query, but the query itself is gone."),
        confirm: "Delete",
        cancel: "Keep",
    }
}

/// Asked when a saved search is being renamed.
///
/// No body: the entry, pre-filled with the name showing now, says everything a
/// sentence would.
pub fn rename_prompt() -> (out: Prompt)
    ensures
        out.title@ == "Rename this saved search?"@,
        out.body is None,
        out.confirm@ == "Rename"@,
        out.cancel@ == "Cancel"@,
{
    Prompt {
        title: "Rename this saved search?",
        body: None,
        confirm: "Rename",
        cancel: "Cancel",
    }
}

/// What a verb asks of the table.
pub open spec fn asks(asked: Asked, verb: Verb<'_>) -> bool {
    match verb {
        Verb::Save { query } => if trimmed(query@).len() == 0 {
            asked is Nothing
        } else {
            asked matches Asked::Save { query: kept } && kept@ == trimmed(query@)
        },
        Verb::Rename { key, name } => asked matches Asked::Rename { key: k, name: n } && k@ == key@
            && n@ == name@,
        Verb::Move { key, direction } => asked matches Asked::Move { key: k, direction: d } && k@
            == key@ && d == direction,
        Verb::Delete { key } => asked matches Asked::Delete { key: k } && k@ == key@,
    }
}

/// What `verb` asks of the table of saved searches.
pub fn asked_of(verb: Verb<'_>) -> (out: Asked)
    ensures
        asks(out, verb),
{
    match verb {
        Verb::Save { query } => {
            let query = trim(query);
            if query.as_str().unicode_len() == 0 {
                Asked::Nothing
            } else {
                Asked::Save { query }
            }
        },
        Verb::Rename { key, name } => Asked::Rename { key: key.to_owned(), name: name.to_owned() },
        Verb::Move { key, direction } => Asked::Move { key: key.to_owned(), direction },
        Verb::Delete { key } => Asked::Delete { key: key.to_owned() },
    }
}

/// The first of `filters` from `from` on that is under `key`.
pub open spec fn filter_under(filters: Seq<Filter>, key: Seq<char>, from: int) -> Option<Filter>
    decreases filters.len() - from,
{
    if from < 0 || from >= filters.len() {
        None
    } else if filters[from].key@ == key {
        Some(filters[from])
    } else {
        filter_under(filters, key, from + 1)
    }
}

/// A row as text: its key, name and query.
pub struct RowView {
    /// Its key.
    pub key: Seq<char>,
    /// What it shows.
    pub name: Seq<char>,
    /// What it runs.
    pub query: Seq<char>,
}

/// A row as text.
pub open spec fn row_view(row: SavedSearch) -> RowView {
    RowView { key: row.key@, name: row.name@, query: row.query@ }
}

/// The rows as text.
pub open spec fn row_views(rows: Seq<SavedSearch>) -> Seq<RowView> {
    Seq::new(rows.len(), |i: int| row_view(rows[i]))
}

/// The row a saved search is drawn as: under its name, or its key while it has
/// none.
pub open spec fn row_of(filter: Filter, key: Seq<char>) -> RowView {
    RowView {
        key,
        name: match text_opt(filter.name) {
            Some(name) => name,
            None => key,
        },
        query: filter.query@,
    }
}

/// The rows for `keys`, in that order; a key under which there is nothing has
/// none.
pub open spec fn rows_for(keys: Seq<String>, filters: Seq<Filter>) -> Seq<RowView>
    decreases keys.len(),
{
    if keys.len() == 0 {
        Seq::empty()
    } else {
        let rest = rows_for(keys.drop_last(), filters);
        match filter_under(filters, keys.last()@, 0) {
            Some(filter) => rest.push(row_of(filter, keys.last()@)),
            None => rest,
        }
    }
}

/// The first of `filters` under `key`.
fn find_filter<'a>(filters: &'a [Filter], key: &str) -> (out: Option<&'a Filter>)
    ensures
        match (out, filter_under(filters@, key@, 0)) {
            (Some(found), Some(filter)) => *found == filter,
            (None, None) => true,
            _ => false,
        },
{
    let mut i: usize = 0;
    while i < filters.len()
        invariant
            i <= filters@.len(),
            filter_under(filters@, key@, 0) == filter_under(filters@, key@, i as int),
        decreases filters@.len() - i,
    {
        if same_text(filters[i].key.as_str(), key) {
            return Some(&filters[i]);
        }
        i += 1;
    }
    None
}

/// The pinned saved searches, in the order a sidebar shows them: `keys` is
/// that order, so a frontend draws the list exactly as given rather than
/// sorting it again and disagreeing.
pub fn pinned(keys: &[String], filters: &[Filter]) -> (out: Vec<SavedSearch>)
    ensures
        row_views(out@) == rows_for(keys@, filters@),
{
    let mut out: Vec<SavedSearch> = Vec::new();
    let mut i: usize = 0;
    assert(row_views(out@) =~= rows_for(keys@.take(0), filters@));
    while i < keys.len()
        invariant
            i <= keys@.len(),
            row_views(out@) == rows_for(keys@.take(i as int), filters@),
        decreases keys@.len() - i,
    {
        let ghost done = row_views(out@);
        assert(keys@.take(i + 1).drop_last() =~= keys@.take(i as int));
        assert(keys@.take(i + 1).last() == keys@[i as int]);
        let key = &keys[i];
        if let Some(filter) = find_filter(filters, key.as_str()) {
            let name = match &filter.name {
                Some(name) => name.clone(),
                None => key.clone(),
            };
            let ghost view = row_of(*filter, key@);
            out.push(SavedSearch { key: key.clone(), name, query: filter.query.clone() });
            assert(row_views(out@) =~= done.push(view));
        }
        i += 1;
    }
    assert(keys@.take(keys@.len() as int) =~= keys@);
    out
}

/// Which entry a verb changed: the one it named, when the table is not the one
/// it was.
pub open spec fn changed_of(
    named: Option<Seq<char>>,
    table_changed: bool,
) -> Option<Seq<char>> {
    if table_changed {
        named
    } else {
        None
    }
}

/// The file after a verb that changed the entry `changed`: the one with the
/// table spliced in, or the one there was.
pub open spec fn file_after(
    text: Seq<char>,
    patched: Seq<char>,
    changed: Option<Seq<char>>,
) -> Seq<char> {
    if changed is Some {
        patched
    } else {
        text
    }
}

/// Whether the file has to be rewritten: the verb named something real, and
/// the table is not the one it was.
///
/// Naming something real is not the same question as changing anything --
/// renaming a search to the name it already had names something real -- and a
/// write that would rewrite the file byte for byte never happens.
pub fn needs_patch(named: &Option<String>, table_changed: bool) -> (out: bool)
    ensures
        out == (changed_of(text_opt(*named), table_changed) is Some),
{
    named.is_some() && table_changed
}

/// What a verb left behind.
///
/// `text` is the file as it was, `searches` the rows of the table after the
/// verb, `named` the key of what the verb named, if that was something real,
/// `table_changed` whether the table is another than before, and `patched` the
/// file with the table spliced in, which is only asked for where
/// [`needs_patch`] says so.
pub fn edit(
    text: &str,
    searches: Vec<SavedSearch>,
    named: &Option<String>,
    table_changed: bool,
    patched: &str,
) -> (out: Edit)
    ensures
        out.searches == searches,
        text_opt(out.changed) == changed_of(text_opt(*named), table_changed),
        out.text@ == file_after(text@, patched@, changed_of(text_opt(*named), table_changed)),
{
    if needs_patch(named, table_changed) {
        Edit { text: patched.to_owned(), searches, changed: copy_opt(named) }
    } else {
        Edit { text: text.to_owned(), searches, changed: None }
    }
}

/// A verb that named nothing real, or left the table as it was, leaves the
/// file as it was.
pub proof fn lemma_no_change_keeps_the_file(
    text: Seq<char>,
    patched: Seq<char>,
    named: Option<Seq<char>>,
    table_changed: bool,
)
    requires
        named is None || !table_changed,
    ensures
        changed_of(named, table_changed) is None,
        file_after(text, patched, changed_of(named, table_changed)) == text,
{
}

/// A row draws under the name it was given, and under its key while it has
/// none; its key never changes with its name.
pub proof fn lemma_row_keeps_its_key(filter: Filter, key: Seq<char>)
    ensures
        row_of(filter, key).key == key,
        filter.name is None ==> row_of(filter, key).name == key,
        filter.name matches Some(name) ==> row_of(filter, key).name == name@,
{
}

/// A verb that names something real and changes the table says so by that
/// name, and leaves the file with the table in it.
pub proof fn lemma_a_change_is_written(
    text: Seq<char>,
    patched: Seq<char>,
    named: Seq<char>,
)
    ensures
        changed_of(Some(named), true) == Some(named),
        file_after(text, patched, changed_of(Some(named), true)) == patched,
{
}

/// Only a query with something in it is saved, without the white space around
/// it; every other verb asks for what it was given.
pub proof fn lemma_what_a_verb_asks(asked: Asked, verb: Verb<'_>)
    requires
        asks(asked, verb),
    ensures
        asked is Nothing <==> (verb matches Verb::Save { query } && forall|i: int|
            0 <= i < query@.len() ==> white_space(#[trigger] query@[i])),
        verb matches Verb::Save { query } ==> (asked matches Asked::Save { query: kept } ==> kept@.len()
            > 0 && !white_space(kept@[0]) && !white_space(kept@.last()) && has_text(query@, kept@)),
        verb matches Verb::Rename { key, name } ==> asked is Rename && asked->Rename_key@ == key@
            && asked->name@ == name@,
        verb matches Verb::Move { key, direction } ==> asked is Move && asked->Move_key@ == key@
            && asked->direction == direction,
        verb matches Verb::Delete { key } ==> asked is Delete && asked->Delete_key@ == key@,
{
    if let Verb::Save { query } = verb {
        let s = query@;
        lemma_trimmed(s);
        let (from, to) = choose|from: int, to: int|
            {
                &&& 0 <= from <= to <= s.len()
                &&& trimmed(s) == #[trigger] s.subrange(from, to)
                &&& forall|i: int| 0 <= i < from ==> white_space(#[trigger] s[i])
                &&& forall|i: int| to <= i < s.len() ==> white_space(#[trigger] s[i])
            };
        if trimmed(s).len() > 0 {
            assert(trimmed(s)[0] == s[from]);
            assert(!white_space(s[from]));
            assert(occurs_at(s, trimmed(s), from));
        } else {
            assert forall|i: int| 0 <= i < s.len() implies white_space(#[trigger] s[i]) by {
                if i >= to {
                } else {
                    assert(i < from);
                }
            }
        }
    }
}

/// The rows come in the order of the keys, key by key: each under the first
/// search there is for it, and none where there is none.
pub proof fn lemma_rows_key_by_key(
    keys: Seq<String>,
    more: Seq<String>,
    key: String,
    filters: Seq<Filter>,
    i: int,
)
    ensures
        rows_for(keys + more, filters) == rows_for(keys, filters) + rows_for(more, filters),
        0 <= i < filters.len() && filters[i].key@ == key@ && (forall|j: int|
            0 <= j < i ==> (#[trigger] filters[j]).key@ != key@) ==> ({
            let rows = rows_for(seq![key], filters);
            &&& rows.len() == 1
            &&& rows[0].key == key@
            &&& rows[0].query == filters[i].query@
            &&& filters[i].name matches Some(name) ==> rows[0].name == name@
            &&& filters[i].name is None ==> rows[0].name == key@
        }),
        (forall|j: int| 0 <= j < filters.len() ==> (#[trigger] filters[j]).key@ != key@)
            ==> rows_for(seq![key], filters).len() == 0,
    decreases more.len(),
{
    let one = seq![key];
    assert(rows_for(one.drop_last(), filters) =~= Seq::<RowView>::empty());
    assert(one.last() == key);
    if 0 <= i < filters.len() && filters[i].key@ == key@ && (forall|j: int|
        0 <= j < i ==> (#[trigger] filters[j]).key@ != key@) {
        lemma_filter_found(filters, key@, 0, i);
    }
    if forall|j: int| 0 <= j < filters.len() ==> (#[trigger] filters[j]).key@ != key@ {
        lemma_no_filter(filters, key@, 0);
    }
    if more.len() == 0 {
        assert(keys + more =~= keys);
        assert(rows_for(keys, filters) + rows_for(more, filters) =~= rows_for(keys, filters));
    } else {
        lemma_rows_key_by_key(keys, more.drop_last(), key, filters, i);
        assert((keys + more).drop_last() =~= keys + more.drop_last());
        assert((keys + more).last() == more.last());
        assert(rows_for(keys + more, filters) =~= rows_for(keys, filters) + rows_for(
            more,
            filters,
        ));
    }
}

proof fn lemma_filter_found(filters: Seq<Filter>, key: Seq<char>, from: int, i: int)
    requires
        0 <= from <= i < filters.len(),
        filters[i].key@ == key,
        forall|j: int| 0 <= j < i ==> (#[trigger] filters[j]).key@ != key,
    ensures
        filter_under(filters, key, from) == Some(filters[i]),
    decreases i - from,
{
    if from < i {
        lemma_filter_found(filters, key, from + 1, i);
    }
}

proof fn lemma_no_filter(filters: Seq<Filter>, key: Seq<char>, from: int)
    requires
        0 <= from,
        forall|j: int| 0 <= j < filters.len() ==> (#[trigger] filters[j]).key@ != key,
    ensures
        filter_under(filters, key, from) is None,
    decreases filters.len() - from,
{
    if from < filters.len() {
        lemma_no_filter(filters, key, from + 1);
    }
}

} // verus!
