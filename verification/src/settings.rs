//! The settings sections: which they are, what they are called, which group
//! they sit under, and where each one starts in the file.
//!
//! Nothing here parses the file: a header is a line's brackets, which is what
//! lets the navigation stay live while the buffer is mid-edit and
//! syntactically broken.
use vstd::prelude::*;
use crate::text::{chars_of, decimal, decimal_of, find_char, first_index, lines_of, same_text, split_lines};
use crate::text::{lemma_first_and_last, lemma_padding_comes_off, text_of, texts, trim, trimmed, white_space};

verus! {

/// One of the eight sections the nav lists, in order.
#[derive(Debug, Clone, Copy, PartialEq, Eq, Structural)]
pub enum Section {
    /// One row per account, and the form for the selected one.
    Accounts,
    /// Named saved queries.
    Filters,
    /// Signatures, and where one goes above a quote.
    Composing,
    /// Theme, row density, what the message list shows.
    Appearance,
    /// Command id to binding.
    Keyboard,
    /// What is fetched and when.
    Sync,
    /// The remote-image allow-list and what has been unsubscribed from.
    Privacy,
    /// The file itself, as text.
    ConfigFile,
}

/// Which heading a pane sits under in the sidebar.
#[derive(Debug, Clone, Copy, PartialEq, Eq, Structural)]
pub enum Group {
    /// Accounts, Filters, Composing.
    Mail,
    /// Appearance, Keyboard, Sync & storage, Privacy, Config file.
    Application,
}

impl Group {
    /// Every group, in sidebar order.
    pub const ALL: [Group; 2] = [Group::Mail, Group::Application];

    /// The sidebar heading, already upper-cased.
    pub fn label(self) -> (out: &'static str)
        ensures
            out@ == match self {
                Group::Mail => "MAIL"@,
                Group::Application => "APPLICATION"@,
            },
    {
        match self {
            Group::Mail => "MAIL",
            Group::Application => "APPLICATION",
        }
    }
}

/// The heading a section sits under.
pub open spec fn group_of(section: Section) -> Group {
    match section {
        Section::Accounts | Section::Filters | Section::Composing => Group::Mail,
        _ => Group::Application,
    }
}

/// The top-level key a section's headers start with.
pub open spec fn key_of(section: Section) -> Seq<char> {
    match section {
        Section::Appearance => "ui"@,
        Section::Keyboard => "keys"@,
        Section::Accounts => "accounts"@,
        Section::Sync => "sync"@,
        Section::Filters => "filters"@,
        Section::Composing => "compose"@,
        Section::Privacy => "privacy"@,
        Section::ConfigFile => ""@,
    }
}

/// A section's name.
pub open spec fn label_of(section: Section) -> Seq<char> {
    match section {
        Section::Accounts => "Accounts"@,
        Section::Filters => "Filters"@,
        Section::Composing => "Composing"@,
        Section::Appearance => "Appearance"@,
        Section::Keyboard => "Keyboard"@,
        Section::Sync => "Sync & storage"@,
        Section::Privacy => "Privacy"@,
        Section::ConfigFile => "Config file"@,
    }
}

/// What a section is for.
pub open spec fn description_of(section: Section) -> Seq<char> {
    match section {
        Section::Accounts => "Every account this installation signs in to."@,
        Section::Filters => "Saved searches, and which of them the sidebar shows."@,
        Section::Composing => "Signatures, and where one goes when a quote sits under it."@,
        Section::Appearance => "How the message list is drawn, and how much of it fits."@,
        Section::Keyboard => "Every command and the key that runs it."@,
        Section::Sync => "When mail is fetched, and what the local store keeps."@,
        Section::Privacy => "What Postio will not do without being asked."@,
        Section::ConfigFile => "The whole file, as text. Everything above writes here."@,
    }
}

/// The words a person would type looking for a section.
pub open spec fn keywords_of(section: Section) -> Seq<char> {
    match section {
        Section::Accounts => "account address imap smtp password oauth signature server remove"@,
        Section::Filters => "saved search query pinned sidebar filter"@,
        Section::Composing => "signature reply forward quote compose"@,
        Section::Appearance => "theme dark light density row height avatars hover font"@,
        Section::Keyboard => "key binding shortcut rebind keys chord"@,
        Section::Sync => "sync idle poll interval storage index attachments notify size"@,
        Section::Privacy => "remote images trackers unsubscribe read receipts connections"@,
        Section::ConfigFile => "toml file text editor raw"@,
    }
}

/// The table of the file a section owns.
pub open spec fn table_of(section: Section) -> Option<Seq<char>> {
    match section {
        Section::Accounts => Some("[accounts]"@),
        Section::Filters => Some("[filters]"@),
        Section::Composing => Some("[compose]"@),
        Section::Appearance => Some("[ui]"@),
        Section::Keyboard => Some("[keys]"@),
        Section::Sync => Some("[sync]"@),
        Section::Privacy | Section::ConfigFile => None,
    }
}

impl Section {
    /// Every section, in nav order.
    pub const ALL: [Section; 8] = [
        Section::Accounts,
        Section::Filters,
        Section::Composing,
        Section::Appearance,
        Section::Keyboard,
        Section::Sync,
        Section::Privacy,
        Section::ConfigFile,
    ];

    /// Which sidebar heading this pane sits under.
    pub fn group(self) -> (out: Group)
        ensures
            out == group_of(self),
    {
        match self {
            Section::Accounts | Section::Filters | Section::Composing => Group::Mail,
            Section::Appearance
            | Section::Keyboard
            | Section::Sync
            | Section::Privacy
            | Section::ConfigFile => Group::Application,
        }
    }

    /// The top-level key this section's headers start with.
    ///
    /// Accounts and filters never appear as a bare header — every one is its
    /// own dotted table — so matching is by the first part of the header.
    pub fn key(self) -> (out: &'static str)
        ensures
            out@ == key_of(self),
    {
        match self {
            Section::Appearance => "ui",
            Section::Keyboard => "keys",
            Section::Accounts => "accounts",
            Section::Sync => "sync",
            Section::Filters => "filters",
            Section::Composing => "compose",
            Section::Privacy => "privacy",
            // Not a table: the pane shows every table there is.
            Section::ConfigFile => "",
        }
    }

    /// The nav label, and the pane's own title.
    pub fn label(self) -> (out: &'static str)
        ensures
            out@ == label_of(self),
    {
        match self {
            Section::Accounts => "Accounts",
            Section::Filters => "Filters",
            Section::Composing => "Composing",
            Section::Appearance => "Appearance",
            Section::Keyboard => "Keyboard",
            Section::Sync => "Sync & storage",
            Section::Privacy => "Privacy",
            Section::ConfigFile => "Config file",
        }
    }

    /// The one line under the pane's title, saying what it is for.
    pub fn description(self) -> (out: &'static str)
        ensures
            out@ == description_of(self),
    {
        match self {
            Section::Accounts => "Every account this installation signs in to.",
            Section::Filters => "Saved searches, and which of them the sidebar shows.",
            Section::Composing => "Signatures, and where one goes when a quote sits under it.",
            Section::Appearance => "How the message list is drawn, and how much of it fits.",
            Section::Keyboard => "Every command and the key that runs it.",
            Section::Sync => "When mail is fetched, and what the local store keeps.",
            Section::Privacy => "What Postio will not do without being asked.",
            Section::ConfigFile => "The whole file, as text. Everything above writes here.",
        }
    }

    /// What this pane is about, for the find-a-setting field: the words a
    /// person would type, including the ones the pane's own title does not
    /// contain.
    pub fn keywords(self) -> (out: &'static str)
        ensures
            out@ == keywords_of(self),
    {
        match self {
            Section::Accounts => "account address imap smtp password oauth signature server remove",
            Section::Filters => "saved search query pinned sidebar filter",
            Section::Composing => "signature reply forward quote compose",
            Section::Appearance => "theme dark light density row height avatars hover font",
            Section::Keyboard => "key binding shortcut rebind keys chord",
            Section::Sync => "sync idle poll interval storage index attachments notify size",
            Section::Privacy => "remote images trackers unsubscribe read receipts connections",
            Section::ConfigFile => "toml file text editor raw",
        }
    }

    /// The table this pane owns, for the footer line.
    ///
    /// `None` for the two panes that own no table: Privacy keeps its state
    /// outside the file entirely, and Config file is the file.
    pub fn table(self) -> (out: Option<&'static str>)
        ensures
            match out {
                Some(table) => table_of(self) == Some(table@),
                None => table_of(self) is None,
            },
    {
        match self {
            Section::Accounts => Some("[accounts]"),
            Section::Filters => Some("[filters]"),
            Section::Composing => Some("[compose]"),
            Section::Appearance => Some("[ui]"),
            Section::Keyboard => Some("[keys]"),
            Section::Sync => Some("[sync]"),
            Section::Privacy | Section::ConfigFile => None,
        }
    }
}

/// The sections in nav order.
pub open spec fn all_sections() -> Seq<Section> {
    seq![
        Section::Accounts,
        Section::Filters,
        Section::Composing,
        Section::Appearance,
        Section::Keyboard,
        Section::Sync,
        Section::Privacy,
        Section::ConfigFile,
    ]
}

/// What stands before the first `.` of `s`.
pub open spec fn first_segment(s: Seq<char>) -> Seq<char> {
    match first_index(s, '.') {
        Some(at) => s.take(at),
        None => s,
    }
}

/// The first path segment of a `[...]` header line, if `line` is one.
///
/// `[accounts.personal.imap]` yields `accounts`; a setting and a doubled
/// bracket yield nothing.
pub open spec fn header_segment(line: Seq<char>) -> Option<Seq<char>> {
    let bare = trimmed(line);
    if bare.len() < 2 || bare[0] != '[' || bare.last() != ']' {
        None
    } else {
        let inner = bare.subrange(1, bare.len() - 1);
        if inner.len() == 0 || inner[0] == '[' {
            None
        } else {
            Some(first_segment(inner))
        }
    }
}

/// The section whose key is `key`, the first from `from` on.
pub open spec fn section_keyed(key: Seq<char>, from: int) -> Option<Section>
    decreases all_sections().len() - from,
{
    if from < 0 || from >= all_sections().len() {
        None
    } else if key_of(all_sections()[from]) == key {
        Some(all_sections()[from])
    } else {
        section_keyed(key, from + 1)
    }
}

/// The section `line` is the header of.
pub open spec fn header_of(line: Seq<char>) -> Option<Section> {
    match header_segment(line) {
        Some(key) => section_keyed(key, 0),
        None => None,
    }
}

/// The first line from `from` on that is a header of `section`.
pub open spec fn first_header(lines: Seq<Seq<char>>, section: Section, from: int) -> Option<int>
    decreases lines.len() - from,
{
    if from < 0 || from >= lines.len() {
        None
    } else if header_of(lines[from]) == Some(section) {
        Some(from)
    } else {
        first_header(lines, section, from + 1)
    }
}

/// The section of the last header among the first `n` lines.
pub open spec fn last_header(lines: Seq<Seq<char>>, n: int) -> Option<Section>
    decreases n,
{
    if n <= 0 || n > lines.len() {
        None
    } else {
        match header_of(lines[n - 1]) {
            Some(section) => Some(section),
            None => last_header(lines, n - 1),
        }
    }
}

/// The first path segment of a header line.
pub fn header_key(line: &str) -> (out: Option<String>)
    ensures
        match out {
            Some(key) => header_segment(line@) == Some(key@),
            None => header_segment(line@) is None,
        },
{
    let bare = chars_of(trim(line).as_str());
    if bare.len() < 2 || bare[0] != '[' || bare[bare.len() - 1] != ']' {
        return None;
    }
    let end: usize = bare.len() - 1;
    let inner = chars_of(text_of(&bare, 1, end).as_str());
    if inner.len() == 0 || inner[0] == '[' {
        return None;
    }
    assert(inner@.skip(0) =~= inner@);
    match find_char(&inner, '.', 0) {
        Some(at) => {
            let key = text_of(&inner, 0, at);
            assert(key@ =~= inner@.take(at as int));
            Some(key)
        },
        None => {
            let key = text_of(&inner, 0, inner.len());
            assert(key@ =~= inner@);
            Some(key)
        },
    }
}

/// The section `line` is the header of.
fn header_section(line: &str) -> (out: Option<Section>)
    ensures
        out == header_of(line@),
{
    let key = match header_key(line) {
        Some(key) => key,
        None => {
            return None;
        },
    };
    let all = Section::ALL;
    assert(all@ =~= all_sections());
    let mut i: usize = 0;
    while i < 8
        invariant
            i <= 8,
            all@ == all_sections(),
            header_of(line@) == section_keyed(key@, i as int),
        decreases 8 - i,
    {
        if same_text(all[i].key(), key.as_str()) {
            return Some(all[i]);
        }
        i += 1;
    }
    None
}

/// Where `section` is written: the first header of a section that owns a
/// table, and nowhere for one that owns none.
pub open spec fn section_line(text: Seq<char>, section: Section) -> Option<int> {
    if table_of(section) is None {
        None
    } else {
        first_header(lines_of(text), section, 0)
    }
}

/// The first line `section` is written at, if it appears in `text` at all.
///
/// `None` for a section that owns no table, whatever the file says.
pub fn find_section(text: &str, section: Section) -> (out: Option<usize>)
    ensures
        match (out, section_line(text@, section)) {
            (Some(line), Some(expected)) => line == expected,
            (None, None) => true,
            _ => false,
        },
{
    if section.table().is_none() {
        return None;
    }
    let lines = split_lines(text);
    let ghost all = lines_of(text@);
    let mut i: usize = 0;
    while i < lines.len()
        invariant
            all == lines_of(text@),
            texts(lines@) == all,
            i <= lines@.len(),
            table_of(section) is Some,
            first_header(all, section, 0) == first_header(all, section, i as int),
        decreases lines@.len() - i,
    {
        assert(all[i as int] == lines@[i as int]@);
        if let Some(found) = header_section(lines[i].as_str()) {
            if found == section {
                return Some(i);
            }
        }
        i += 1;
    }
    None
}

/// Which section a cursor on `cursor_line` sits inside — the nearest header
/// at or above it. `None` above the first header, or in a file with none.
pub fn section_at_line(text: &str, cursor_line: usize) -> (out: Option<Section>)
    ensures
        out == last_header(
            lines_of(text@),
            if cursor_line < lines_of(text@).len() {
                cursor_line + 1
            } else {
                lines_of(text@).len() as int
            },
        ),
{
    let lines = split_lines(text);
    let ghost all = lines_of(text@);
    assert(lines@.len() == all.len());
    let mut n: usize = if cursor_line < lines.len() {
        cursor_line + 1
    } else {
        lines.len()
    };
    let ghost start = n as int;
    while n > 0
        invariant
            all == lines_of(text@),
            start == (if cursor_line < all.len() {
                cursor_line + 1
            } else {
                all.len() as int
            }),
            texts(lines@) == all,
            n <= lines@.len(),
            last_header(all, start) == last_header(all, n as int),
        decreases n,
    {
        assert(all[n - 1] == lines@[n - 1]@);
        if let Some(found) = header_section(lines[n - 1].as_str()) {
            return Some(found);
        }
        n -= 1;
    }
    None
}

/// An interval in words: `300` is `5 min`, `90` is `90s`, `3600` is `1 h`.
pub open spec fn interval_text(seconds: nat) -> Seq<char> {
    if seconds == 0 {
        "never"@
    } else if seconds % 3600 == 0 {
        decimal(seconds / 3600) + " h"@
    } else if seconds % 60 == 0 {
        decimal(seconds / 60) + " min"@
    } else {
        decimal(seconds) + "s"@
    }
}

/// `300` → `5 min`, `90` → `90s`, `3600` → `1 h`.
pub fn humanize_interval(seconds: u64) -> (out: String)
    ensures
        out@ == interval_text(seconds as nat),
{
    if seconds == 0 {
        return "never".to_owned();
    }
    if seconds % 3600 == 0 {
        let mut out = decimal_of(seconds / 3600);
        out.append(" h");
        out
    } else if seconds % 60 == 0 {
        let mut out = decimal_of(seconds / 60);
        out.append(" min");
        out
    } else {
        let mut out = decimal_of(seconds);
        out.append("s");
        out
    }
}

/// A cursor on the line a section is found at sits in that section.
pub proof fn lemma_header_line_is_inside(text: Seq<char>, section: Section)
    requires
        section_line(text, section) is Some,
    ensures
        last_header(lines_of(text), section_line(text, section)->0 + 1) == Some(section),
{
    lemma_first_header(lines_of(text), section, 0);
}

proof fn lemma_first_header(lines: Seq<Seq<char>>, section: Section, from: int)
    requires
        0 <= from,
    ensures
        first_header(lines, section, from) matches Some(at) ==> from <= at < lines.len() && header_of(
            lines[at],
        ) == Some(section),
    decreases lines.len() - from,
{
    if from < lines.len() && header_of(lines[from]) != Some(section) {
        lemma_first_header(lines, section, from + 1);
    }
}

// ---------------------------------------------------------------------------
// Laws
// ---------------------------------------------------------------------------

/// The table a section owns is the one its key heads; two sections own none.
/// What writes mail sits under one heading, the rest under the other.
pub proof fn lemma_key_heads_the_table(section: Section)
    ensures
        table_of(section) is None <==> section is Privacy || section is ConfigFile,
        table_of(section) matches Some(table) ==> table == seq!['['] + key_of(section) + seq![']'],
        group_of(section) is Mail <==> section is Accounts || section is Filters
            || section is Composing,
{
    reveal_strlit("[accounts]");
    reveal_strlit("[filters]");
    reveal_strlit("[compose]");
    reveal_strlit("[ui]");
    reveal_strlit("[keys]");
    reveal_strlit("[sync]");
    lemma_keys();
    match section {
        Section::Accounts => {
            assert("[accounts]"@ =~= seq!['['] + key_of(section) + seq![']']);
        },
        Section::Filters => {
            assert("[filters]"@ =~= seq!['['] + key_of(section) + seq![']']);
        },
        Section::Composing => {
            assert("[compose]"@ =~= seq!['['] + key_of(section) + seq![']']);
        },
        Section::Appearance => {
            assert("[ui]"@ =~= seq!['['] + key_of(section) + seq![']']);
        },
        Section::Keyboard => {
            assert("[keys]"@ =~= seq!['['] + key_of(section) + seq![']']);
        },
        Section::Sync => {
            assert("[sync]"@ =~= seq!['['] + key_of(section) + seq![']']);
        },
        Section::Privacy => {},
        Section::ConfigFile => {},
    }
}

proof fn lemma_keys()
    ensures
        key_of(Section::Appearance) == seq!['u', 'i'],
        key_of(Section::Keyboard) == seq!['k', 'e', 'y', 's'],
        key_of(Section::Accounts) == seq!['a', 'c', 'c', 'o', 'u', 'n', 't', 's'],
        key_of(Section::Sync) == seq!['s', 'y', 'n', 'c'],
        key_of(Section::Filters) == seq!['f', 'i', 'l', 't', 'e', 'r', 's'],
        key_of(Section::Composing) == seq!['c', 'o', 'm', 'p', 'o', 's', 'e'],
        key_of(Section::Privacy) == seq!['p', 'r', 'i', 'v', 'a', 'c', 'y'],
        key_of(Section::ConfigFile).len() == 0,
{
    reveal_strlit("ui");
    reveal_strlit("keys");
    reveal_strlit("accounts");
    reveal_strlit("sync");
    reveal_strlit("filters");
    reveal_strlit("compose");
    reveal_strlit("privacy");
    reveal_strlit("");
    assert(key_of(Section::Appearance) =~= seq!['u', 'i']);
    assert(key_of(Section::Keyboard) =~= seq!['k', 'e', 'y', 's']);
    assert(key_of(Section::Accounts) =~= seq!['a', 'c', 'c', 'o', 'u', 'n', 't', 's']);
    assert(key_of(Section::Sync) =~= seq!['s', 'y', 'n', 'c']);
    assert(key_of(Section::Filters) =~= seq!['f', 'i', 'l', 't', 'e', 'r', 's']);
    assert(key_of(Section::Composing) =~= seq!['c', 'o', 'm', 'p', 'o', 's', 'e']);
    assert(key_of(Section::Privacy) =~= seq!['p', 'r', 'i', 'v', 'a', 'c', 'y']);
}

/// A section is found by its own key, and a key that is no section's finds
/// none.
pub proof fn lemma_keys_find_their_section(section: Section, key: Seq<char>)
    ensures
        section_keyed(key_of(section), 0) == Some(section),
        section_keyed(key, 0) matches Some(found) ==> key_of(found) == key,
        section_keyed(key, 0) is None ==> key != key_of(section),
{
    lemma_keys();
    reveal_with_fuel(section_keyed, 9);
    let all = all_sections();
    assert(key_of(Section::Appearance)[0] == 'u');
    assert(key_of(Section::Keyboard)[0] == 'k');
    assert(key_of(Section::Accounts)[0] == 'a');
    assert(key_of(Section::Sync)[0] == 's');
    assert(key_of(Section::Filters)[0] == 'f');
    assert(key_of(Section::Composing)[0] == 'c');
    assert(key_of(Section::Privacy)[0] == 'p');
    assert(key_of(Section::Privacy).len() == 7);
    assert(all[0] is Accounts && all[1] is Filters && all[2] is Composing && all[3] is Appearance
        && all[4] is Keyboard && all[5] is Sync && all[6] is Privacy && all[7] is ConfigFile);
    match section {
        Section::Accounts => {},
        Section::Filters => {},
        Section::Composing => {},
        Section::Appearance => {},
        Section::Keyboard => {},
        Section::Sync => {},
        Section::Privacy => {},
        Section::ConfigFile => {},
    }
}

/// A line is a header exactly by its brackets, white space around it aside:
/// what stands in them, up to the first dot, is its key.
pub proof fn lemma_what_a_header_names(
    before: Seq<char>,
    key: Seq<char>,
    rest: Seq<char>,
    after: Seq<char>,
)
    requires
        forall|i: int| 0 <= i < before.len() ==> white_space(#[trigger] before[i]),
        forall|i: int| 0 <= i < after.len() ==> white_space(#[trigger] after[i]),
        key.len() > 0 && key[0] != '[',
        !key.contains('.'),
    ensures
        header_segment(before + (seq!['['] + key + seq![']']) + after) == Some(key),
        header_segment(before + (seq!['['] + key + seq!['.'] + rest + seq![']']) + after) == Some(
            key,
        ),
        header_segment(before + (seq!['[', '['] + key + seq![']', ']']) + after) is None,
        !white_space(key[0]) && !white_space(key.last()) ==> header_segment(before + key + after)
            is None,
{
    let bare = seq!['['] + key + seq![']'];
    let dotted = seq!['['] + key + seq!['.'] + rest + seq![']'];
    let doubled = seq!['[', '['] + key + seq![']', ']'];
    lemma_padding_comes_off(before, bare, after);
    lemma_padding_comes_off(before, dotted, after);
    lemma_padding_comes_off(before, doubled, after);
    assert(bare.subrange(1, bare.len() - 1) =~= key);
    lemma_first_and_last(key, '.');
    let inner = dotted.subrange(1, dotted.len() - 1);
    assert(inner =~= key + seq!['.'] + rest);
    lemma_first_and_last(inner, '.');
    assert(inner[key.len() as int] == '.');
    assert forall|i: int| 0 <= i < key.len() implies #[trigger] inner[i] != '.' by {
        assert(key[i] == inner[i]);
    }
    assert(inner[0] == key[0]);
    assert(first_index(inner, '.') == Some(key.len() as int));
    assert(inner.take(key.len() as int) =~= key);
    assert(doubled.subrange(1, doubled.len() - 1)[0] == '[');
    if !white_space(key[0]) && !white_space(key.last()) {
        lemma_padding_comes_off(before, key, after);
    }
}

/// A section starts at the first line that heads it, and nowhere only when no
/// line does; one that owns no table starts nowhere.
pub proof fn lemma_where_a_section_starts(text: Seq<char>, section: Section)
    ensures
        section is Privacy || section is ConfigFile ==> section_line(text, section) is None,
        !(section is Privacy || section is ConfigFile) ==> match section_line(text, section) {
            Some(at) => 0 <= at < lines_of(text).len() && header_of(lines_of(text)[at]) == Some(
                section,
            ) && forall|i: int|
                0 <= i < at ==> header_of(#[trigger] lines_of(text)[i]) != Some(section),
            None => forall|i: int|
                0 <= i < lines_of(text).len() ==> header_of(#[trigger] lines_of(text)[i]) != Some(
                    section,
                ),
        },
{
    lemma_header_is_first(lines_of(text), section, 0);
}

proof fn lemma_header_is_first(lines: Seq<Seq<char>>, section: Section, from: int)
    requires
        0 <= from,
    ensures
        match first_header(lines, section, from) {
            Some(at) => from <= at < lines.len() && header_of(lines[at]) == Some(section)
                && forall|i: int|
                from <= i < at ==> header_of(#[trigger] lines[i]) != Some(section),
            None => forall|i: int|
                from <= i < lines.len() ==> header_of(#[trigger] lines[i]) != Some(section),
        },
    decreases lines.len() - from,
{
    if from < lines.len() && header_of(lines[from]) != Some(section) {
        lemma_header_is_first(lines, section, from + 1);
    }
}

/// A line is inside the section of the nearest header at or above it, and in
/// none only where there is no such header.
pub proof fn lemma_nearest_header_above(lines: Seq<Seq<char>>, n: int)
    requires
        0 <= n <= lines.len(),
    ensures
        match last_header(lines, n) {
            Some(section) => exists|at: int|
                0 <= at < n && header_of(#[trigger] lines[at]) == Some(section) && forall|i: int|
                    at < i < n ==> header_of(#[trigger] lines[i]) is None,
            None => forall|i: int| 0 <= i < n ==> header_of(#[trigger] lines[i]) is None,
        },
    decreases n,
{
    if n > 0 {
        if header_of(lines[n - 1]) is None {
            lemma_nearest_header_above(lines, n - 1);
            if let Some(section) = last_header(lines, n - 1) {
                let at = choose|at: int|
                    0 <= at < n - 1 && header_of(#[trigger] lines[at]) == Some(section)
                        && forall|i: int|
                        at < i < n - 1 ==> header_of(#[trigger] lines[i]) is None;
                assert(header_of(lines[at]) == Some(section));
            }
        } else {
            assert(header_of(lines[n - 1]) == last_header(lines, n));
        }
    }
}

/// An interval is said exactly, in the largest of hours, minutes and seconds
/// that it is a whole number of.
pub proof fn lemma_interval_is_exact(seconds: nat)
    requires
        seconds > 0,
    ensures
        exists|n: nat|
            {
                ||| n * 3600 == seconds && interval_text(seconds) == #[trigger] decimal(n) + " h"@
                ||| n * 60 == seconds && seconds % 3600 != 0 && interval_text(seconds) == decimal(n)
                    + " min"@
                ||| n == seconds && seconds % 60 != 0 && interval_text(seconds) == decimal(n) + "s"@
            },
        interval_text(0) == "never"@,
{
    let n = if seconds % 3600 == 0 {
        seconds / 3600
    } else if seconds % 60 == 0 {
        seconds / 60
    } else {
        seconds
    };
    assert(decimal(n) == decimal(n));
}

/// No two sections go by the same name.
pub proof fn lemma_labels_are_told_apart(a: Section, b: Section)
    requires
        label_of(a) == label_of(b),
    ensures
        a == b,
{
    reveal_strlit("Accounts");
    reveal_strlit("Filters");
    reveal_strlit("Composing");
    reveal_strlit("Appearance");
    reveal_strlit("Keyboard");
    reveal_strlit("Sync & storage");
    reveal_strlit("Privacy");
    reveal_strlit("Config file");
    assert(label_of(Section::Accounts).len() == 8);
    assert(label_of(Section::Filters).len() == 7);
    assert(label_of(Section::Composing).len() == 9);
    assert(label_of(Section::Appearance).len() == 10);
    assert(label_of(Section::Keyboard).len() == 8);
    assert(label_of(Section::Sync).len() == 14);
    assert(label_of(Section::Privacy).len() == 7);
    assert(label_of(Section::ConfigFile).len() == 11);
    assert(label_of(Section::Accounts)[0] == 'A');
    assert(label_of(Section::Keyboard)[0] == 'K');
    assert(label_of(Section::Filters)[0] == 'F');
    assert(label_of(Section::Privacy)[0] == 'P');
    match a {
        Section::Accounts => {},
        Section::Filters => {},
        Section::Composing => {},
        Section::Appearance => {},
        Section::Keyboard => {},
        Section::Sync => {},
        Section::Privacy => {},
        Section::ConfigFile => {},
    }
    match b {
        Section::Accounts => {},
        Section::Filters => {},
        Section::Composing => {},
        Section::Appearance => {},
        Section::Keyboard => {},
        Section::Sync => {},
        Section::Privacy => {},
        Section::ConfigFile => {},
    }
}

} // verus!
