//! Finding a command: fuzzy matching over the command registry.
//!
//! Everything that decides *what to show* is [`entries`] and [`score`]. What
//! each frontend keeps is the drawing: the positions are byte indices into the
//! title, rather than marked-up text.
use vstd::prelude::*;
use crate::rank::{best_first, lemma_best_first, lemma_everything_shown_while_there_is_room, rank, top};
use crate::text::{alphanumeric, ascii_lower_char, byte_len, bytes_of, chars_of, is_alphanumeric};
use crate::text::{copy_opt, lemma_byte_len, text_opt, to_ascii_lower_char, trim, trimmed, width_of};
use crate::model::{CommandSpec, Context, Scope};

verus! {

/// How many rows the palette will show at once.
///
/// The list scrolls past this; the cap is on what is *built*, so a query that
/// matches everything costs the same as one that matches three things.
pub const MAX_ROWS: usize = 48;

/// Where a query matched, and how well.
#[derive(Debug, Clone, PartialEq, Eq)]
pub struct Match {
    /// Higher is better. Only comparable between candidates for one query.
    pub score: i32,
    /// Byte indices in the candidate that the query matched, ascending.
    pub positions: Vec<usize>,
}

/// A match at the start of a word is worth far more than one mid-word: typing
/// `cp` should find "Command palette" ahead of "Copy".
pub const WORD_START: i32 = 24;

/// Each character that continues an unbroken run.
pub const CONSECUTIVE: i32 = 12;

/// Every character skipped over, up to a floor — a match spread across a long
/// title is still a match, just a worse one.
pub const GAP: i32 = -2;

/// The most any single gap can cost.
pub const GAP_FLOOR: i32 = -12;

/// Where the first character of `s` from `from` on is `wanted`, ASCII case
/// aside.
pub open spec fn next_match(s: Seq<char>, wanted: char, from: int) -> Option<int>
    decreases s.len() - from,
{
    if from < 0 || from >= s.len() {
        None
    } else if ascii_lower_char(s[from]) == ascii_lower_char(wanted) {
        Some(from)
    } else {
        next_match(s, wanted, from + 1)
    }
}

/// The characters of `candidate` that `query` matches: the first place each
/// can go, left to right. `None` when it is not a subsequence at all.
pub open spec fn places(query: Seq<char>, candidate: Seq<char>) -> Option<Seq<int>>
    decreases query.len(),
{
    if query.len() == 0 {
        Some(Seq::empty())
    } else {
        match places(query.drop_last(), candidate) {
            Some(found) => match next_match(
                candidate,
                query.last(),
                if found.len() == 0 {
                    0
                } else {
                    found.last() + 1
                },
            ) {
                Some(at) => Some(found.push(at)),
                None => None,
            },
            None => None,
        }
    }
}

/// The byte at which character `at` of `candidate` starts.
pub open spec fn offset(candidate: Seq<char>, at: int) -> int {
    byte_len(candidate.take(at)) as int
}

/// The bytes at which the matched characters start.
pub open spec fn offsets(candidate: Seq<char>, found: Seq<int>) -> Seq<usize> {
    found.map_values(|at: int| offset(candidate, at) as usize)
}

/// Match `k` follows directly on the one before it.
pub open spec fn continues(candidate: Seq<char>, found: Seq<int>, k: int) -> bool {
    k > 0 && offset(candidate, found[k]) == offset(candidate, found[k - 1]) + 1
}

/// How long an unbroken run match `k` continues.
pub open spec fn run_length(candidate: Seq<char>, found: Seq<int>, k: int) -> int
    decreases k,
{
    if k > 0 && continues(candidate, found, k) {
        run_length(candidate, found, k - 1) + 1
    } else {
        0
    }
}

/// Character `at` begins a word.
pub open spec fn begins_word(candidate: Seq<char>, at: int) -> bool {
    at == 0 || !alphanumeric(candidate[at - 1])
}

/// What skipping `skipped` bytes costs.
pub open spec fn gap_cost(skipped: int) -> int {
    if GAP * skipped > GAP_FLOOR {
        GAP * skipped
    } else {
        GAP_FLOOR as int
    }
}

/// What match `k` is worth: an unbroken run counts for more as it grows, up
/// to three; anything else for the start of a word, less what was skipped.
pub open spec fn points(candidate: Seq<char>, found: Seq<int>, k: int) -> int {
    if continues(candidate, found, k) {
        let run = run_length(candidate, found, k);
        CONSECUTIVE * (if run < 3 {
            run
        } else {
            3
        })
    } else {
        let start = if begins_word(candidate, found[k]) {
            WORD_START as int
        } else {
            0
        };
        let skipped = if k > 0 {
            offset(candidate, found[k]) - offset(candidate, found[k - 1]) - 1
        } else {
            offset(candidate, found[k])
        };
        start + gap_cost(skipped)
    }
}

/// What the first `n` matches are worth.
pub open spec fn points_of(candidate: Seq<char>, found: Seq<int>, n: int) -> int
    decreases n,
{
    if n <= 0 {
        0
    } else {
        points_of(candidate, found, n - 1) + points(candidate, found, n - 1)
    }
}

/// How well `query` matches `candidate`, and where: between two candidates
/// that match equally well, the shorter one is the one the user meant. An
/// empty query matches everything with a score of zero.
pub open spec fn matched(query: Seq<char>, candidate: Seq<char>) -> Option<(int, Seq<usize>)> {
    if query.len() == 0 {
        Some((0int, Seq::empty()))
    } else {
        match places(query, candidate) {
            Some(found) => Some(
                (
                    points_of(candidate, found, found.len() as int) - byte_len(candidate) as int
                        / 8,
                    offsets(candidate, found),
                ),
            ),
            None => None,
        }
    }
}

/// `candidate` is short enough for its scores to be numbers.
pub open spec fn scorable(candidate: Seq<char>) -> bool {
    36 * byte_len(candidate) <= i32::MAX
}

/// The matched characters come one after another inside the candidate.
pub proof fn lemma_places(query: Seq<char>, candidate: Seq<char>)
    ensures
        places(query, candidate) matches Some(found) ==> {
            &&& found.len() == query.len()
            &&& forall|k: int| 0 <= k < found.len() ==> 0 <= #[trigger] found[k] < candidate.len()
            &&& forall|k: int|
                0 <= k < found.len() ==> ascii_lower_char(candidate[#[trigger] found[k]])
                    == ascii_lower_char(query[k])
            &&& forall|k: int, l: int|
                0 <= k < l < found.len() ==> #[trigger] found[k] < #[trigger] found[l]
        },
    decreases query.len(),
{
    if query.len() > 0 {
        lemma_places(query.drop_last(), candidate);
        if let Some(found) = places(query.drop_last(), candidate) {
            let from = if found.len() == 0 {
                0
            } else {
                found.last() + 1
            };
            lemma_next_match(candidate, query.last(), from);
        }
    }
}

proof fn lemma_next_match(s: Seq<char>, wanted: char, from: int)
    requires
        0 <= from,
    ensures
        next_match(s, wanted, from) matches Some(at) ==> from <= at < s.len() && ascii_lower_char(
            s[at],
        ) == ascii_lower_char(wanted),
    decreases s.len() - from,
{
    if from < s.len() && ascii_lower_char(s[from]) != ascii_lower_char(wanted) {
        lemma_next_match(s, wanted, from + 1);
    }
}

/// No match is worth more than 36 points either way.
proof fn lemma_points_bounded(candidate: Seq<char>, found: Seq<int>, n: int)
    requires
        0 <= n <= found.len(),
        forall|k: int| 0 <= k < found.len() ==> 0 <= #[trigger] found[k] < candidate.len(),
        forall|k: int, l: int|
            0 <= k < l < found.len() ==> #[trigger] found[k] < #[trigger] found[l],
    ensures
        -12 * n <= points_of(candidate, found, n) <= 36 * n,
    decreases n,
{
    if n > 0 {
        lemma_points_bounded(candidate, found, n - 1);
        lemma_run_bounded(candidate, found, n - 1);
        if n > 1 {
            lemma_offset_grows(candidate, found[n - 2], found[n - 1]);
        }
    }
}

proof fn lemma_run_bounded(candidate: Seq<char>, found: Seq<int>, k: int)
    requires
        0 <= k,
    ensures
        0 <= run_length(candidate, found, k) <= k,
        continues(candidate, found, k) ==> run_length(candidate, found, k) >= 1,
    decreases k,
{
    if k > 0 && continues(candidate, found, k) {
        lemma_run_bounded(candidate, found, k - 1);
    }
}

/// A query that failed on a part fails on the whole.
proof fn lemma_no_places(query: Seq<char>, candidate: Seq<char>, n: int)
    requires
        0 <= n <= query.len(),
        places(query.take(n), candidate) is None,
    ensures
        places(query, candidate) is None,
    decreases query.len(),
{
    if n < query.len() {
        assert(query.drop_last().take(n) =~= query.take(n));
        lemma_no_places(query.drop_last(), candidate, n);
    } else {
        assert(query.take(n) =~= query);
    }
}

/// Whether character `at` begins a word.
fn starts_a_word(candidate: &Vec<char>, at: usize) -> (out: bool)
    requires
        at < candidate@.len(),
    ensures
        out == begins_word(candidate@, at as int),
{
    at == 0 || !is_alphanumeric(candidate[at - 1])
}

/// What skipping `skipped` bytes costs.
fn cost_of_gap(skipped: usize) -> (out: i32)
    requires
        skipped <= 0x3fff_ffff,
    ensures
        out == gap_cost(skipped as int),
{
    let cost: i32 = -2 * skipped as i32;
    if cost > GAP_FLOOR {
        cost
    } else {
        GAP_FLOOR
    }
}

/// Scores `query` as a subsequence of `candidate`, case-insensitively.
///
/// Returns `None` when the query is not a subsequence at all. An empty query
/// matches everything with a score of zero, which is what makes an unfiltered
/// palette fall back to registry order.
///
/// Greedy left-to-right: the first place each character can go is where it
/// goes.
pub fn score(query: &str, candidate: &str) -> (out: Option<Match>)
    requires
        scorable(candidate@),
    ensures
        match (out, matched(query@, candidate@)) {
            (Some(found), Some(expected)) => found.score == expected.0 && found.positions@
                == expected.1,
            (None, None) => true,
            _ => false,
        },
{
    let wanted = chars_of(query);
    if wanted.len() == 0 {
        let out = Match { score: 0, positions: Vec::new() };
        assert(out.positions@ =~= Seq::<usize>::empty());
        return Some(out);
    }
    let chars = chars_of(candidate);
    let ghost s = candidate@;
    let mut positions: Vec<usize> = Vec::new();
    let mut total: i32 = 0;
    let mut run: i32 = 0;
    let mut last: usize = 0;
    // The character to look at next, and the byte it starts at.
    let mut at: usize = 0;
    let mut byte: usize = 0;
    let mut i: usize = 0;
    let ghost mut found: Seq<int> = Seq::empty();
    assert(s.take(0) =~= Seq::<char>::empty());
    proof {
        lemma_byte_len(s, 0);
    }
    assert(offsets(s, found) =~= Seq::<usize>::empty());
    while i < wanted.len()
        invariant
            wanted@ == query@,
            query@.len() > 0,
            chars@ == s,
            s == candidate@,
            scorable(s),
            s.len() <= byte_len(s),
            i <= wanted@.len(),
            found.len() == i,
            places(query@.take(i as int), s) == Some(found),
            at == (if i == 0 {
                0
            } else {
                found.last() + 1
            }),
            at <= s.len(),
            byte == offset(s, at as int),
            positions@ == offsets(s, found),
            total == points_of(s, found, i as int),
            i > 0 ==> last == offset(s, found.last()),
            i > 0 ==> run == run_length(s, found, i - 1),
            i <= s.len(),
            0 <= run <= i,
        decreases wanted@.len() - i,
    {
        let c = to_ascii_lower_char(wanted[i]);
        let ghost from = at as int;
        let ghost part = query@.take(i as int);
        proof {
            assert(query@.take(i + 1).drop_last() =~= part);
            assert(query@.take(i + 1).last() == query@[i as int]);
        }
        while at < chars.len() && to_ascii_lower_char(chars[at]) != c
            invariant
                chars@ == s,
                from <= at <= s.len(),
                byte == offset(s, at as int),
                36 * byte_len(s) <= i32::MAX,
                c == ascii_lower_char(query@[i as int]),
                next_match(s, query@[i as int], from) == next_match(s, query@[i as int], at as int),
            decreases s.len() - at,
        {
            proof {
                lemma_byte_len(s, at as int);
                lemma_byte_len(s, at + 1);
            }
            byte = byte + width_of(chars[at]);
            at += 1;
        }
        if at == chars.len() {
            proof {
                lemma_no_places(query@, s, i + 1);
            }
            return None;
        }
        let index: usize = byte;
        let ghost before = found;
        proof {
            found = found.push(at as int);
            lemma_byte_len(s, at as int);
            lemma_byte_len(s, at + 1);
            lemma_points_prefix(s, before, at as int, i as int);
            lemma_places(query@.take(i as int), s);
            lemma_points_bounded(s, before, i as int);
            lemma_places(query@.take(i + 1), s);
            lemma_increasing(found, s.len() as int);
            if i > 0 {
                lemma_offset_grows(s, before.last(), at as int);
                assert(found[i - 1] == before.last());
                lemma_run_prefix(s, before, at as int, i - 1);
            }
            assert(found[i as int] == at);
            assert(points_of(s, found, i + 1) == points_of(s, before, i as int) + points(
                s,
                found,
                i as int,
            ));
            assert(continues(s, found, i as int) == (i > 0 && last + 1 == index));
        }
        if i > 0 && last + 1 == index {
            run = run + 1;
            total = total + 12 * (if run < 3 {
                run
            } else {
                3
            });
        } else {
            run = 0;
            if starts_a_word(&chars, at) {
                total = total + WORD_START;
            }
            if i > 0 {
                total = total + cost_of_gap(index - last - 1);
            } else {
                // Leading noise before the first match is worth less than a
                // gap inside it: "message" matching "Next message" is fine.
                total = total + cost_of_gap(index);
            }
        }
        assert(run == run_length(s, found, i as int));
        assert(total == points_of(s, found, i + 1));
        positions.push(index);
        last = index;
        assert(positions@ =~= offsets(s, found));
        byte = byte + width_of(chars[at]);
        at += 1;
        i += 1;
    }
    assert(query@.take(query@.len() as int) =~= query@);
    proof {
        lemma_places(query@, s);
        lemma_points_bounded(s, found, i as int);
    }
    let length: usize = bytes_of(&chars);
    let penalty: i32 = length as i32 / 8;
    Some(Match { score: total - penalty, positions })
}

/// Each matched character is further along than its number.
proof fn lemma_increasing(found: Seq<int>, len: int)
    requires
        0 <= len,
        forall|k: int| 0 <= k < found.len() ==> 0 <= #[trigger] found[k] < len,
        forall|k: int, l: int|
            0 <= k < l < found.len() ==> #[trigger] found[k] < #[trigger] found[l],
    ensures
        found.len() <= len,
        found.len() > 0 ==> found.last() >= found.len() - 1,
    decreases found.len(),
{
    if found.len() > 1 {
        lemma_increasing(found.drop_last(), len);
        assert(found[found.len() - 2] < found[found.len() - 1]);
    }
    if found.len() > 0 {
        assert(found[found.len() - 1] < len);
    }
}

/// A later character starts at a later byte.
proof fn lemma_offset_grows(s: Seq<char>, a: int, b: int)
    requires
        0 <= a < b <= s.len(),
    ensures
        offset(s, a) < offset(s, b),
    decreases b - a,
{
    lemma_byte_len(s, b - 1);
    if a < b - 1 {
        lemma_offset_grows(s, a, b - 1);
    }
}

/// What the matches so far are worth does not depend on the next one.
proof fn lemma_points_prefix(s: Seq<char>, found: Seq<int>, at: int, n: int)
    requires
        0 <= n <= found.len(),
    ensures
        points_of(s, found.push(at), n) == points_of(s, found, n),
        forall|k: int|
            0 <= k < n ==> #[trigger] run_length(s, found.push(at), k) == run_length(s, found, k),
    decreases n,
{
    if n > 0 {
        lemma_points_prefix(s, found, at, n - 1);
        lemma_run_prefix(s, found, at, n - 1);
    }
}

proof fn lemma_run_prefix(s: Seq<char>, found: Seq<int>, at: int, k: int)
    requires
        0 <= k < found.len(),
    ensures
        run_length(s, found.push(at), k) == run_length(s, found, k),
    decreases k,
{
    if k > 0 {
        lemma_run_prefix(s, found, at, k - 1);
    }
}

/// No score is so low that a penalty could not be taken off it.
pub proof fn lemma_score_floor(query: Seq<char>, candidate: Seq<char>)
    requires
        scorable(candidate),
    ensures
        matched(query, candidate) matches Some(found) ==> found.0 >= -13 * byte_len(candidate)
            && found.0 <= i32::MAX,
{
    lemma_places(query, candidate);
    lemma_byte_len(candidate, 0);
    if let Some(found) = places(query, candidate) {
        lemma_increasing(found, candidate.len() as int);
        lemma_points_bounded(candidate, found, found.len() as int);
    }
}

// ---------------------------------------------------------------------------
// Entries
// ---------------------------------------------------------------------------

/// One row of the palette.
#[derive(Debug, Clone, PartialEq, Eq)]
pub struct Entry {
    /// The command this row runs.
    pub id: String,
    /// Its title, as the registry gives it.
    pub title: String,
    /// Its binding in force, or `None` when it is palette-only.
    pub binding: Option<String>,
    /// Byte indices in `title` the query matched, for highlighting.
    pub positions: Vec<usize>,
    /// How well it matched. Rows come out highest first, those matched by
    /// their title before those matched by their id.
    pub score: i32,
}

/// One row of the palette, its words as text.
pub struct EntryView {
    /// The command.
    pub id: Seq<char>,
    /// Its title.
    pub title: Seq<char>,
    /// Its binding.
    pub binding: Option<Seq<char>>,
    /// Where the query matched.
    pub positions: Seq<usize>,
    /// How well.
    pub score: int,
}

impl View for Entry {
    type V = EntryView;

    open spec fn view(&self) -> EntryView {
        EntryView {
            id: self.id@,
            title: self.title@,
            binding: text_opt(self.binding),
            positions: self.positions@,
            score: self.score as int,
        }
    }
}

/// The views of rows of the palette.
pub open spec fn entry_views(entries: Seq<Entry>) -> Seq<EntryView> {
    entries.map_values(|entry: Entry| entry@)
}

/// Penalty for matching the stable id rather than the title.
///
/// `archive_thread` is findable by typing `archive_th`, but a title match for
/// the same query always ranks above it, whatever the two scores are.
pub const ID_PENALTY: i32 = 40;

/// What ranks any title match above any id match: more than two scores can
/// differ by.
pub const TITLE_RANK: i64 = 4_294_967_296;

/// A row, and what the query matched to make it.
pub struct Ranked {
    /// The query matched the title, and not only the id.
    pub by_title: bool,
    /// The row.
    pub row: EntryView,
}

/// `command` is of use in `context` with `scope` on show.
pub open spec fn reachable(command: CommandSpec, context: Context, scope: Scope) -> bool {
    &&& command.anywhere || command.contexts@.contains(context)
    &&& command.needs_account ==> scope is Account
}

/// Being of use in `context` with `scope` on show.
pub open spec fn reachable_in(context: Context, scope: Scope) -> spec_fn(CommandSpec) -> bool {
    |command: CommandSpec| reachable(command, context, scope)
}

/// The row for `command`, when `query` matches its title or else its id.
pub open spec fn row_for(command: CommandSpec, query: Seq<char>) -> Option<Ranked> {
    let row = EntryView {
        id: command.id@,
        title: command.title@,
        binding: text_opt(command.binding),
        positions: Seq::empty(),
        score: 0,
    };
    match (matched(query, command.title@), matched(query, command.id@)) {
        (Some(title), _) => Some(
            Ranked {
                by_title: true,
                row: EntryView { positions: title.1, score: title.0, ..row },
            },
        ),
        (None, Some(id)) => Some(
            Ranked { by_title: false, row: EntryView { score: id.0 - ID_PENALTY, ..row } },
        ),
        (None, None) => None,
    }
}

/// The rows that `query` matches, in registry order.
pub open spec fn rows_for(commands: Seq<CommandSpec>, query: Seq<char>) -> Seq<Ranked>
    decreases commands.len(),
{
    if commands.len() == 0 {
        Seq::empty()
    } else {
        let rest = rows_for(commands.drop_last(), query);
        match row_for(commands.last(), query) {
            Some(row) => rest.push(row),
            None => rest,
        }
    }
}

/// Where a row ranks: title matches above id matches, and then by score.
pub open spec fn rank_of(ranked: Ranked) -> i64 {
    if ranked.by_title {
        (ranked.row.score + TITLE_RANK) as i64
    } else {
        ranked.row.score as i64
    }
}

/// Where each of the rows ranks.
pub open spec fn ranks(rows: Seq<Ranked>) -> Seq<i64> {
    rows.map_values(|ranked: Ranked| rank_of(ranked))
}

/// The rows themselves.
pub open spec fn unranked(rows: Seq<Ranked>) -> Seq<EntryView> {
    rows.map_values(|ranked: Ranked| ranked.row)
}

/// What is shown for `query`, best first.
pub open spec fn shown(
    commands: Seq<CommandSpec>,
    context: Context,
    scope: Scope,
    query: Seq<char>,
) -> Seq<Ranked> {
    let rows = rows_for(commands.filter(reachable_in(context, scope)), query);
    top(rows, ranks(rows), MAX_ROWS as int)
}

/// A copy of positions.
pub fn copy_positions(positions: &Vec<usize>) -> (out: Vec<usize>)
    ensures
        out@ == positions@,
{
    let mut out: Vec<usize> = Vec::new();
    let mut i: usize = 0;
    while i < positions.len()
        invariant
            i <= positions@.len(),
            out@ == positions@.take(i as int),
        decreases positions@.len() - i,
    {
        out.push(positions[i]);
        i += 1;
        assert(out@ =~= positions@.take(i as int));
    }
    assert(out@ =~= positions@);
    out
}

impl Entry {
    /// A copy of this row.
    fn copy(&self) -> (out: Self)
        ensures
            out@ == self@,
    {
        Entry {
            id: self.id.clone(),
            title: self.title.clone(),
            binding: copy_opt(&self.binding),
            positions: copy_positions(&self.positions),
            score: self.score,
        }
    }
}

/// The row for `command`, when `query` matches it, and where it ranks.
fn match_command(command: &CommandSpec, query: &str) -> (out: Option<(Entry, i64)>)
    requires
        scorable(command.title@),
        scorable(command.id@),
    ensures
        match (out, row_for(*command, query@)) {
            (Some(found), Some(ranked)) => found.0@ == ranked.row && found.1 == rank_of(ranked),
            (None, None) => true,
            _ => false,
        },
{
    let mut by_title = true;
    let found = match score(query, command.title.as_str()) {
        Some(found) => found,
        None => match score(query, command.id.as_str()) {
            Some(found) => {
                proof {
                    lemma_score_floor(query@, command.id@);
                }
                by_title = false;
                let positions: Vec<usize> = Vec::new();
                assert(positions@ =~= Seq::<usize>::empty());
                Match { score: found.score - ID_PENALTY, positions }
            },
            None => {
                return None;
            },
        },
    };
    let rank: i64 = if by_title {
        found.score as i64 + TITLE_RANK
    } else {
        found.score as i64
    };
    let entry = Entry {
        id: command.id.clone(),
        title: command.title.clone(),
        binding: copy_opt(&command.binding),
        positions: found.positions,
        score: found.score,
    };
    Some((entry, rank))
}

/// Whether `command` is of use in `context` with `scope` on show.
fn is_reachable(command: &CommandSpec, context: Context, scope: Scope) -> (out: bool)
    ensures
        out == reachable(*command, context, scope),
{
    if command.needs_account {
        match scope {
            Scope::Unified => {
                return false;
            },
            Scope::Account(_) => {},
        }
    }
    if command.anywhere {
        return true;
    }
    let mut i: usize = 0;
    while i < command.contexts.len()
        invariant
            i <= command.contexts@.len(),
            command.needs_account ==> scope is Account,
            !command.anywhere,
            forall|k: int| 0 <= k < i ==> #[trigger] command.contexts@[k] != context,
        decreases command.contexts@.len() - i,
    {
        if command.contexts[i] == context {
            assert(command.contexts@.contains(context));
            return true;
        }
        i += 1;
    }
    false
}

/// The rows to show for `query`, best first.
///
/// Filtered to commands reachable in `context` -- offering to send a draft
/// from the message list is a row the user can only be disappointed by -- and
/// to those `scope` satisfies, so a unified view does not offer a `Move` with
/// no account to move within. A command whose title matches comes before every
/// one that only its id finds. An empty query returns everything applicable,
/// in registry order.
pub fn entries(commands: &[CommandSpec], context: Context, scope: Scope, query: &str) -> (out: Vec<
    Entry,
>)
    requires
        forall|i: int|
            0 <= i < commands@.len() ==> scorable((#[trigger] commands@[i]).title@) && scorable(
                commands@[i].id@,
            ),
    ensures
        entry_views(out@) == unranked(shown(commands@, context, scope, trimmed(query@))),
{
    let query = trim(query);
    let mut found: Vec<Entry> = Vec::new();
    let mut keys: Vec<i64> = Vec::new();
    let mut i: usize = 0;
    let ghost wanted = reachable_in(context, scope);
    proof {
        reveal(Seq::filter);
    }
    let ghost mut rows: Seq<Ranked> = Seq::empty();
    assert(entry_views(found@) =~= unranked(rows));
    assert(keys@ =~= ranks(rows));
    while i < commands.len()
        invariant
            i <= commands@.len(),
            forall|i: int|
                0 <= i < commands@.len() ==> scorable((#[trigger] commands@[i]).title@) && scorable(
                    commands@[i].id@,
                ),
            wanted == reachable_in(context, scope),
            rows == rows_for(commands@.take(i as int).filter(wanted), query@),
            entry_views(found@) == unranked(rows),
            keys@ == ranks(rows),
        decreases commands@.len() - i,
    {
        let ghost held = entry_views(found@);
        proof {
            assert(commands@.take(i + 1).drop_last() =~= commands@.take(i as int));
            assert(commands@.take(i + 1).last() == commands@[i as int]);
            reveal(Seq::filter);
        }
        if is_reachable(&commands[i], context, scope) {
            proof {
                let before = commands@.take(i as int).filter(wanted);
                assert(before.push(commands@[i as int]).drop_last() =~= before);
            }
            if let Some((entry, rank)) = match_command(&commands[i], query.as_str()) {
                let ghost row = entry@;
                keys.push(rank);
                found.push(entry);
                proof {
                    rows = rows.push(row_for(commands@[i as int], query@)->0);
                }
                assert(entry_views(found@) =~= held.push(row));
                assert(entry_views(found@) =~= unranked(rows));
                assert(keys@ =~= ranks(rows));
            }
        }
        i += 1;
    }
    assert(commands@.take(commands@.len() as int) =~= commands@);
    // Stable, so an empty query — every score zero — comes out in registry
    // order rather than in whatever order the sort happened to leave it.
    let order = rank(&keys);
    let mut out: Vec<Entry> = Vec::new();
    let mut k: usize = 0;
    proof {
        assert(entry_views(found@).len() == unranked(rows).len());
    }
    while k < order.len() && k < MAX_ROWS
        invariant
            entry_views(found@) == unranked(rows),
            found@.len() == rows.len(),
            keys@ == ranks(rows),
            order@.len() == keys@.len(),
            order@.map_values(|i: usize| i as int) == best_first(keys@, keys@.len() as int),
            forall|i: int| 0 <= i < order@.len() ==> #[trigger] order@[i] < keys@.len(),
            k <= order@.len(),
            k <= MAX_ROWS,
            out@.len() == k,
            forall|j: int|
                0 <= j < k ==> (#[trigger] out@[j])@ == rows[best_first(
                    keys@,
                    keys@.len() as int,
                )[j]].row,
        decreases order@.len() - k,
    {
        proof {
            let all = best_first(keys@, keys@.len() as int);
            assert(order@.map_values(|i: usize| i as int)[k as int] == all[k as int]);
            assert(keys@.len() == rows.len());
            assert(entry_views(found@)[all[k as int]] == unranked(rows)[all[k as int]]);
        }
        let entry = found[order[k]].copy();
        out.push(entry);
        k += 1;
    }
    proof {
        assert(entry_views(out@) =~= unranked(top(rows, keys@, MAX_ROWS as int)));
    }
    out
}

proof fn lemma_filtered(commands: Seq<CommandSpec>, wanted: spec_fn(CommandSpec) -> bool)
    ensures
        commands.filter(wanted).len() <= commands.len(),
        forall|i: int|
            0 <= i < commands.filter(wanted).len() ==> wanted(#[trigger] commands.filter(wanted)[i])
                && commands.contains(commands.filter(wanted)[i]),
    decreases commands.len(),
{
    reveal(Seq::filter);
    if commands.len() > 0 {
        let rest = commands.drop_last();
        lemma_filtered(rest, wanted);
        assert forall|i: int| 0 <= i < commands.filter(wanted).len() implies wanted(
            #[trigger] commands.filter(wanted)[i],
        ) && commands.contains(commands.filter(wanted)[i]) by {
            let command = commands.filter(wanted)[i];
            if i < rest.filter(wanted).len() {
                assert(rest.filter(wanted)[i] == command);
                assert(rest.contains(command));
                let k = choose|k: int| 0 <= k < rest.len() && rest[k] == command;
                assert(commands[k] == command);
            } else {
                assert(commands[commands.len() - 1] == command);
            }
        }
    }
}

proof fn lemma_rows_come_from(commands: Seq<CommandSpec>, query: Seq<char>, i: int)
    requires
        0 <= i < rows_for(commands, query).len(),
    ensures
        exists|k: int|
            0 <= k < commands.len() && row_for(#[trigger] commands[k], query) == Some(
                rows_for(commands, query)[i],
            ),
    decreases commands.len(),
{
    let rest = commands.drop_last();
    if i < rows_for(rest, query).len() {
        lemma_rows_come_from(rest, query, i);
        let k = choose|k: int|
            0 <= k < rest.len() && row_for(#[trigger] rest[k], query) == Some(
                rows_for(rest, query)[i],
            );
        assert(commands[k] == rest[k]);
    } else {
        assert(commands[commands.len() - 1] == commands.last());
    }
}

/// Nothing is offered where it is of no use: every row is for a command that
/// is reachable in the context, and satisfied by the scope.
pub proof fn lemma_only_what_applies(
    commands: Seq<CommandSpec>,
    context: Context,
    scope: Scope,
    query: Seq<char>,
    i: int,
)
    requires
        0 <= i < rows_for(commands.filter(reachable_in(context, scope)), query).len(),
    ensures
        exists|k: int|
            0 <= k < commands.len() && reachable(#[trigger] commands[k], context, scope) && row_for(
                commands[k],
                query,
            ) == Some(rows_for(commands.filter(reachable_in(context, scope)), query)[i]),
{
    let wanted = reachable_in(context, scope);
    let here = commands.filter(wanted);
    lemma_filtered(commands, wanted);
    lemma_rows_come_from(here, query, i);
    let j = choose|j: int|
        0 <= j < here.len() && row_for(#[trigger] here[j], query) == Some(rows_for(here, query)[i]);
    assert(wanted(here[j]));
    assert(commands.contains(here[j]));
}

/// The rows come out best first: those matched by their title before those
/// matched by their id, and of each kind none with a higher score than one
/// before it.
pub proof fn lemma_best_rows_first(
    commands: Seq<CommandSpec>,
    context: Context,
    scope: Scope,
    query: Seq<char>,
    a: int,
    b: int,
)
    requires
        0 <= a < b < shown(commands, context, scope, query).len(),
        forall|i: int|
            0 <= i < commands.len() ==> scorable((#[trigger] commands[i]).title@) && scorable(
                commands[i].id@,
            ),
    ensures
        ({
            let rows = shown(commands, context, scope, query);
            &&& rows[b].by_title ==> rows[a].by_title
            &&& rows[a].by_title == rows[b].by_title ==> rows[a].row.score >= rows[b].row.score
        }),
{
    let here = commands.filter(reachable_in(context, scope));
    let rows = rows_for(here, query);
    let keys = ranks(rows);
    lemma_filtered(commands, reachable_in(context, scope));
    assert forall|i: int| 0 <= i < here.len() implies scorable((#[trigger] here[i]).title@)
        && scorable(here[i].id@) by {
        assert(commands.contains(here[i]));
    }
    lemma_best_first(keys, keys.len() as int);
    lemma_scores_fit(here, query);
    let order = best_first(keys, keys.len() as int);
    assert(crate::rank::before(keys, order[a], order[b]));
    assert(0 <= order[a] < rows.len() && 0 <= order[b] < rows.len());
    assert(keys[order[a]] == rank_of(rows[order[a]]));
    assert(keys[order[b]] == rank_of(rows[order[b]]));
}

proof fn lemma_scores_fit(commands: Seq<CommandSpec>, query: Seq<char>)
    requires
        forall|i: int|
            0 <= i < commands.len() ==> scorable((#[trigger] commands[i]).title@) && scorable(
                commands[i].id@,
            ),
    ensures
        forall|i: int|
            0 <= i < rows_for(commands, query).len() ==> i32::MIN <= (#[trigger] rows_for(
                commands,
                query,
            )[i]).row.score <= i32::MAX,
    decreases commands.len(),
{
    if commands.len() > 0 {
        lemma_scores_fit(commands.drop_last(), query);
        let last = commands[commands.len() - 1];
        lemma_score_floor(query, last.title@);
        lemma_score_floor(query, last.id@);
    }
}

/// With nothing typed every reachable command is listed, in registry order,
/// as far as there are rows for them.
pub proof fn lemma_empty_query_lists_all(
    commands: Seq<CommandSpec>,
    context: Context,
    scope: Scope,
    k: int,
)
    requires
        0 <= k < commands.filter(reachable_in(context, scope)).len(),
        k < MAX_ROWS,
    ensures
        ({
            let here = commands.filter(reachable_in(context, scope));
            let rows = shown(commands, context, scope, Seq::empty());
            &&& k < rows.len()
            &&& rows[k].row.id == here[k].id@
            &&& rows[k].row.title == here[k].title@
        }),
{
    let here = commands.filter(reachable_in(context, scope));
    let rows = rows_for(here, Seq::empty());
    let keys = ranks(rows);
    lemma_all_rows(here);
    lemma_equal_keys(keys, keys.len() as int);
}

proof fn lemma_all_rows(commands: Seq<CommandSpec>)
    ensures
        rows_for(commands, Seq::empty()).len() == commands.len(),
        forall|i: int|
            0 <= i < commands.len() ==> {
                let ranked = #[trigger] rows_for(commands, Seq::empty())[i];
                &&& ranked.by_title
                &&& ranked.row.score == 0
                &&& ranked.row.id == commands[i].id@
                &&& ranked.row.title == commands[i].title@
            },
    decreases commands.len(),
{
    if commands.len() > 0 {
        lemma_all_rows(commands.drop_last());
    }
}

/// Equal keys stay in the order they came in.
proof fn lemma_equal_keys(keys: Seq<i64>, n: int)
    requires
        0 <= n <= keys.len(),
        forall|i: int| 0 <= i < keys.len() ==> #[trigger] keys[i] == keys[0],
    ensures
        best_first(keys, n).len() == n,
        forall|i: int| 0 <= i < n ==> #[trigger] best_first(keys, n)[i] == i,
    decreases n,
{
    if n > 0 {
        lemma_equal_keys(keys, n - 1);
    }
}

// ---------------------------------------------------------------------------
// What a match is
// ---------------------------------------------------------------------------

/// The characters of `candidate` at `at`, left to right, spell `query`, ASCII
/// case aside.
pub open spec fn spells_out(query: Seq<char>, candidate: Seq<char>, at: Seq<int>) -> bool {
    &&& at.len() == query.len()
    &&& forall|k: int| 0 <= k < at.len() ==> 0 <= #[trigger] at[k] < candidate.len()
    &&& forall|k: int, l: int| 0 <= k < l < at.len() ==> #[trigger] at[k] < #[trigger] at[l]
    &&& forall|k: int|
        0 <= k < at.len() ==> ascii_lower_char(candidate[#[trigger] at[k]]) == ascii_lower_char(
            query[k],
        )
}

/// `query` is a subsequence of `candidate`, ASCII case aside.
pub open spec fn is_within(query: Seq<char>, candidate: Seq<char>) -> bool {
    exists|at: Seq<int>| spells_out(query, candidate, at)
}

proof fn lemma_next_is_first(s: Seq<char>, wanted: char, from: int, k: int)
    requires
        0 <= from <= k < s.len(),
        ascii_lower_char(s[k]) == ascii_lower_char(wanted),
    ensures
        next_match(s, wanted, from) matches Some(at) && at <= k,
    decreases k - from,
{
    if ascii_lower_char(s[from]) != ascii_lower_char(wanted) {
        lemma_next_is_first(s, wanted, from + 1, k);
    }
}

proof fn lemma_places_first(query: Seq<char>, candidate: Seq<char>, at: Seq<int>)
    requires
        spells_out(query, candidate, at),
    ensures
        places(query, candidate) is Some,
        places(query, candidate)->0.len() == query.len(),
        forall|k: int|
            0 <= k < query.len() ==> #[trigger] places(query, candidate)->0[k] <= at[k],
    decreases query.len(),
{
    if query.len() > 0 {
        let part = query.drop_last();
        let before = at.drop_last();
        assert(spells_out(part, candidate, before)) by {
            assert forall|k: int| 0 <= k < before.len() implies ascii_lower_char(
                candidate[#[trigger] before[k]],
            ) == ascii_lower_char(part[k]) by {
                assert(before[k] == at[k]);
            }
        }
        lemma_places_first(part, candidate, before);
        let found = places(part, candidate)->0;
        let from = if found.len() == 0 {
            0
        } else {
            found.last() + 1
        };
        if found.len() > 0 {
            assert(before.last() == at[at.len() - 2]);
            lemma_places(part, candidate);
        }
        assert(at.last() == at[at.len() - 1]);
        lemma_next_is_first(candidate, query.last(), from, at.last());
        let all = places(query, candidate)->0;
        assert forall|k: int| 0 <= k < query.len() implies #[trigger] all[k] <= at[k] by {
            if k < part.len() {
                assert(all[k] == found[k] && before[k] == at[k]);
            }
        }
    }
}

proof fn lemma_places_spell(query: Seq<char>, candidate: Seq<char>)
    ensures
        places(query, candidate) matches Some(found) ==> spells_out(query, candidate, found),
    decreases query.len(),
{
    lemma_places(query, candidate);
    if query.len() > 0 {
        let part = query.drop_last();
        lemma_places_spell(part, candidate);
        if let Some(found) = places(part, candidate) {
            let from = if found.len() == 0 {
                0
            } else {
                found.last() + 1
            };
            lemma_places(part, candidate);
            lemma_next_match(candidate, query.last(), from);
            if let Some(all) = places(query, candidate) {
                assert forall|k: int| 0 <= k < all.len() implies ascii_lower_char(
                    candidate[#[trigger] all[k]],
                ) == ascii_lower_char(query[k]) by {
                    if k < found.len() {
                        assert(found[k] == all[k]);
                        assert(part[k] == query[k]);
                    }
                }
            }
        }
    }
}

/// A query matches exactly what it is a subsequence of, ASCII case aside; and
/// where it does, the positions say which bytes it matched: one for each of
/// its characters, left to right, each where a character that is that one
/// starts.
pub proof fn lemma_a_match_is_a_subsequence(query: Seq<char>, candidate: Seq<char>)
    requires
        byte_len(candidate) <= usize::MAX,
    ensures
        matched(query, candidate) is Some <==> is_within(query, candidate),
        matched(query, candidate) matches Some(found) ==> exists|at: Seq<int>|
            spells_out(query, candidate, at) && found.1.len() == at.len() && forall|k: int|
                0 <= k < at.len() ==> #[trigger] found.1[k] == byte_len(candidate.take(at[k])),
{
    if query.len() == 0 {
        let none: Seq<int> = Seq::empty();
        assert(spells_out(query, candidate, none));
    } else {
        lemma_places_spell(query, candidate);
        if is_within(query, candidate) {
            let at = choose|at: Seq<int>| spells_out(query, candidate, at);
            lemma_places_first(query, candidate, at);
        }
        if let Some(found) = places(query, candidate) {
            assert(spells_out(query, candidate, found));
            assert forall|k: int| 0 <= k < found.len() implies #[trigger] offsets(candidate, found)[k]
                == byte_len(candidate.take(found[k])) by {
                lemma_byte_len(candidate, found[k]);
            }
        }
    }
}

/// The bytes that `query` matched.
pub open spec fn found_at(query: Seq<char>, candidate: Seq<char>) -> Seq<usize> {
    let found = matched(query, candidate)->0;
    found.1
}

/// Each character goes where it first can: no other way to spell the query
/// out has any of its characters sooner.
pub proof fn lemma_matched_as_early_as_can_be(query: Seq<char>, candidate: Seq<char>, other: Seq<int>)
    requires
        byte_len(candidate) <= usize::MAX,
        spells_out(query, candidate, other),
    ensures
        matched(query, candidate) is Some,
        query.len() == 0 ==> matched(query, candidate) == Some((0int, Seq::<usize>::empty())),
        forall|k: int|
            0 <= k < query.len() ==> #[trigger] found_at(query, candidate)[k] <= byte_len(
                candidate.take(other[k]),
            ),
{
    lemma_places_first(query, candidate, other);
    lemma_places(query, candidate);
    let found = places(query, candidate)->0;
    assert forall|k: int| 0 <= k < query.len() implies #[trigger] offsets(candidate, found)[k]
        <= byte_len(candidate.take(other[k])) by {
        lemma_byte_len(candidate, found[k]);
        if found[k] < other[k] {
            lemma_offset_grows(candidate, found[k], other[k]);
        }
    }
}

proof fn lemma_next_in_longer(s: Seq<char>, more: Seq<char>, wanted: char, from: int)
    requires
        0 <= from,
        next_match(s, wanted, from) is Some,
    ensures
        next_match(s + more, wanted, from) == next_match(s, wanted, from),
    decreases s.len() - from,
{
    assert((s + more)[from] == s[from]);
    if ascii_lower_char(s[from]) != ascii_lower_char(wanted) {
        lemma_next_in_longer(s, more, wanted, from + 1);
    }
}

proof fn lemma_places_in_longer(query: Seq<char>, s: Seq<char>, more: Seq<char>)
    requires
        places(query, s) is Some,
    ensures
        places(query, s + more) == places(query, s),
    decreases query.len(),
{
    if query.len() > 0 {
        lemma_places_in_longer(query.drop_last(), s, more);
        let found = places(query.drop_last(), s)->0;
        lemma_places(query.drop_last(), s);
        let from = if found.len() == 0 {
            0
        } else {
            found.last() + 1
        };
        lemma_next_in_longer(s, more, query.last(), from);
    }
}

proof fn lemma_points_in_longer(s: Seq<char>, more: Seq<char>, found: Seq<int>, n: int)
    requires
        0 <= n <= found.len(),
        forall|k: int| 0 <= k < found.len() ==> 0 <= #[trigger] found[k] < s.len(),
    ensures
        points_of(s + more, found, n) == points_of(s, found, n),
        forall|k: int|
            0 <= k < found.len() ==> #[trigger] offset(s + more, found[k]) == offset(s, found[k]),
        n > 0 ==> run_length(s + more, found, n - 1) == run_length(s, found, n - 1),
    decreases n,
{
    assert forall|k: int| 0 <= k < found.len() implies #[trigger] offset(s + more, found[k])
        == offset(s, found[k]) by {
        assert((s + more).take(found[k]) =~= s.take(found[k]));
    }
    if n > 0 {
        lemma_points_in_longer(s, more, found, n - 1);
        assert(found[n - 1] > 0 ==> (s + more)[found[n - 1] - 1] == s[found[n - 1] - 1]);
        assert(continues(s + more, found, n - 1) == continues(s, found, n - 1)) by {
            if n > 1 {
                assert(offset(s + more, found[n - 2]) == offset(s, found[n - 2]));
                assert(offset(s + more, found[n - 1]) == offset(s, found[n - 1]));
            }
        }
        assert(begins_word(s + more, found[n - 1]) == begins_word(s, found[n - 1]));
        assert(points(s + more, found, n - 1) == points(s, found, n - 1)) by {
            if n > 1 {
                assert(offset(s + more, found[n - 2]) == offset(s, found[n - 2]));
            }
            assert(offset(s + more, found[n - 1]) == offset(s, found[n - 1]));
        }
    }
}

/// Between two titles that match in the same way the shorter one is the one
/// meant: what comes after the match costs a point for every eight bytes, and
/// changes nothing else.
pub proof fn lemma_longer_title_scores_less(query: Seq<char>, candidate: Seq<char>, more: Seq<char>)
    requires
        query.len() > 0,
        matched(query, candidate) is Some,
    ensures
        ({
            let short = matched(query, candidate)->0;
            let long = matched(query, candidate + more)->0;
            &&& matched(query, candidate + more) is Some
            &&& long.1 =~= short.1
            &&& long.0 + byte_len(candidate + more) as int / 8 == short.0 + byte_len(candidate) as int
                / 8
        }),
{
    lemma_places_in_longer(query, candidate, more);
    let found = places(query, candidate)->0;
    lemma_places(query, candidate);
    lemma_points_in_longer(candidate, more, found, found.len() as int);
    assert(offsets(candidate + more, found) =~= offsets(candidate, found));
}

/// What one more character of the query is worth, going by the bytes `at` that
/// were matched: right behind the one before it twelve points, twice that when
/// that one was right behind another, and three times from the third on; else
/// twenty-four where it `starts` a word, less two for every byte passed over,
/// and twelve at most.
pub open spec fn worth_of_last(at: Seq<usize>, starts: bool) -> int {
    let n = at.len() as int;
    if n >= 2 && at[n - 1] == at[n - 2] + 1 {
        if !(n >= 3 && at[n - 2] == at[n - 3] + 1) {
            12
        } else if !(n >= 4 && at[n - 3] == at[n - 4] + 1) {
            24
        } else {
            36
        }
    } else {
        let passed = if n >= 2 {
            at[n - 1] - at[n - 2] - 1
        } else {
            at[n - 1] as int
        };
        (if starts {
            24int
        } else {
            0
        }) - (if passed < 6 {
            2 * passed
        } else {
            12
        })
    }
}

/// One more character typed changes the score by what that character is worth
/// where it matched, and leaves what was matched before it where it was. The
/// first one is counted from the start of the title, whose length costs a
/// point for every eight bytes.
pub proof fn lemma_one_more_character(query: Seq<char>, c: char, candidate: Seq<char>)
    requires
        byte_len(candidate) <= usize::MAX,
        matched(query.push(c), candidate) is Some,
    ensures
        ({
            let found = matched(query.push(c), candidate)->0;
            let last = places(query.push(c), candidate)->0.last();
            let starts = last == 0 || !alphanumeric(candidate[last - 1]);
            &&& found.1.len() == query.len() + 1
            &&& found.1.last() == byte_len(candidate.take(last))
            &&& matched(query, candidate) matches Some(before) && before.1 =~= found.1.take(
                query.len() as int,
            ) && found.0 == (if query.len() == 0 {
                -(byte_len(candidate) as int / 8)
            } else {
                before.0
            }) + worth_of_last(found.1, starts)
        }),
{
    let more = query.push(c);
    assert(more.drop_last() =~= query);
    lemma_places(more, candidate);
    lemma_places(query, candidate);
    let all = places(more, candidate)->0;
    let found = places(query, candidate)->0;
    let n = query.len() as int;
    assert(all.drop_last() =~= found);
    assert(all =~= found.push(all.last()));
    lemma_points_prefix(candidate, found, all.last(), n);
    assert forall|k: int| 0 <= k < all.len() implies #[trigger] offsets(candidate, all)[k]
        == offset(candidate, all[k]) by {
        lemma_byte_len(candidate, all[k]);
    }
    assert(offsets(candidate, all).take(n) =~= offsets(candidate, found));
    reveal_with_fuel(run_length, 4);
    let at = offsets(candidate, all);
    assert(at[n] == offset(candidate, all[n]));
    if n >= 1 {
        assert(at[n - 1] == offset(candidate, all[n - 1]));
        lemma_offset_grows(candidate, all[n - 1], all[n]);
        lemma_run_bounded(candidate, all, n - 1);
    }
    if n >= 2 {
        assert(at[n - 2] == offset(candidate, all[n - 2]));
        lemma_run_bounded(candidate, all, n - 2);
    }
    if n >= 3 {
        assert(at[n - 3] == offset(candidate, all[n - 3]));
        lemma_run_bounded(candidate, all, n - 3);
    }
    assert(points_of(candidate, all, n + 1) == points_of(candidate, all, n) + points(
        candidate,
        all,
        n,
    ));
    if n == 0 {
        assert(query =~= Seq::<char>::empty());
    }
}

/// A command is found exactly by what its title or its id spells out, and by
/// its title whenever the title does; its row says which command it is.
pub proof fn lemma_what_finds_a_command(command: CommandSpec, query: Seq<char>)
    requires
        byte_len(command.title@) <= usize::MAX,
        byte_len(command.id@) <= usize::MAX,
    ensures
        row_for(command, query) is Some <==> is_within(query, command.title@) || is_within(
            query,
            command.id@,
        ),
        row_for(command, query) matches Some(ranked) ==> {
            &&& ranked.by_title == is_within(query, command.title@)
            &&& ranked.row.id == command.id@
            &&& ranked.row.title == command.title@
            &&& ranked.row.binding == text_opt(command.binding)
            &&& ranked.by_title ==> (matched(query, command.title@) matches Some(found)
                && ranked.row.score == found.0 && ranked.row.positions == found.1)
            &&& !ranked.by_title ==> ranked.row.positions.len() == 0 && (matched(query, command.id@)
                matches Some(found) && ranked.row.score + 40 == found.0)
        },
{
    lemma_a_match_is_a_subsequence(query, command.title@);
    lemma_a_match_is_a_subsequence(query, command.id@);
}

/// A command that can be reached and that the query finds has a row.
pub proof fn lemma_every_match_has_a_row(commands: Seq<CommandSpec>, query: Seq<char>, i: int)
    requires
        0 <= i < commands.len(),
        row_for(commands[i], query) is Some,
    ensures
        rows_for(commands, query).contains(row_for(commands[i], query)->0),
    decreases commands.len(),
{
    let rest = commands.drop_last();
    let before = rows_for(rest, query);
    let all = rows_for(commands, query);
    if i < rest.len() {
        assert(rest[i] == commands[i]);
        lemma_every_match_has_a_row(rest, query, i);
        let k = choose|k: int| 0 <= k < before.len() && before[k] == row_for(commands[i], query)->0;
        assert(all[k] == before[k]);
    } else {
        assert(all[before.len() as int] == row_for(commands[i], query)->0);
    }
}

/// A command is offered where it is of use: everywhere, or where its context
/// has the keyboard, and with an account on show if it needs one.
pub proof fn lemma_where_a_command_is_of_use(command: CommandSpec, context: Context, scope: Scope)
    ensures
        reachable(command, context, scope) <==> (command.anywhere || exists|i: int|
            0 <= i < command.contexts@.len() && #[trigger] command.contexts@[i] == context) && (
        command.needs_account ==> scope is Account),
{
}

/// While there is room, every command that is of use and that the query finds
/// is shown.
pub proof fn lemma_every_match_is_shown(
    commands: Seq<CommandSpec>,
    context: Context,
    scope: Scope,
    query: Seq<char>,
    k: int,
)
    requires
        0 <= k < commands.len(),
        reachable(commands[k], context, scope),
        row_for(commands[k], query) is Some,
        rows_for(commands.filter(reachable_in(context, scope)), query).len() <= 48,
    ensures
        shown(commands, context, scope, query).contains(row_for(commands[k], query)->0),
{
    let wanted = reachable_in(context, scope);
    let here = commands.filter(wanted);
    lemma_kept(commands, wanted, k);
    let j = choose|j: int| 0 <= j < here.len() && here[j] == commands[k];
    lemma_every_match_has_a_row(here, query, j);
    let rows = rows_for(here, query);
    lemma_everything_shown_while_there_is_room(
        rows,
        ranks(rows),
        MAX_ROWS as int,
        row_for(commands[k], query)->0,
    );
}

proof fn lemma_kept(commands: Seq<CommandSpec>, wanted: spec_fn(CommandSpec) -> bool, k: int)
    requires
        0 <= k < commands.len(),
        wanted(commands[k]),
    ensures
        commands.filter(wanted).contains(commands[k]),
    decreases commands.len(),
{
    reveal(Seq::filter);
    let rest = commands.drop_last();
    let before = rest.filter(wanted);
    let now = commands.filter(wanted);
    if k < rest.len() {
        assert(rest[k] == commands[k]);
        lemma_kept(rest, wanted, k);
        let i = choose|i: int| 0 <= i < before.len() && before[i] == commands[k];
        assert(now[i] == before[i]);
    } else {
        assert(now[before.len() as int] == commands[k]);
    }
}

} // verus!
