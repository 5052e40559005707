//! Reading a search query as chips, and saying what a search turned out to be.
//!
//! The entry holds the *whole* query, and the chips are a parse of it drawn
//! alongside: a reading of what is typed, not a second store that could
//! disagree with it.
use vstd::prelude::*;
use crate::text::{byte_len, bytes_of, char_width, chars_of, decimal, decimal_of, join_and};
use crate::text::{joined_with_and, parted, split_once, text_of, texts, trim_end};
use crate::text::{has_prefix, has_text, lemma_decimal_differs, lemma_decimal_digits, lemma_find, occurs_at};
use crate::text::{trimmed_end, white_space, wide_decimal_of, width_of};
use crate::format::lemma_every_name_is_said;

verus! {

// ---------------------------------------------------------------------------
// Chips
// ---------------------------------------------------------------------------

/// One token of a query, as the parser read it.
#[derive(Debug, Clone, PartialEq, Eq)]
pub struct Token {
    /// The exact source text.
    pub raw: String,
    /// The keyword of the operator it belongs to; `None` for free text.
    pub field: Option<String>,
    /// Whether it was negated with a leading `-`.
    pub negated: bool,
    /// Whether the operator has a value.
    pub complete: bool,
    /// Where it starts in the query, in bytes.
    pub start: usize,
    /// Where it ends, in bytes.
    pub end: usize,
    /// The query with this token taken out.
    pub without: String,
}

/// A query and its tokens, in the order they were typed.
#[derive(Debug, Clone, PartialEq, Eq)]
pub struct ParsedQuery {
    /// The query.
    pub input: String,
    /// Its tokens.
    pub tokens: Vec<Token>,
}

/// How many characters of `s` take `bytes` bytes; none when that falls inside
/// one, or past the end.
pub open spec fn chars_in(s: Seq<char>, bytes: int) -> Option<int>
    decreases s.len(),
{
    if bytes == 0 {
        Some(0)
    } else if s.len() == 0 || bytes < char_width(s[0]) {
        None
    } else {
        match chars_in(s.skip(1), bytes - char_width(s[0])) {
            Some(n) => Some(n + 1),
            None => None,
        }
    }
}

impl ParsedQuery {
    /// Every token starts at a character of the query.
    pub open spec fn spans_fit(&self) -> bool {
        forall|i: int|
            0 <= i < self.tokens@.len() ==> chars_in(
                self.input@,
                (#[trigger] self.tokens@[i]).start as int,
            ) is Some
    }
}

/// One chip: an operator the parser recognized in the query.
#[derive(Debug, Clone, PartialEq, Eq)]
pub struct Chip {
    /// Position of the token in [`ParsedQuery::tokens`], for popping it.
    pub index: usize,
    /// The exact source text, so what the chip says is what is in the entry.
    pub label: String,
    /// The keyword of the operator it belongs to.
    pub field: String,
    /// Whether it was negated with a leading `-`.
    pub negated: bool,
    /// Whether the operator has a value yet. A half-typed `from:` is still
    /// worth drawing.
    pub complete: bool,
}

/// `chip` is drawn for the token at `index`.
pub open spec fn drawn_for(chip: Chip, token: Token, index: int) -> bool {
    &&& chip.index == index
    &&& chip.label@ == token.raw@
    &&& token.field matches Some(field) && chip.field@ == field@
    &&& chip.negated == token.negated
    &&& chip.complete == token.complete
}

/// The positions of the operators among `tokens`, in order.
pub open spec fn operators(tokens: Seq<Token>) -> Seq<int>
    decreases tokens.len(),
{
    if tokens.len() == 0 {
        Seq::empty()
    } else {
        let rest = operators(tokens.drop_last());
        if tokens.last().field is Some {
            rest.push(tokens.len() - 1)
        } else {
            rest
        }
    }
}

/// The chips to draw for a query, in the order they were typed.
///
/// Free text is not a chip: it stays plain, because it is the part the user is
/// usually still editing.
pub fn chips(parsed: &ParsedQuery) -> (out: Vec<Chip>)
    ensures
        out@.len() == operators(parsed.tokens@).len(),
        forall|k: int|
            0 <= k < out@.len() ==> drawn_for(
                #[trigger] out@[k],
                parsed.tokens@[operators(parsed.tokens@)[k]],
                operators(parsed.tokens@)[k],
            ),
{
    let ghost tokens = parsed.tokens@;
    let mut out: Vec<Chip> = Vec::new();
    let mut i: usize = 0;
    while i < parsed.tokens.len()
        invariant
            tokens == parsed.tokens@,
            i <= tokens.len(),
            out@.len() == operators(tokens.take(i as int)).len(),
            forall|k: int|
                0 <= k < out@.len() ==> drawn_for(
                    #[trigger] out@[k],
                    tokens[operators(tokens.take(i as int))[k]],
                    operators(tokens.take(i as int))[k],
                ),
        decreases tokens.len() - i,
    {
        let token = &parsed.tokens[i];
        assert(tokens.take(i + 1).drop_last() =~= tokens.take(i as int));
        assert(tokens.take(i + 1).last() == tokens[i as int]);
        if let Some(field) = &token.field {
            out.push(
                Chip {
                    index: i,
                    label: token.raw.clone(),
                    field: field.clone(),
                    negated: token.negated,
                    complete: token.complete,
                },
            );
        }
        i += 1;
    }
    assert(tokens.take(tokens.len() as int) =~= tokens);
    out
}

/// What Backspace should do.
#[derive(Debug, Clone, PartialEq, Eq)]
pub enum Backspace {
    /// Delete one character, as usual.
    Ordinary,
    /// Take the whole chip out.
    PopChip {
        /// The token that went.
        index: usize,
        /// What the entry should now hold.
        query: String,
        /// Where the caret should now sit, in bytes.
        caret: usize,
    },
}

/// The first token from `from` on that the caret is in or against.
pub open spec fn token_at(tokens: Seq<Token>, caret: int, from: int) -> Option<int>
    decreases tokens.len() - from,
{
    if from < 0 || from >= tokens.len() {
        None
    } else if tokens[from].start <= caret <= tokens[from].end {
        Some(from)
    } else {
        token_at(tokens, caret, from + 1)
    }
}

/// The chip Backspace takes out, if any.
pub open spec fn popped(tokens: Seq<Token>, caret: int) -> Option<int> {
    match token_at(tokens, caret, 0) {
        Some(index) => if tokens[index].field is Some && caret > tokens[index].start {
            Some(index)
        } else {
            None
        },
        None => None,
    }
}

/// How many bytes `input` has before `start`, the white space there left out.
pub open spec fn caret_after(input: Seq<char>, start: int) -> nat {
    match chars_in(input, start) {
        Some(n) => byte_len(trimmed_end(input.take(n))),
        None => 0,
    }
}

proof fn lemma_chars_in_range(s: Seq<char>, bytes: int)
    ensures
        chars_in(s, bytes) matches Some(n) ==> 0 <= n <= s.len(),
    decreases s.len(),
{
    if bytes != 0 && s.len() > 0 && bytes >= char_width(s[0]) {
        lemma_chars_in_range(s.skip(1), bytes - char_width(s[0]));
    }
}

proof fn lemma_chars_weigh(s: Seq<char>, bytes: int)
    ensures
        chars_in(s, bytes) matches Some(n) ==> byte_len(s.take(n)) == bytes,
    decreases s.len(),
{
    if bytes == 0 {
        assert(s.take(0) =~= Seq::<char>::empty());
    } else if s.len() > 0 && bytes >= char_width(s[0]) {
        lemma_chars_weigh(s.skip(1), bytes - char_width(s[0]));
        lemma_chars_in_range(s.skip(1), bytes - char_width(s[0]));
        match chars_in(s.skip(1), bytes - char_width(s[0])) {
            Some(n) => {
                lemma_byte_len_front(s.take(n + 1));
                assert(s.take(n + 1).skip(1) =~= s.skip(1).take(n));
            },
            None => {},
        }
    }
}

proof fn lemma_byte_len_front(s: Seq<char>)
    requires
        s.len() > 0,
    ensures
        byte_len(s) == char_width(s[0]) + byte_len(s.skip(1)),
    decreases s.len(),
{
    if s.len() == 1 {
        assert(s.skip(1) =~= Seq::<char>::empty());
        assert(s.drop_last() =~= Seq::<char>::empty());
    } else {
        lemma_byte_len_front(s.drop_last());
        assert(s.drop_last().skip(1) =~= s.skip(1).drop_last());
    }
}

proof fn lemma_trimmed_weighs_less(s: Seq<char>)
    ensures
        byte_len(trimmed_end(s)) <= byte_len(s),
    decreases s.len(),
{
    if s.len() > 0 && crate::text::white_space(s.last()) {
        lemma_trimmed_weighs_less(s.drop_last());
    }
}

/// How many characters take `bytes` bytes.
fn count_chars(chars: &Vec<char>, bytes: usize) -> (out: usize)
    requires
        chars_in(chars@, bytes as int) is Some,
    ensures
        chars_in(chars@, bytes as int) == Some(out as int),
        out <= chars@.len(),
{
    let mut left: usize = bytes;
    let mut n: usize = 0;
    assert(chars@.skip(0) =~= chars@);
    while left > 0
        invariant
            n <= chars@.len(),
            chars_in(chars@.skip(n as int), left as int) is Some,
            chars_in(chars@, bytes as int) == Some(
                n + chars_in(chars@.skip(n as int), left as int)->0,
            ),
        decreases chars@.len() - n,
    {
        assert(n < chars.len());
        assert(chars@.skip(n as int)[0] == chars@[n as int]);
        assert(chars@.skip(n as int).skip(1) =~= chars@.skip(n + 1));
        left -= width_of(chars[n]);
        n += 1;
    }
    n
}

/// Decides what Backspace does with the caret at `caret` bytes into the query.
///
/// A chip pops when the caret is inside it or against its right edge -- which
/// is where the caret is after typing one. Against its *left* edge the caret
/// is before the chip, not in it. Free text is never popped whole.
pub fn backspace(parsed: &ParsedQuery, caret: usize) -> (out: Backspace)
    requires
        parsed.spans_fit(),
    ensures
        match popped(parsed.tokens@, caret as int) {
            Some(at) => out matches Backspace::PopChip { index, query, caret: now } && index == at
                && query@ == parsed.tokens@[at].without@ && now == caret_after(
                parsed.input@,
                parsed.tokens@[at].start as int,
            ),
            None => out is Ordinary,
        },
{
    let ghost tokens = parsed.tokens@;
    let mut i: usize = 0;
    while i < parsed.tokens.len()
        invariant
            parsed.spans_fit(),
            tokens == parsed.tokens@,
            i <= tokens.len(),
            token_at(tokens, caret as int, 0) == token_at(tokens, caret as int, i as int),
        decreases tokens.len() - i,
    {
        let token = &parsed.tokens[i];
        if token.start <= caret && caret <= token.end {
            if token.field.is_none() || caret <= token.start {
                return Backspace::Ordinary;
            }
            // Where the join lands after the white space around the hole is
            // trimmed.
            let chars = chars_of(parsed.input.as_str());
            assert(chars_in(parsed.input@, parsed.tokens@[i as int].start as int) is Some);
            let before = text_of(&chars, 0, count_chars(&chars, token.start));
            let kept = chars_of(trim_end(before.as_str()).as_str());
            proof {
                let n = chars_in(parsed.input@, token.start as int)->0;
                assert(before@ =~= parsed.input@.take(n));
                lemma_chars_weigh(parsed.input@, token.start as int);
                lemma_trimmed_weighs_less(before@);
            }
            return Backspace::PopChip {
                index: i,
                query: token.without.clone(),
                caret: bytes_of(&kept),
            };
        }
        i += 1;
    }
    Backspace::Ordinary
}

/// How a chip reads aloud.
pub open spec fn spoken_chip(chip: Chip) -> Seq<char> {
    let value = match parted(chip.label@, ":"@) {
        Some(two) => two.1,
        None => Seq::empty(),
    };
    (if chip.negated {
        "not "@
    } else {
        Seq::empty()
    }) + chip.field@ + (if chip.complete {
        " "@ + value
    } else {
        ", no value yet"@
    })
}

/// How a chip reads to a screen reader.
pub fn spoken(chip: &Chip) -> (out: String)
    ensures
        out@ == spoken_chip(*chip),
{
    let mut out = String::new();
    if chip.negated {
        out = "not ".to_owned();
    } else {
        assert(out@ =~= Seq::<char>::empty());
    }
    out.append(chip.field.as_str());
    if chip.complete {
        out.append(" ");
        if let Some(two) = split_once(chip.label.as_str(), ":") {
            out.append(two.1.as_str());
        }
    } else {
        out.append(", no value yet");
    }
    assert(out@ =~= spoken_chip(*chip));
    out
}

// ---------------------------------------------------------------------------
// The live readout
// ---------------------------------------------------------------------------

/// How long the box waits after a keystroke before it searches, in
/// milliseconds. Sized to *typing*, not to the frame budget: at this pace a
/// word typed at ordinary speed is one search.
pub const DEBOUNCE: u64 = 200;

/// How long something took.
#[derive(Clone, Copy, Debug, PartialEq, Eq, Structural)]
pub struct Elapsed {
    /// Whole seconds.
    pub secs: u64,
    /// What is left, in nanoseconds: less than a second.
    pub nanos: u32,
}

impl Elapsed {
    /// What is left over is less than a second.
    pub open spec fn wf(&self) -> bool {
        self.nanos < 1_000_000_000
    }

    /// The time in milliseconds.
    pub open spec fn in_millis(&self) -> nat {
        (self.secs * 1000 + self.nanos / 1_000_000) as nat
    }

    /// The time in milliseconds.
    pub fn millis(&self) -> (out: u128)
        ensures
            out == self.in_millis(),
    {
        (self.secs as u128) * 1000 + (self.nanos / 1_000_000) as u128
    }
}

impl Default for Elapsed {
    fn default() -> (out: Self)
        ensures
            out == (Elapsed { secs: 0, nanos: 0 }),
    {
        Elapsed { secs: 0, nanos: 0 }
    }
}

/// What a finished search found.
#[derive(Clone, Debug, PartialEq, Eq)]
pub struct SearchResults {
    /// How many messages matched.
    pub total_hits: u64,
    /// Whether that is a floor rather than the true count.
    pub total_hits_capped: bool,
    /// How long the search took.
    pub elapsed: Elapsed,
    /// Whether every message in the searched scope had a body to search.
    pub corpus_complete: bool,
}

/// What one search turned out to be.
#[derive(Clone, Debug, PartialEq, Eq)]
pub struct Outcome {
    /// How many messages matched.
    pub hits: u64,
    /// Whether `hits` is a floor rather than the true count.
    pub capped: bool,
    /// How long the search took.
    pub elapsed: Elapsed,
    /// Whether every message in the searched scope had a body to search.
    /// `false` adds the caveat: the hits come from a corpus that is still
    /// filling.
    pub corpus_complete: bool,
    /// Accounts a unified search could not reach, by the name the sidebar
    /// shows, in the sidebar's order.
    pub unreachable: Vec<String>,
}

impl Outcome {
    /// Reads the outcome off a finished search. Which accounts answered is a
    /// fact about connections, and is filled in by the caller.
    pub fn of(results: &SearchResults) -> (out: Self)
        ensures
            out.hits == results.total_hits,
            out.capped == results.total_hits_capped,
            out.elapsed == results.elapsed,
            out.corpus_complete == results.corpus_complete,
            out.unreachable@.len() == 0,
    {
        Outcome {
            hits: results.total_hits,
            capped: results.total_hits_capped,
            elapsed: results.elapsed,
            corpus_complete: results.corpus_complete,
            unreachable: Vec::new(),
        }
    }

    /// The same outcome, carrying the accounts a search could not reach.
    pub fn with_unreachable(self, unreachable: Vec<String>) -> (out: Self)
        ensures
            out == (Outcome { unreachable, ..self }),
    {
        Outcome { unreachable, ..self }
    }

    /// The same outcome, with the corpus caveat also raised when an account in
    /// scope is mid-rebuild.
    ///
    /// Only ever turns `corpus_complete` off, never back on.
    pub fn with_reindexing(self, reindexing: bool) -> (out: Self)
        ensures
            out == (Outcome { corpus_complete: self.corpus_complete && !reindexing, ..self }),
    {
        let corpus_complete = self.corpus_complete && !reindexing;
        Outcome { corpus_complete, ..self }
    }
}

impl Default for Outcome {
    fn default() -> (out: Self)
        ensures
            out.hits == 0,
            !out.capped,
            out.elapsed == (Elapsed { secs: 0, nanos: 0 }),
            !out.corpus_complete,
            out.unreachable@.len() == 0,
    {
        Outcome {
            hits: 0,
            capped: false,
            elapsed: Elapsed::default(),
            corpus_complete: false,
            unreachable: Vec::new(),
        }
    }
}

/// What a duration of whole and broken seconds reads as in seconds, to one
/// decimal.
pub uninterp spec fn seconds_text(secs: nat, nanos: nat) -> Seq<char>;

/// `Duration::as_secs_f64`, formatted with one decimal. The text depends on
/// the duration alone; how the number is rounded to that decimal stays unsaid.
#[verifier::external_body]
fn format_seconds(secs: u64, nanos: u32) -> (out: String)
    requires
        nanos < 1_000_000_000,
    ensures
        out@ == seconds_text(secs as nat, nanos as nat),
{
    format!("{:.1}", std::time::Duration::new(secs, nanos).as_secs_f64())
}

/// A duration, in the unit that makes it readable.
pub open spec fn elapsed_text(elapsed: Elapsed) -> Seq<char> {
    let millis = elapsed.in_millis();
    if millis == 0 {
        "<1 ms"@
    } else if millis <= 9_999 {
        decimal(millis) + " ms"@
    } else {
        seconds_text(elapsed.secs as nat, elapsed.nanos as nat) + " s"@
    }
}

/// A duration, in the unit that makes it readable.
///
/// Sub-millisecond is written `<1 ms` rather than `0 ms`: the search did
/// happen, and a zero would read as one that did not.
fn elapsed(took: Elapsed) -> (out: String)
    requires
        took.wf(),
    ensures
        out@ == elapsed_text(took),
{
    let millis: u128 = took.millis();
    if millis == 0 {
        return "<1 ms".to_owned();
    }
    if millis <= 9_999 {
        let mut out = wide_decimal_of(millis);
        out.append(" ms");
        return out;
    }
    let mut out = format_seconds(took.secs, took.nanos);
    out.append(" s");
    out
}

/// The count, in words.
pub open spec fn hits_text(hits: nat, capped: bool) -> Seq<char> {
    if capped {
        decimal(hits) + "+ hits"@
    } else if hits == 0 {
        "no hits"@
    } else if hits == 1 {
        "1 hit"@
    } else {
        decimal(hits) + " hits"@
    }
}

/// The count, in words. A capped count is written `10000+ hits`, so a floor
/// never passes for a total.
fn hits(outcome: &Outcome) -> (out: String)
    ensures
        out@ == hits_text(outcome.hits as nat, outcome.capped),
{
    if outcome.capped {
        let mut out = decimal_of(outcome.hits);
        out.append("+ hits");
        return out;
    }
    if outcome.hits == 0 {
        "no hits".to_owned()
    } else if outcome.hits == 1 {
        "1 hit".to_owned()
    } else {
        let mut out = decimal_of(outcome.hits);
        out.append(" hits");
        out
    }
}

/// What the readout says of accounts that could not be reached.
pub open spec fn unreachable_note(accounts: Seq<Seq<char>>) -> Seq<char> {
    if accounts.len() == 0 {
        Seq::empty()
    } else if accounts.len() == 1 {
        " · "@ + accounts[0] + " unreachable"@
    } else {
        " · "@ + decimal(accounts.len()) + " unreachable"@
    }
}

/// The readout.
pub open spec fn readout_line(outcome: Outcome) -> Seq<char> {
    hits_text(outcome.hits as nat, outcome.capped) + " · "@ + elapsed_text(outcome.elapsed) + (
    if outcome.corpus_complete {
        Seq::empty()
    } else {
        " · still syncing"@
    }) + unreachable_note(texts(outcome.unreachable@))
}

/// The readout: `14 hits · 11 ms`.
///
/// No thousands separators: two number formats in one column would read as two
/// kinds of number. A corpus still filling adds `· still syncing` -- a *state
/// that ends*. Both caveats, when both are true: they are different facts with
/// different fixes. One unreachable account is named; past one the count says
/// there is more than one to fix.
pub fn readout(outcome: &Outcome) -> (out: String)
    requires
        outcome.elapsed.wf(),
    ensures
        out@ == readout_line(*outcome),
{
    let mut line = hits(outcome);
    line.append(" · ");
    line.append(elapsed(outcome.elapsed).as_str());
    if !outcome.corpus_complete {
        line.append(" · still syncing");
    }
    let ghost names = texts(outcome.unreachable@);
    assert(names.len() == outcome.unreachable@.len());
    if outcome.unreachable.len() == 1 {
        assert(names[0] == outcome.unreachable@[0]@);
        line.append(" · ");
        line.append(outcome.unreachable[0].as_str());
        line.append(" unreachable");
    } else if outcome.unreachable.len() > 1 {
        line.append(" · ");
        line.append(decimal_of(outcome.unreachable.len() as u64).as_str());
        line.append(" unreachable");
    }
    assert(line@ =~= readout_line(*outcome));
    line
}

/// The time, in words.
pub open spec fn spoken_time(millis: nat) -> Seq<char> {
    if millis == 0 {
        ", in under a millisecond"@
    } else if millis == 1 {
        ", in 1 millisecond"@
    } else {
        ", in "@ + decimal(millis) + " milliseconds"@
    }
}

/// The readout in words.
pub open spec fn spoken_line(outcome: Outcome) -> Seq<char> {
    hits_text(outcome.hits as nat, outcome.capped) + spoken_time(outcome.elapsed.in_millis()) + (
    if outcome.corpus_complete {
        Seq::empty()
    } else {
        ". This account is still syncing, so messages whose text has not arrived yet could not be searched."@
    }) + (if outcome.unreachable@.len() == 0 {
        Seq::empty()
    } else {
        ". "@ + joined_with_and(texts(outcome.unreachable@))
            + " could not be searched, so this answer may be short."@
    })
}

/// The readout as a screen reader should hear it -- the same facts, in words,
/// and every unreachable account by name.
pub fn spoken_readout(outcome: &Outcome) -> (out: String)
    ensures
        out@ == spoken_line(*outcome),
{
    let millis: u128 = outcome.elapsed.millis();
    let mut out = hits(outcome);
    let ghost counted = out@;
    if millis == 0 {
        out.append(", in under a millisecond");
    } else if millis == 1 {
        out.append(", in 1 millisecond");
    } else {
        out.append(", in ");
        out.append(wide_decimal_of(millis).as_str());
        out.append(" milliseconds");
    }
    assert(out@ =~= counted + spoken_time(millis as nat));
    if !outcome.corpus_complete {
        out.append(
            ". This account is still syncing, so messages whose text has not arrived yet could not be searched.",
        );
    }
    if outcome.unreachable.len() > 0 {
        out.append(". ");
        out.append(join_and(outcome.unreachable.as_slice()).as_str());
        out.append(" could not be searched, so this answer may be short.");
    }
    assert(out@ =~= spoken_line(*outcome));
    out
}

// ---------------------------------------------------------------------------
// Pacing
// ---------------------------------------------------------------------------

/// Which question is outstanding, so an answer to an older one can be thrown
/// away instead of drawn.
///
/// Every run gets a sequence number, and only the newest one's answer is
/// accepted: superseding a query is the *normal* case when results follow
/// every keystroke.
#[derive(Clone, Copy, Debug, PartialEq, Eq, Structural)]
pub struct Pacer {
    issued: u64,
}

impl View for Pacer {
    type V = u64;

    closed spec fn view(&self) -> u64 {
        self.issued
    }
}

/// The answer to `sequence` is the answer to the current question.
pub open spec fn accepted(issued: u64, sequence: u64) -> bool {
    sequence != 0 && sequence == issued
}

impl Default for Pacer {
    fn default() -> (out: Self)
        ensures
            out@ == 0,
    {
        Pacer { issued: 0 }
    }
}

impl Pacer {
    /// The sequence number of the outstanding run.
    pub fn issued(&self) -> (out: u64)
        ensures
            out == self@,
    {
        self.issued
    }

    /// Hands out the sequence number for a new run, superseding whatever was
    /// in flight.
    pub fn issue(&mut self) -> (out: u64)
        requires
            old(self)@ < u64::MAX,
        ensures
            out == old(self)@ + 1,
            final(self)@ == out,
    {
        self.issued = self.issued + 1;
        self.issued
    }

    /// Whether `sequence`'s answer is still the answer to the current
    /// question.
    pub fn accepts(&self, sequence: u64) -> (out: bool)
        ensures
            out == accepted(self@, sequence),
    {
        sequence != 0 && sequence == self.issued
    }

    /// Gives up on whatever is in flight without asking anything new -- the
    /// box closed, or emptied.
    pub fn abandon(&mut self)
        requires
            old(self)@ < u64::MAX,
        ensures
            final(self)@ == old(self)@ + 1,
    {
        self.issued = self.issued + 1;
    }
}

// ---------------------------------------------------------------------------
// Laws
// ---------------------------------------------------------------------------

/// Only the newest question's answer is drawn: once another run is issued, or
/// this one given up, no answer to an earlier one is accepted.
pub proof fn lemma_only_newest_accepted(before: u64, after: u64, sequence: u64)
    requires
        after == before + 1,
        sequence <= before,
    ensures
        !accepted(after, sequence),
        before != 0 ==> accepted(before, before),
{
}

/// The chips are the operators and nothing else, in the order they were typed.
pub proof fn lemma_chips_are_the_operators(tokens: Seq<Token>)
    ensures
        forall|k: int|
            0 <= k < operators(tokens).len() ==> 0 <= #[trigger] operators(tokens)[k] < tokens.len()
                && tokens[operators(tokens)[k]].field is Some,
        forall|i: int, j: int|
            0 <= i < j < operators(tokens).len() ==> #[trigger] operators(tokens)[i]
                < #[trigger] operators(tokens)[j],
        forall|at: int|
            0 <= at < tokens.len() && (#[trigger] tokens[at]).field is Some ==> operators(
                tokens,
            ).contains(at),
    decreases tokens.len(),
{
    if tokens.len() > 0 {
        let rest = tokens.drop_last();
        lemma_chips_are_the_operators(rest);
        let before = operators(rest);
        let now = operators(tokens);
        assert forall|k: int| 0 <= k < now.len() implies 0 <= #[trigger] now[k] < tokens.len()
            && tokens[now[k]].field is Some by {
            if k < before.len() {
                assert(now[k] == before[k]);
                assert(tokens[before[k]] == rest[before[k]]);
            }
        }
        assert forall|at: int|
            0 <= at < tokens.len() && (#[trigger] tokens[at]).field is Some implies now.contains(
            at,
        ) by {
            if at < rest.len() {
                assert(rest[at] == tokens[at]);
                assert(before.contains(at));
                let k = choose|k: int| 0 <= k < before.len() && before[k] == at;
                assert(now[k] == at);
            } else {
                assert(now[before.len() as int] == at);
            }
        }
    }
}

/// Backspace never swallows free text whole, and never a chip the caret only
/// stands in front of.
pub proof fn lemma_only_chips_pop(tokens: Seq<Token>, caret: int)
    ensures
        popped(tokens, caret) matches Some(at) ==> 0 <= at < tokens.len() && tokens[at].field is Some
            && tokens[at].start < caret <= tokens[at].end,
{
    lemma_token_at(tokens, caret, 0);
}

proof fn lemma_token_at(tokens: Seq<Token>, caret: int, from: int)
    ensures
        token_at(tokens, caret, from) matches Some(at) ==> 0 <= at < tokens.len()
            && tokens[at].start <= caret <= tokens[at].end,
    decreases tokens.len() - from,
{
    if 0 <= from < tokens.len() && !(tokens[from].start <= caret <= tokens[from].end) {
        lemma_token_at(tokens, caret, from + 1);
    }
}

/// Backspace takes a chip out exactly when it is the first token the caret is
/// in or against, and the caret is not in front of it.
pub proof fn lemma_which_chip_pops(tokens: Seq<Token>, caret: int, at: int)
    ensures
        popped(tokens, caret) == Some(at) <==> {
            &&& 0 <= at < tokens.len()
            &&& tokens[at].field is Some
            &&& tokens[at].start < caret <= tokens[at].end
            &&& forall|i: int|
                0 <= i < at ==> !((#[trigger] tokens[i]).start <= caret && caret <= tokens[i].end)
        },
{
    lemma_token_is_first(tokens, caret, 0);
}

proof fn lemma_token_is_first(tokens: Seq<Token>, caret: int, from: int)
    requires
        0 <= from,
    ensures
        match token_at(tokens, caret, from) {
            Some(at) => from <= at < tokens.len() && tokens[at].start <= caret <= tokens[at].end
                && forall|i: int|
                from <= i < at ==> !((#[trigger] tokens[i]).start <= caret && caret
                    <= tokens[i].end),
            None => forall|i: int|
                from <= i < tokens.len() ==> !((#[trigger] tokens[i]).start <= caret && caret
                    <= tokens[i].end),
        },
    decreases tokens.len() - from,
{
    if from < tokens.len() && !(tokens[from].start <= caret <= tokens[from].end) {
        lemma_token_is_first(tokens, caret, from + 1);
    }
}

/// Once a chip is out the caret stands behind what was before it, at the last
/// character there that is no white space.
pub proof fn lemma_where_the_caret_goes(before: Seq<char>, space: Seq<char>, rest: Seq<char>)
    requires
        before.len() > 0 ==> !white_space(before.last()),
        forall|i: int| 0 <= i < space.len() ==> white_space(#[trigger] space[i]),
    ensures
        caret_after(before + space + rest, byte_len(before + space) as int) == byte_len(before),
{
    lemma_chars_of_a_part(before + space, rest);
    assert((before + space + rest).take((before + space).len() as int) =~= before + space);
    lemma_trimmed_of_padded(before, space);
}

proof fn lemma_chars_of_a_part(part: Seq<char>, rest: Seq<char>)
    ensures
        chars_in(part + rest, byte_len(part) as int) == Some(part.len() as int),
    decreases part.len(),
{
    let s = part + rest;
    if part.len() > 0 {
        lemma_byte_len_front(part);
        lemma_chars_of_a_part(part.skip(1), rest);
        assert(s.skip(1) =~= part.skip(1) + rest);
        assert(s[0] == part[0]);
    }
}

proof fn lemma_trimmed_of_padded(before: Seq<char>, space: Seq<char>)
    requires
        before.len() > 0 ==> !white_space(before.last()),
        forall|i: int| 0 <= i < space.len() ==> white_space(#[trigger] space[i]),
    ensures
        trimmed_end(before + space) == before,
    decreases space.len(),
{
    let s = before + space;
    if space.len() == 0 {
        assert(s =~= before);
    } else {
        let fewer = space.drop_last();
        assert forall|i: int| 0 <= i < fewer.len() implies white_space(#[trigger] fewer[i]) by {
            assert(space[i] == fewer[i]);
        }
        assert(white_space(space[space.len() - 1]));
        assert(s.last() == space[space.len() - 1]);
        assert(s.drop_last() =~= before + fewer);
        lemma_trimmed_of_padded(before, fewer);
    }
}

/// A chip is read as its field and what follows the first colon of what was
/// typed; that it is negated comes first, that it has no value yet last.
pub proof fn lemma_how_a_chip_reads(chip: Chip, keyword: Seq<char>, value: Seq<char>)
    requires
        chip.label@ == keyword + seq![':'] + value,
        !keyword.contains(':'),
    ensures
        chip.complete && !chip.negated ==> spoken_chip(chip) == chip.field@ + " "@ + value,
        chip.complete && chip.negated ==> spoken_chip(chip) == "not "@ + chip.field@ + " "@ + value,
        !chip.complete && !chip.negated ==> spoken_chip(chip) == chip.field@ + ", no value yet"@,
        !chip.complete && chip.negated ==> spoken_chip(chip) == "not "@ + chip.field@
            + ", no value yet"@,
{
    reveal_strlit(":");
    let s = chip.label@;
    let colon = ":"@;
    lemma_find(s, colon, 0);
    let at = keyword.len() as int;
    assert(s.subrange(at, at + 1) =~= colon);
    assert(occurs_at(s, colon, at));
    assert forall|i: int| 0 <= i < at implies !#[trigger] occurs_at(s, colon, i) by {
        if occurs_at(s, colon, i) {
            assert(s.subrange(i, i + 1)[0] == s[i]);
            assert(s[i] == keyword[i]);
            assert(colon[0] == ':');
            assert(keyword.contains(':'));
        }
    }
    assert(crate::text::find_from(s, colon, 0) == Some(at));
    assert(s.skip(at + 1) =~= value);
    assert(spoken_chip(chip) =~= (if chip.negated {
        "not "@
    } else {
        Seq::empty()
    }) + chip.field@ + (if chip.complete {
        " "@ + value
    } else {
        ", no value yet"@
    }));
    if chip.complete && !chip.negated {
        assert(spoken_chip(chip) =~= chip.field@ + " "@ + value);
    } else if chip.complete {
        assert(spoken_chip(chip) =~= "not "@ + chip.field@ + " "@ + value);
    } else if !chip.negated {
        assert(spoken_chip(chip) =~= chip.field@ + ", no value yet"@);
    }
}

/// A time is said in whole milliseconds gone by, as none at all only when not
/// one has, and in seconds from ten of them on.
pub proof fn lemma_time_said(elapsed: Elapsed)
    requires
        elapsed.wf(),
    ensures
        ({
            let nanos = elapsed.secs * 1_000_000_000 + elapsed.nanos;
            &&& nanos < 1_000_000 <==> elapsed_text(elapsed) == "<1 ms"@
            &&& 1_000_000 <= nanos < 10_000_000_000 ==> exists|millis: nat|
                millis * 1_000_000 <= nanos < (millis + 1) * 1_000_000 && elapsed_text(elapsed)
                    == #[trigger] decimal(millis) + " ms"@
            &&& nanos >= 10_000_000_000 ==> elapsed_text(elapsed) == seconds_text(
                elapsed.secs as nat,
                elapsed.nanos as nat,
            ) + " s"@
            &&& elapsed.in_millis() * 1_000_000 <= nanos < (elapsed.in_millis() + 1) * 1_000_000
        }),
{
    reveal_strlit("<1 ms");
    reveal_strlit(" ms");
    reveal_strlit(" s");
    let millis = elapsed.in_millis();
    if 0 < millis <= 9_999 {
        lemma_decimal_digits(millis);
        assert(elapsed_text(elapsed) == decimal(millis) + " ms"@);
        assert('0' <= decimal(millis)[0]);
        assert(elapsed_text(elapsed)[0] == decimal(millis)[0]);
        assert("<1 ms"@[0] == '<');
        assert(decimal(millis)[0] <= '9');
    }
    if millis > 9_999 {
        let said = elapsed_text(elapsed);
        assert(said[said.len() - 2] == ' ');
        assert("<1 ms"@[3] == 'm');
        assert("<1 ms"@.len() == 5);
    }
}

/// A floor never passes for a total, and no two totals are said alike.
pub proof fn lemma_counts_are_told_apart(a: nat, b: nat)
    ensures
        hits_text(a, false) == hits_text(b, false) ==> a == b,
        hits_text(a, true) == hits_text(b, true) ==> a == b,
        hits_text(a, true) != hits_text(b, false),
        a > 1 ==> hits_text(a, false) == decimal(a) + " hits"@,
{
    reveal_strlit("+ hits");
    reveal_strlit(" hits");
    reveal_strlit("no hits");
    reveal_strlit("1 hit");
    lemma_decimal_digits(a);
    lemma_decimal_digits(b);
    assert(decimal(1) =~= seq!['1']);
    let one = hits_text(a, false);
    let two = hits_text(b, false);
    assert('0' <= decimal(a)[0] && decimal(a)[0] <= '9');
    assert('0' <= decimal(b)[0] && decimal(b)[0] <= '9');
    if one == two {
        assert(one[0] == two[0]);
        assert(one.last() == two.last());
        if a > 1 && b > 1 {
            assert(one.take(one.len() - 5) =~= decimal(a));
            assert(two.take(two.len() - 5) =~= decimal(b));
            lemma_decimal_differs(a, b);
        }
    }
    let floor = hits_text(a, true);
    if hits_text(a, true) == hits_text(b, true) {
        assert(floor.take(floor.len() - 6) =~= decimal(a));
        assert(hits_text(b, true).take(floor.len() - 6) =~= decimal(b));
        lemma_decimal_differs(a, b);
    }
    if floor == two {
        assert(floor[0] == two[0]);
        assert(floor.last() == two.last());
        assert(floor[floor.len() - 6] == two[two.len() - 6]);
        if b > 1 {
            assert(two[two.len() - 6] == decimal(b).last());
            assert('0' <= decimal(b)[decimal(b).len() - 1]);
        }
    }
}

/// Every caveat is added to what the readout says without it, the corpus's
/// first; one account that could not be reached is named, more are counted,
/// and read aloud each of them is named.
pub proof fn lemma_caveats_are_said(outcome: Outcome, clean: Outcome)
    requires
        clean.hits == outcome.hits,
        clean.capped == outcome.capped,
        clean.elapsed == outcome.elapsed,
        clean.corpus_complete,
        clean.unreachable@.len() == 0,
    ensures
        readout_line(clean) == hits_text(outcome.hits as nat, outcome.capped) + " · "@ + elapsed_text(
            outcome.elapsed,
        ),
        readout_line(outcome) == readout_line(clean) + (if outcome.corpus_complete {
            Seq::empty()
        } else {
            " · still syncing"@
        }) + (if outcome.unreachable@.len() == 0 {
            Seq::empty()
        } else if outcome.unreachable@.len() == 1 {
            " · "@ + outcome.unreachable@[0]@ + " unreachable"@
        } else {
            " · "@ + decimal(outcome.unreachable@.len()) + " unreachable"@
        }),
        has_prefix(spoken_line(outcome), spoken_line(clean)),
        outcome.corpus_complete && outcome.unreachable@.len() == 0 ==> spoken_line(outcome)
            == spoken_line(clean),
        !outcome.corpus_complete ==> spoken_line(outcome).len() > spoken_line(clean).len(),
        forall|i: int|
            0 <= i < outcome.unreachable@.len() ==> has_text(
                spoken_line(outcome),
                (#[trigger] outcome.unreachable@[i])@,
            ),
{
    reveal_strlit(
        ". This account is still syncing, so messages whose text has not arrived yet could not be searched.",
    );
    let names = texts(outcome.unreachable@);
    assert(texts(clean.unreachable@).len() == 0);
    assert(readout_line(clean) =~= hits_text(outcome.hits as nat, outcome.capped) + " · "@
        + elapsed_text(outcome.elapsed));
    let said = spoken_line(outcome);
    let short = spoken_line(clean);
    assert(said.subrange(0, short.len() as int) =~= short);
    assert forall|i: int| 0 <= i < outcome.unreachable@.len() implies has_text(
        said,
        (#[trigger] outcome.unreachable@[i])@,
    ) by {
        assert(names[i] == outcome.unreachable@[i]@);
        lemma_every_name_is_said(names, i);
        let listed = joined_with_and(names);
        let at = choose|at: int| #[trigger] occurs_at(listed, names[i], at);
        let tail = " could not be searched, so this answer may be short."@;
        let start = said.len() - tail.len() - listed.len();
        assert(said.subrange(start + at, start + at + names[i].len()) =~= listed.subrange(
            at,
            at + names[i].len(),
        ));
        assert(occurs_at(said, names[i], start + at));
    }
}

} // verus!
