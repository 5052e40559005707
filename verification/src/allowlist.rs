//! Who may load remote images, kept across restarts.
//!
//! Remote images are blocked by default, and "show once" never touches this.
//! This is the standing exception, and the only place a decision to make one
//! is recorded. The rule and the file format live here; each frontend supplies
//! the file.
//!
//! Two grants, deliberately. "Always allow this address" is what a person
//! means about a correspondent; "always allow this domain" is what they mean
//! about a service that never sends from the same address twice. A domain
//! grant covers every address under it; neither covers a subdomain of the
//! other, because guessing costs privacy.
use vstd::prelude::*;
use crate::text::{all_ascii, ascii_lower_char, chars_of, first_index, lemma_lowered_twice};
use crate::text::{last_index, lines_of, lowercase, rfind_char};
use crate::text::{ascii_lower, lemma_first_and_last, lemma_padding_comes_off, lemma_trimmed};
use crate::text::{same_text, split_at_char, split_lines, text_of, texts, to_lowercase};
use crate::text::{trim, trimmed, trimmed_end, trimmed_start, white_space, without_return};

verus! {

// ---------------------------------------------------------------------------
// Sorted texts
// ---------------------------------------------------------------------------

/// `a` comes before `b`: their first difference is a smaller character in
/// `a`, or `a` ends there.
pub open spec fn text_before(a: Seq<char>, b: Seq<char>) -> bool
    decreases b.len(),
{
    if b.len() == 0 {
        false
    } else if a.len() == 0 {
        true
    } else if a[0] != b[0] {
        a[0] < b[0]
    } else {
        text_before(a.skip(1), b.skip(1))
    }
}

/// Whether `a` comes before `b`.
fn comes_before(a: &str, b: &str) -> (out: bool)
    ensures
        out == text_before(a@, b@),
{
    let a = chars_of(a);
    let b = chars_of(b);
    let mut i: usize = 0;
    assert(a@.skip(0) =~= a@);
    assert(b@.skip(0) =~= b@);
    while i < a.len() && i < b.len() && a[i] == b[i]
        invariant
            i <= a@.len(),
            i <= b@.len(),
            text_before(a@, b@) == text_before(a@.skip(i as int), b@.skip(i as int)),
        decreases a@.len() - i,
    {
        assert(a@.skip(i as int).skip(1) =~= a@.skip(i + 1));
        assert(b@.skip(i as int).skip(1) =~= b@.skip(i + 1));
        i += 1;
    }
    if i >= b.len() {
        false
    } else if i >= a.len() {
        true
    } else {
        a[i] < b[i]
    }
}

proof fn lemma_text_order(a: Seq<char>, b: Seq<char>)
    ensures
        text_before(a, b) ==> !text_before(b, a) && a != b,
    decreases a.len() + b.len(),
{
    if a.len() > 0 && b.len() > 0 && a[0] == b[0] {
        lemma_text_order(a.skip(1), b.skip(1));
    }
}

proof fn lemma_text_order_total(a: Seq<char>, b: Seq<char>)
    ensures
        text_before(a, b) || text_before(b, a) || a == b,
    decreases a.len() + b.len(),
{
    if a.len() > 0 && b.len() > 0 {
        if a[0] == b[0] {
            lemma_text_order_total(a.skip(1), b.skip(1));
            if a.skip(1) == b.skip(1) {
                assert(a =~= seq![a[0]] + a.skip(1));
                assert(b =~= seq![b[0]] + b.skip(1));
            }
        }
    } else if a.len() == 0 && b.len() == 0 {
        assert(a =~= b);
    }
}

proof fn lemma_text_order_chains(a: Seq<char>, b: Seq<char>, c: Seq<char>)
    requires
        text_before(a, b),
        text_before(b, c),
    ensures
        text_before(a, c),
    decreases c.len(),
{
    if a.len() > 0 && a[0] == b[0] && b[0] == c[0] {
        lemma_text_order_chains(a.skip(1), b.skip(1), c.skip(1));
    }
}

/// In order, and none twice.
pub open spec fn in_order(s: Seq<Seq<char>>) -> bool {
    forall|i: int, j: int| 0 <= i < j < s.len() ==> text_before(#[trigger] s[i], #[trigger] s[j])
}

/// `s` with `x` in its place, unless it is there.
pub open spec fn with_text(s: Seq<Seq<char>>, x: Seq<char>) -> Seq<Seq<char>>
    decreases s.len(),
{
    if s.len() == 0 {
        seq![x]
    } else if s[0] == x {
        s
    } else if text_before(x, s[0]) {
        seq![x] + s
    } else {
        seq![s[0]] + with_text(s.skip(1), x)
    }
}

/// `s` without `x`.
pub open spec fn without_text(s: Seq<Seq<char>>, x: Seq<char>) -> Seq<Seq<char>>
    decreases s.len(),
{
    if s.len() == 0 {
        s
    } else if s.last() == x {
        without_text(s.drop_last(), x)
    } else {
        without_text(s.drop_last(), x).push(s.last())
    }
}

/// Adding keeps what is there and adds the one; taking away leaves the others.
proof fn lemma_members(s: Seq<Seq<char>>, x: Seq<char>, y: Seq<char>)
    ensures
        with_text(s, x).contains(y) <==> s.contains(y) || x == y,
    decreases s.len(),
{
    let now = with_text(s, x);
    if s.len() == 0 {
        assert(now[0] == x);
    } else if s[0] == x {
        assert(s[0] == x);
    } else if text_before(x, s[0]) {
        assert(now[0] == x);
        if s.contains(y) {
            let i = choose|i: int| 0 <= i < s.len() && s[i] == y;
            assert(now[i + 1] == y);
        }
        if now.contains(y) && x != y {
            let i = choose|i: int| 0 <= i < now.len() && now[i] == y;
            assert(s[i - 1] == y);
        }
    } else {
        let rest = s.skip(1);
        lemma_members(rest, x, y);
        let part = with_text(rest, x);
        if s.contains(y) && s[0] != y {
            let i = choose|i: int| 0 <= i < s.len() && s[i] == y;
            assert(rest[i - 1] == y);
        }
        if part.contains(y) {
            let i = choose|i: int| 0 <= i < part.len() && part[i] == y;
            assert(now[i + 1] == y);
        }
        if s[0] == y {
            assert(now[0] == y);
        }
        if now.contains(y) && s[0] != y {
            let i = choose|i: int| 0 <= i < now.len() && now[i] == y;
            assert(part[i - 1] == y);
        }
        if rest.contains(y) {
            let i = choose|i: int| 0 <= i < rest.len() && rest[i] == y;
            assert(s[i + 1] == y);
        }
    }
}

proof fn lemma_left(s: Seq<Seq<char>>, x: Seq<char>, y: Seq<char>)
    ensures
        without_text(s, x).contains(y) <==> s.contains(y) && x != y,
    decreases s.len(),
{
    if s.len() > 0 {
        let rest = s.drop_last();
        lemma_left(rest, x, y);
        let part = without_text(rest, x);
        let now = without_text(s, x);
        if s.contains(y) {
            let i = choose|i: int| 0 <= i < s.len() && s[i] == y;
            if i < rest.len() {
                assert(rest[i] == y);
            }
        }
        if rest.contains(y) {
            let i = choose|i: int| 0 <= i < rest.len() && rest[i] == y;
            assert(s[i] == y);
        }
        if s.last() != x {
            if part.contains(y) {
                let i = choose|i: int| 0 <= i < part.len() && part[i] == y;
                assert(now[i] == y);
            }
            if s.last() == y {
                assert(now[part.len() as int] == y);
                assert(s[s.len() - 1] == y);
            }
            if now.contains(y) {
                let i = choose|i: int| 0 <= i < now.len() && now[i] == y;
                if i < part.len() {
                    assert(part[i] == y);
                }
            }
        } else if s.last() == y {
            assert(s[s.len() - 1] == y);
        }
    }
}

/// Adding and taking away keep the order.
pub proof fn lemma_order_is_kept(s: Seq<Seq<char>>, x: Seq<char>)
    requires
        in_order(s),
    ensures
        in_order(with_text(s, x)),
        in_order(without_text(s, x)),
    decreases s.len(),
{
    if s.len() > 0 {
        let rest = s.skip(1);
        let part = with_text(rest, x);
        let now = with_text(s, x);
        assert forall|i: int, j: int| 0 <= i < j < rest.len() implies text_before(
            #[trigger] rest[i],
            #[trigger] rest[j],
        ) by {
            assert(text_before(s[i + 1], s[j + 1]));
        }
        lemma_order_is_kept(rest, x);
        if s[0] == x {
        } else if text_before(x, s[0]) {
            assert forall|i: int, j: int| 0 <= i < j < now.len() implies text_before(
                #[trigger] now[i],
                #[trigger] now[j],
            ) by {
                if i == 0 {
                    if j > 1 {
                        assert(text_before(s[0], s[j - 1]));
                        lemma_text_order_chains(x, s[0], s[j - 1]);
                    }
                } else {
                    assert(text_before(s[i - 1], s[j - 1]));
                }
            }
        } else {
            lemma_text_order_total(x, s[0]);
            assert forall|i: int, j: int| 0 <= i < j < now.len() implies text_before(
                #[trigger] now[i],
                #[trigger] now[j],
            ) by {
                if i == 0 {
                    assert(now[j] == part[j - 1]);
                    assert(part.contains(part[j - 1]));
                    lemma_members(rest, x, part[j - 1]);
                    if part[j - 1] != x {
                        let k = choose|k: int| 0 <= k < rest.len() && rest[k] == part[j - 1];
                        assert(text_before(s[0], s[k + 1]));
                    }
                } else {
                    assert(text_before(part[i - 1], part[j - 1]));
                }
            }
        }
        let less = s.drop_last();
        assert forall|i: int, j: int| 0 <= i < j < less.len() implies text_before(
            #[trigger] less[i],
            #[trigger] less[j],
        ) by {
            assert(text_before(s[i], s[j]));
        }
        lemma_order_is_kept(less, x);
        let left = without_text(less, x);
        let gone = without_text(s, x);
        if s.last() != x {
            assert forall|i: int, j: int| 0 <= i < j < gone.len() implies text_before(
                #[trigger] gone[i],
                #[trigger] gone[j],
            ) by {
                if j < left.len() {
                    assert(text_before(left[i], left[j]));
                } else {
                    assert(left.contains(left[i]));
                    lemma_left(less, x, left[i]);
                    let k = choose|k: int| 0 <= k < less.len() && less[k] == left[i];
                    assert(text_before(s[k], s[s.len() - 1]));
                }
            }
        }
    }
}

/// Whether `x` is one of `held`.
fn holds_text(held: &Vec<String>, x: &str) -> (out: bool)
    ensures
        out == texts(held@).contains(x@),
{
    let mut i: usize = 0;
    while i < held.len()
        invariant
            i <= held@.len(),
            forall|k: int| 0 <= k < i ==> texts(held@)[k] != x@,
        decreases held@.len() - i,
    {
        assert(texts(held@)[i as int] == held@[i as int]@);
        if same_text(held[i].as_str(), x) {
            return true;
        }
        i += 1;
    }
    assert(texts(held@).len() == held@.len());
    false
}

proof fn lemma_with_is_insert(s: Seq<Seq<char>>, x: Seq<char>, at: int)
    requires
        0 <= at <= s.len(),
        forall|i: int| 0 <= i < at ==> #[trigger] s[i] != x && !text_before(x, s[i]),
        at < s.len() ==> s[at] == x || text_before(x, s[at]),
    ensures
        with_text(s, x) == (if at < s.len() && s[at] == x {
            s
        } else {
            s.insert(at, x)
        }),
    decreases s.len(),
{
    if s.len() == 0 {
        assert(with_text(s, x) =~= s.insert(at, x));
    } else if at == 0 {
        assert(seq![x] + s =~= s.insert(0, x));
    } else {
        let rest = s.skip(1);
        assert(s[0] != x && !text_before(x, s[0]));
        assert forall|i: int| 0 <= i < at - 1 implies #[trigger] rest[i] != x && !text_before(
            x,
            rest[i],
        ) by {
            assert(s[i + 1] != x);
        }
        lemma_with_is_insert(rest, x, at - 1);
        if at < s.len() && s[at] == x {
            assert(seq![s[0]] + rest =~= s);
        } else {
            assert(seq![s[0]] + rest.insert(at - 1, x) =~= s.insert(at, x));
        }
    }
}

/// Puts `x` in its place among `held`, unless it is there.
fn add_text(held: &mut Vec<String>, x: String)
    ensures
        texts(final(held)@) == with_text(texts(old(held)@), x@),
{
    let ghost before = texts(held@);
    let ghost wanted = x@;
    let mut at: usize = 0;
    let mut searching = true;
    while searching && at < held.len()
        invariant
            at <= held@.len(),
            before == texts(held@),
            wanted == x@,
            forall|i: int| 0 <= i < at ==> #[trigger] before[i] != wanted && !text_before(
                wanted,
                before[i],
            ),
            !searching ==> at < held@.len() && (before[at as int] == wanted || text_before(
                wanted,
                before[at as int],
            )),
        decreases
                held@.len() - at,
                if searching {
                    1int
                } else {
                    0int
                },
    {
        assert(before[at as int] == held@[at as int]@);
        if same_text(held[at].as_str(), x.as_str()) || comes_before(x.as_str(), held[at].as_str()) {
            searching = false;
        } else {
            at += 1;
        }
    }
    proof {
        lemma_with_is_insert(before, wanted, at as int);
    }
    if at < held.len() {
        assert(before[at as int] == held@[at as int]@);
        if same_text(held[at].as_str(), x.as_str()) {
            return;
        }
    }
    held.insert(at, x);
    assert(texts(held@) =~= before.insert(at as int, wanted));
}

/// `held` without `x`.
fn leave_out(held: &Vec<String>, x: &str) -> (out: Vec<String>)
    ensures
        texts(out@) == without_text(texts(held@), x@),
{
    let ghost all = texts(held@);
    let mut out: Vec<String> = Vec::new();
    let mut i: usize = 0;
    assert(texts(out@) =~= without_text(all.take(0), x@));
    while i < held.len()
        invariant
            i <= held@.len(),
            all == texts(held@),
            texts(out@) == without_text(all.take(i as int), x@),
        decreases held@.len() - i,
    {
        let ghost done = texts(out@);
        proof {
            assert(all[i as int] == held@[i as int]@);
            assert(all.take(i + 1).drop_last() =~= all.take(i as int));
        }
        if !same_text(held[i].as_str(), x) {
            out.push(held[i].clone());
            assert(texts(out@) =~= done.push(all[i as int]));
        }
        i += 1;
    }
    assert(all.take(all.len() as int) =~= all);
    out
}

// ---------------------------------------------------------------------------
// The list
// ---------------------------------------------------------------------------

/// An address or a domain as it is kept: without white space around it, in
/// lower case.
pub open spec fn normal(text: Seq<char>) -> Seq<char> {
    lowercase(trimmed(text))
}

/// The domain half of an address.
pub open spec fn domain_part(address: Seq<char>) -> Option<Seq<char>> {
    match last_index(address, '@') {
        Some(at) => {
            let domain = normal(address.skip(at + 1));
            if domain.len() > 0 {
                Some(domain)
            } else {
                None
            }
        },
        None => None,
    }
}

/// The domain meant by an address, or by a bare domain.
pub open spec fn domain_meant(text: Seq<char>) -> Seq<char> {
    match domain_part(text) {
        Some(domain) => domain,
        None => text,
    }
}

/// Who is allowed: by address, and by domain.
pub struct Allowed {
    /// The addresses, in order.
    pub addresses: Seq<Seq<char>>,
    /// The domains, in order.
    pub domains: Seq<Seq<char>>,
}

/// Nobody is allowed.
pub open spec fn nobody() -> Allowed {
    Allowed { addresses: Seq::empty(), domains: Seq::empty() }
}

impl Allowed {
    /// `address` may load remote images.
    pub open spec fn allows(self, address: Seq<char>) -> bool {
        let address = normal(address);
        &&& address.len() > 0
        &&& {
            ||| self.addresses.contains(address)
            ||| (domain_part(address) matches Some(domain) && self.domains.contains(domain))
        }
    }

    /// The list with this address allowed.
    pub open spec fn with_address(self, address: Seq<char>) -> Allowed {
        if normal(address).len() == 0 {
            self
        } else {
            Allowed { addresses: with_text(self.addresses, normal(address)), ..self }
        }
    }

    /// The list with this domain allowed.
    pub open spec fn with_domain(self, text: Seq<char>) -> Allowed {
        let domain = domain_meant(normal(text));
        if domain.len() == 0 {
            self
        } else {
            Allowed { domains: with_text(self.domains, domain), ..self }
        }
    }

    /// The list without this grant.
    pub open spec fn revoked(self, address: Seq<char>) -> Allowed {
        Allowed {
            addresses: without_text(self.addresses, normal(address)),
            domains: without_text(self.domains, normal(address)),
        }
    }
}

/// Senders and domains whose remote images load without asking.
#[derive(Debug, PartialEq, Eq)]
pub struct AllowList {
    addresses: Vec<String>,
    domains: Vec<String>,
}

impl View for AllowList {
    type V = Allowed;

    closed spec fn view(&self) -> Allowed {
        Allowed { addresses: texts(self.addresses@), domains: texts(self.domains@) }
    }
}

/// The domain half of an address, lowercased.
fn domain_of(address: &str) -> (out: Option<String>)
    ensures
        crate::text::text_opt(out) == domain_part(address@),
{
    let chars = chars_of(address);
    match rfind_char(&chars, '@') {
        Some(at) => {
            let rest = text_of(&chars, at + 1, chars.len());
            assert(rest@ =~= address@.skip(at + 1));
            let domain = to_lowercase(trim(rest.as_str()).as_str());
            if domain.as_str().unicode_len() == 0 {
                None
            } else {
                Some(domain)
            }
        },
        None => None,
    }
}

// ---------------------------------------------------------------------------
// The file
// ---------------------------------------------------------------------------

/// The first line of the file.
pub const TITLE_LINE: &'static str = "# Senders whose remote images Postio loads without asking.";

/// The second line of the file.
pub const NOTE_LINE: &'static str =
    "# Written by Postio; every line here was a deliberate choice.";

/// What the addresses stand under.
pub const ADDRESSES_LINE: &'static str = "[addresses]";

/// What the domains stand under.
pub const DOMAINS_LINE: &'static str = "[domains]";

/// A file being read: who is allowed so far, and whether the lines are domains
/// now. Nothing before the first heading.
pub struct Reading {
    /// Who is allowed so far.
    pub list: Allowed,
    /// Which kind of line comes next.
    pub section: Option<bool>,
}

/// The reading after one more line.
pub open spec fn read_line(reading: Reading, line: Seq<char>) -> Reading {
    let line = trimmed(line);
    if line.len() == 0 || line[0] == '#' {
        reading
    } else if line == ADDRESSES_LINE@ {
        Reading { section: Some(false), ..reading }
    } else if line == DOMAINS_LINE@ {
        Reading { section: Some(true), ..reading }
    } else {
        match reading.section {
            Some(true) => Reading { list: reading.list.with_domain(line), ..reading },
            Some(false) => Reading { list: reading.list.with_address(line), ..reading },
            None => reading,
        }
    }
}

/// The reading of these lines.
pub open spec fn read_lines(lines: Seq<Seq<char>>) -> Reading
    decreases lines.len(),
{
    if lines.len() == 0 {
        Reading { list: nobody(), section: None }
    } else {
        read_line(read_lines(lines.drop_last()), lines.last())
    }
}

/// Who a file allows.
pub open spec fn parsed(text: Seq<char>) -> Allowed {
    read_lines(lines_of(text)).list
}

/// The lines, each with a line feed after it.
pub open spec fn unlined(lines: Seq<Seq<char>>) -> Seq<char>
    decreases lines.len(),
{
    if lines.len() == 0 {
        Seq::empty()
    } else {
        unlined(lines.drop_last()) + lines.last().push('\n')
    }
}

/// The lines above the addresses.
pub open spec fn opening_lines() -> Seq<Seq<char>> {
    seq![TITLE_LINE@, NOTE_LINE@, Seq::empty(), ADDRESSES_LINE@]
}

/// The lines between the addresses and the domains.
pub open spec fn middle_lines() -> Seq<Seq<char>> {
    seq![Seq::empty(), DOMAINS_LINE@]
}

/// The lines of the file for a list.
pub open spec fn file_lines(list: Allowed) -> Seq<Seq<char>> {
    opening_lines() + list.addresses + middle_lines() + list.domains
}

/// Adds one line to the text.
fn add_line(out: &mut String, line: &str, Ghost(lines): Ghost<Seq<Seq<char>>>)
    requires
        old(out)@ == unlined(lines),
    ensures
        final(out)@ == unlined(lines.push(line@)),
{
    out.append(line);
    out.push('\n');
    assert(lines.push(line@).drop_last() =~= lines);
    assert(out@ =~= unlined(lines) + line@.push('\n'));
}

/// Adds lines to the text.
fn add_lines(out: &mut String, added: &Vec<String>, Ghost(lines): Ghost<Seq<Seq<char>>>)
    requires
        old(out)@ == unlined(lines),
    ensures
        final(out)@ == unlined(lines + texts(added@)),
{
    let ghost all = texts(added@);
    let mut i: usize = 0;
    assert(lines + all.take(0) =~= lines);
    while i < added.len()
        invariant
            i <= added@.len(),
            all == texts(added@),
            out@ == unlined(lines + all.take(i as int)),
        decreases added@.len() - i,
    {
        add_line(out, added[i].as_str(), Ghost(lines + all.take(i as int)));
        assert(all[i as int] == added@[i as int]@);
        assert((lines + all.take(i as int)).push(all[i as int]) =~= lines + all.take(i + 1));
        i += 1;
    }
    assert(all.take(all.len() as int) =~= all);
}

impl AllowList {
    /// Both lists are in order, and nothing is listed twice.
    #[verifier::type_invariant]
    spec fn sorted(self) -> bool {
        in_order(texts(self.addresses@)) && in_order(texts(self.domains@))
    }

    /// An empty list: nobody is allowed, which is the default state and the
    /// state any unreadable file falls back to.
    pub fn new() -> (out: Self)
        ensures
            out@ == nobody(),
    {
        let out = AllowList { addresses: Vec::new(), domains: Vec::new() };
        assert(texts(out.addresses@) =~= Seq::<Seq<char>>::empty());
        assert(texts(out.domains@) =~= Seq::<Seq<char>>::empty());
        out
    }

    /// Parse a saved list. Anything unparseable reads as empty.
    ///
    /// **Fails closed.** A corrupt file means nobody is allow-listed, never
    /// "allow everything" and never an error that stops a message being read.
    /// A line before any heading belongs to nothing: guessing which list it
    /// was meant for is guessing about consent.
    pub fn parse(text: &str) -> (out: Self)
        ensures
            out@ == parsed(text@),
    {
        let lines = split_lines(text);
        let ghost all = lines_of(text@);
        let mut list = AllowList::new();
        let mut section: Option<bool> = None;
        let mut i: usize = 0;
        assert(all.take(0) =~= Seq::<Seq<char>>::empty());
        while i < lines.len()
            invariant
                i <= lines@.len(),
                all == texts(lines@),
                list@ == read_lines(all.take(i as int)).list,
                section == read_lines(all.take(i as int)).section,
            decreases lines@.len() - i,
        {
            proof {
                assert(all[i as int] == lines@[i as int]@);
                assert(all.take(i + 1).drop_last() =~= all.take(i as int));
            }
            let line = trim(lines[i].as_str());
            if line.as_str().unicode_len() == 0 || line.as_str().get_char(0) == '#' {
            } else if same_text(line.as_str(), ADDRESSES_LINE) {
                section = Some(false);
            } else if same_text(line.as_str(), DOMAINS_LINE) {
                section = Some(true);
            } else {
                match section {
                    Some(true) => list.allow_domain(line.as_str()),
                    Some(false) => list.allow(line.as_str()),
                    None => {},
                }
            }
            i += 1;
        }
        assert(all.take(all.len() as int) =~= all);
        list
    }

    /// The file's text, ready to write.
    pub fn render(&self) -> (out: String)
        ensures
            out@ == unlined(file_lines(self@)),
    {
        let mut out = String::new();
        let ghost blank: Seq<char> = Seq::empty();
        let ghost head: Seq<Seq<char>> = opening_lines();
        proof {
            reveal_strlit("");
            assert(""@ =~= blank);
        }
        assert(out@ =~= unlined(head.take(0)));
        add_line(&mut out, TITLE_LINE, Ghost(head.take(0)));
        assert(head.take(0).push(TITLE_LINE@) =~= head.take(1));
        add_line(&mut out, NOTE_LINE, Ghost(head.take(1)));
        assert(head.take(1).push(NOTE_LINE@) =~= head.take(2));
        add_line(&mut out, "", Ghost(head.take(2)));
        assert(head.take(2).push(blank) =~= head.take(3));
        add_line(&mut out, ADDRESSES_LINE, Ghost(head.take(3)));
        assert(head.take(3).push(ADDRESSES_LINE@) =~= head);
        add_lines(&mut out, &self.addresses, Ghost(opening_lines()));
        let ghost first = opening_lines() + self@.addresses;
        add_line(&mut out, "", Ghost(first));
        add_line(&mut out, DOMAINS_LINE, Ghost(first.push(blank)));
        assert(first.push(blank).push(DOMAINS_LINE@) =~= first + middle_lines());
        add_lines(&mut out, &self.domains, Ghost(first + middle_lines()));
        out
    }

    /// Whether `address` may load remote images -- by its own grant or by one
    /// covering its domain.
    pub fn is_allowed(&self, address: &str) -> (out: bool)
        ensures
            out == self@.allows(address@),
    {
        let address = to_lowercase(trim(address).as_str());
        if address.as_str().unicode_len() == 0 {
            return false;
        }
        if holds_text(&self.addresses, address.as_str()) {
            return true;
        }
        match domain_of(address.as_str()) {
            Some(domain) => holds_text(&self.domains, domain.as_str()),
            None => false,
        }
    }

    /// Always allow this address.
    pub fn allow(&mut self, address: &str)
        ensures
            final(self)@ == old(self)@.with_address(address@),
    {
        let address = to_lowercase(trim(address).as_str());
        if address.as_str().unicode_len() > 0 {
            proof {
                use_type_invariant(&*self);
                lemma_order_is_kept(texts(self.addresses@), address@);
            }
            let mut held: Vec<String> = Vec::new();
            std::mem::swap(&mut held, &mut self.addresses);
            add_text(&mut held, address);
            self.addresses = held;
        }
    }

    /// Always allow every address at this domain.
    ///
    /// Takes an address or a bare domain, because the caller has an address
    /// and the menu item says "this domain".
    pub fn allow_domain(&mut self, address_or_domain: &str)
        ensures
            final(self)@ == old(self)@.with_domain(address_or_domain@),
    {
        let text = to_lowercase(trim(address_or_domain).as_str());
        let domain = match domain_of(text.as_str()) {
            Some(domain) => domain,
            None => text,
        };
        if domain.as_str().unicode_len() > 0 {
            proof {
                use_type_invariant(&*self);
                lemma_order_is_kept(texts(self.domains@), domain@);
            }
            let mut held: Vec<String> = Vec::new();
            std::mem::swap(&mut held, &mut self.domains);
            add_text(&mut held, domain);
            self.domains = held;
        }
    }

    /// Take a grant back.
    pub fn revoke(&mut self, address: &str)
        ensures
            final(self)@ == old(self)@.revoked(address@),
    {
        let address = to_lowercase(trim(address).as_str());
        proof {
            use_type_invariant(&*self);
            lemma_order_is_kept(texts(self.addresses@), address@);
            lemma_order_is_kept(texts(self.domains@), address@);
        }
        self.addresses = leave_out(&self.addresses, address.as_str());
        self.domains = leave_out(&self.domains, address.as_str());
    }

    /// Every address allowed by name, for a settings pane to list: in order,
    /// and none twice.
    pub fn addresses(&self) -> (out: Vec<&str>)
        ensures
            in_order(self@.addresses),
            out@.len() == self@.addresses.len(),
            forall|i: int| 0 <= i < out@.len() ==> (#[trigger] out@[i])@ == self@.addresses[i],
    {
        proof {
            use_type_invariant(self);
        }
        borrowed(&self.addresses)
    }

    /// Every domain allowed wholesale: in order, and none twice.
    pub fn domains(&self) -> (out: Vec<&str>)
        ensures
            in_order(self@.domains),
            out@.len() == self@.domains.len(),
            forall|i: int| 0 <= i < out@.len() ==> (#[trigger] out@[i])@ == self@.domains[i],
    {
        proof {
            use_type_invariant(self);
        }
        borrowed(&self.domains)
    }

    /// Whether nobody is allowed at all.
    pub fn is_empty(&self) -> (out: bool)
        ensures
            out == (self@.addresses.len() == 0 && self@.domains.len() == 0),
    {
        self.addresses.len() == 0 && self.domains.len() == 0
    }
}

impl Clone for AllowList {
    fn clone(&self) -> (out: Self)
        ensures
            out@ == self@,
    {
        proof {
            use_type_invariant(self);
        }
        let addresses = copied(&self.addresses);
        let domains = copied(&self.domains);
        AllowList { addresses, domains }
    }
}

impl Default for AllowList {
    fn default() -> (out: Self)
        ensures
            out@ == nobody(),
    {
        AllowList::new()
    }
}

/// A copy of the texts.
fn copied(held: &Vec<String>) -> (out: Vec<String>)
    ensures
        texts(out@) == texts(held@),
{
    let mut out: Vec<String> = Vec::new();
    let mut i: usize = 0;
    while i < held.len()
        invariant
            i <= held@.len(),
            out@.len() == i,
            forall|k: int| 0 <= k < i ==> (#[trigger] out@[k])@ == held@[k]@,
        decreases held@.len() - i,
    {
        out.push(held[i].clone());
        i += 1;
    }
    assert(texts(out@) =~= texts(held@));
    out
}

/// The texts, borrowed.
fn borrowed(held: &Vec<String>) -> (out: Vec<&str>)
    ensures
        out@.len() == held@.len(),
        forall|i: int| 0 <= i < out@.len() ==> (#[trigger] out@[i])@ == held@[i]@,
{
    let mut out: Vec<&str> = Vec::new();
    let mut i: usize = 0;
    while i < held.len()
        invariant
            i <= held@.len(),
            out@.len() == i,
            forall|k: int| 0 <= k < i ==> (#[trigger] out@[k])@ == held@[k]@,
        decreases held@.len() - i,
    {
        out.push(held[i].as_str());
        i += 1;
    }
    out
}

// ---------------------------------------------------------------------------
// Laws
// ---------------------------------------------------------------------------

/// Allowing an address allows it however it is capitalised, and nobody else:
/// not the rest of its domain.
pub proof fn lemma_address_grant(list: Allowed, address: Seq<char>, other: Seq<char>)
    ensures
        list.with_address(address).allows(other) <==> list.allows(other) || (normal(other)
            == normal(address) && normal(address).len() > 0),
{
    lemma_members(list.addresses, normal(address), normal(other));
}

/// Allowing a domain allows exactly the addresses at it -- not those at a
/// subdomain of it, nor at its parent.
pub proof fn lemma_domain_grant(list: Allowed, text: Seq<char>, other: Seq<char>)
    ensures
        list.with_domain(text).allows(other) <==> list.allows(other) || (normal(other).len() > 0
            && domain_meant(normal(text)).len() > 0 && domain_part(normal(other)) == Some(
            domain_meant(normal(text)),
        )),
{
    match domain_part(normal(other)) {
        Some(domain) => lemma_members(list.domains, domain_meant(normal(text)), domain),
        None => {},
    }
}

/// Taking a grant back takes it back: the address is allowed after that only
/// by a grant that covers its domain.
pub proof fn lemma_revoke_takes_back(list: Allowed, address: Seq<char>)
    ensures
        !list.revoked(address).addresses.contains(normal(address)),
        !list.revoked(address).domains.contains(normal(address)),
        list.revoked(address).allows(address) ==> exists|domain: Seq<char>|
            domain_part(normal(address)) == Some(domain) && list.domains.contains(domain),
{
    lemma_left(list.addresses, normal(address), normal(address));
    lemma_left(list.domains, normal(address), normal(address));
    if list.revoked(address).allows(address) {
        let domain = domain_part(normal(address))->0;
        lemma_left(list.domains, normal(address), domain);
    }
}

/// Every change to a list that is in order leaves it in order.
pub proof fn lemma_lists_stay_in_order(list: Allowed, text: Seq<char>)
    requires
        in_order(list.addresses),
        in_order(list.domains),
    ensures
        in_order(nobody().addresses),
        in_order(nobody().domains),
        in_order(list.with_address(text).addresses),
        in_order(list.with_domain(text).domains),
        in_order(list.revoked(text).addresses),
        in_order(list.revoked(text).domains),
{
    lemma_order_is_kept(list.addresses, normal(text));
    lemma_order_is_kept(list.domains, normal(text));
    lemma_order_is_kept(list.domains, domain_meant(normal(text)));
}

/// One of the lines is a heading.
pub open spec fn has_heading(lines: Seq<Seq<char>>) -> bool {
    exists|i: int|
        0 <= i < lines.len() && (trimmed(#[trigger] lines[i]) == ADDRESSES_LINE@ || trimmed(
            lines[i],
        ) == DOMAINS_LINE@)
}

/// A file with no heading in it allows nobody, whatever else it holds.
pub proof fn lemma_fails_closed(text: Seq<char>)
    requires
        !has_heading(lines_of(text)),
    ensures
        parsed(text) == nobody(),
{
    lemma_no_heading(lines_of(text));
}

proof fn lemma_no_heading(lines: Seq<Seq<char>>)
    requires
        !has_heading(lines),
    ensures
        read_lines(lines).list == nobody(),
        read_lines(lines).section is None,
    decreases lines.len(),
{
    if lines.len() > 0 {
        let rest = lines.drop_last();
        assert(!has_heading(rest)) by {
            if has_heading(rest) {
                let i = choose|i: int|
                    0 <= i < rest.len() && (trimmed(#[trigger] rest[i]) == ADDRESSES_LINE@
                        || trimmed(rest[i]) == DOMAINS_LINE@);
                assert(lines[i] == rest[i]);
            }
        }
        lemma_no_heading(rest);
        assert(lines[lines.len() - 1] == lines.last());
    }
}

/// A text that reads as a grant when it stands on a line of the file: it is
/// one line, not a blank one, and neither a comment nor a heading.
pub open spec fn writable(text: Seq<char>) -> bool {
    &&& !text.contains('\n')
    &&& trimmed(text).len() > 0
    &&& trimmed(text)[0] != '#'
    &&& trimmed(text) != ADDRESSES_LINE@
    &&& trimmed(text) != DOMAINS_LINE@
}

/// Every text in the list reads as a grant.
pub open spec fn can_be_written(list: Allowed) -> bool {
    &&& forall|i: int| 0 <= i < list.addresses.len() ==> writable(#[trigger] list.addresses[i])
    &&& forall|i: int| 0 <= i < list.domains.len() ==> writable(#[trigger] list.domains[i])
}

/// Everything in the list stands as a grant leaves it: in its normal form, in
/// order, and none twice.
pub open spec fn is_normal(list: Allowed) -> bool {
    &&& in_order(list.addresses)
    &&& in_order(list.domains)
    &&& forall|i: int|
        0 <= i < list.addresses.len() ==> normal(#[trigger] list.addresses[i]) == list.addresses[i]
    &&& forall|i: int|
        0 <= i < list.domains.len() ==> normal(#[trigger] list.domains[i]) == list.domains[i]
            && domain_meant(list.domains[i]) == list.domains[i]
}

/// The list with these addresses allowed, one after another.
pub open spec fn with_addresses(list: Allowed, addresses: Seq<Seq<char>>) -> Allowed
    decreases addresses.len(),
{
    if addresses.len() == 0 {
        list
    } else {
        with_addresses(list, addresses.drop_last()).with_address(addresses.last())
    }
}

/// The list with these domains allowed, one after another.
pub open spec fn with_domains(list: Allowed, domains: Seq<Seq<char>>) -> Allowed
    decreases domains.len(),
{
    if domains.len() == 0 {
        list
    } else {
        with_domains(list, domains.drop_last()).with_domain(domains.last())
    }
}

/// Everything in the list granted anew.
pub open spec fn granted_again(list: Allowed) -> Allowed {
    with_domains(with_addresses(nobody(), list.addresses), list.domains)
}

proof fn lemma_trimmed_end_last(s: Seq<char>)
    ensures
        trimmed_end(s).len() > 0 ==> !white_space(trimmed_end(s).last()),
    decreases s.len(),
{
    if s.len() > 0 && white_space(s.last()) {
        lemma_trimmed_end_last(s.drop_last());
    }
}

proof fn lemma_already_trimmed(s: Seq<char>)
    requires
        s.len() > 0,
        !white_space(s[0]),
        !white_space(s.last()),
    ensures
        trimmed(s) == s,
{
}

proof fn lemma_first_line(line: Seq<char>, rest: Seq<char>)
    requires
        !line.contains('\n'),
    ensures
        first_index(line.push('\n') + rest, '\n') == Some(line.len() as int),
    decreases line.len(),
{
    let s = line.push('\n') + rest;
    if line.len() > 0 {
        let tail = line.skip(1);
        assert(!tail.contains('\n')) by {
            if tail.contains('\n') {
                let i = choose|i: int| 0 <= i < tail.len() && tail[i] == '\n';
                assert(line[i + 1] == '\n');
            }
        }
        lemma_first_line(tail, rest);
        assert(s.skip(1) =~= tail.push('\n') + rest);
        assert(s[0] == line[0]);
        assert(line[0] != '\n');
    } else {
        assert(s[0] == '\n');
    }
}

proof fn lemma_lines_after(line: Seq<char>, rest: Seq<char>)
    requires
        !line.contains('\n'),
    ensures
        lines_of(line.push('\n') + rest) == seq![without_return(line)] + lines_of(rest),
{
    let s = line.push('\n') + rest;
    lemma_first_line(line, rest);
    assert(s.take(line.len() as int) =~= line);
    assert(s.skip((line.len() + 1) as int) =~= rest);
    let parts = split_at_char(s, '\n');
    let below = split_at_char(rest, '\n');
    assert(parts =~= seq![line] + below);
    crate::text::lemma_split_not_empty(rest, '\n');
    assert(parts.last() == below.last());
    assert(parts.drop_last() =~= seq![line] + below.drop_last());
    assert(lines_of(s) =~= seq![without_return(line)] + lines_of(rest));
}

proof fn lemma_trimmed_start_grows(s: Seq<char>, c: char)
    requires
        white_space(c),
    ensures
        trimmed_start(s.push(c)) == (if trimmed_start(s).len() == 0 {
            Seq::empty()
        } else {
            trimmed_start(s).push(c)
        }),
    decreases s.len(),
{
    let more = s.push(c);
    if s.len() == 0 {
        assert(more[0] == c);
        assert(more.skip(1) =~= Seq::<char>::empty());
        assert(trimmed_start(more) == trimmed_start(more.skip(1)));
        assert(trimmed_start(more.skip(1)) == more.skip(1));
    } else if white_space(s[0]) {
        lemma_trimmed_start_grows(s.skip(1), c);
        assert(more.skip(1) =~= s.skip(1).push(c));
    }
}

proof fn lemma_return_is_trimmed(line: Seq<char>)
    ensures
        trimmed(without_return(line)) == trimmed(line),
{
    if line.len() > 0 && line.last() == '\r' {
        let rest = line.drop_last();
        assert(white_space('\r'));
        lemma_trimmed_start_grows(rest, '\r');
        assert(rest.push('\r') =~= line);
        if trimmed_start(rest).len() > 0 {
            assert(trimmed_start(rest).push('\r').drop_last() =~= trimmed_start(rest));
        } else {
            assert(trimmed_start(rest) =~= Seq::<char>::empty());
        }
    }
}

proof fn lemma_trimmed_start_first(s: Seq<char>)
    ensures
        trimmed_start(s).len() > 0 ==> !white_space(trimmed_start(s)[0]),
    decreases s.len(),
{
    if s.len() > 0 && white_space(s[0]) {
        lemma_trimmed_start_first(s.skip(1));
    }
}

proof fn lemma_trimmed_end_keeps_first(s: Seq<char>)
    ensures
        trimmed_end(s).len() > 0 ==> trimmed_end(s)[0] == s[0],
    decreases s.len(),
{
    if s.len() > 0 && white_space(s.last()) {
        lemma_trimmed_end_keeps_first(s.drop_last());
    }
}

proof fn lemma_trimmed_twice(s: Seq<char>)
    ensures
        trimmed(trimmed(s)) == trimmed(s),
{
    lemma_trimmed_start_first(s);
    lemma_trimmed_end_last(trimmed_start(s));
    lemma_trimmed_end_keeps_first(trimmed_start(s));
    if trimmed(s).len() > 0 {
        assert(trimmed_start(s).len() > 0) by {
            lemma_trimmed_end_is_shorter(trimmed_start(s));
        }
        lemma_already_trimmed(trimmed(s));
    } else {
        assert(trimmed(s) =~= Seq::<char>::empty());
    }
}

proof fn lemma_trimmed_end_is_shorter(s: Seq<char>)
    ensures
        trimmed_end(s).len() <= s.len(),
    decreases s.len(),
{
    if s.len() > 0 && white_space(s.last()) {
        lemma_trimmed_end_is_shorter(s.drop_last());
    }
}

/// The lines without the carriage return each may end with.
spec fn without_returns(lines: Seq<Seq<char>>) -> Seq<Seq<char>> {
    lines.map_values(|line: Seq<char>| without_return(line))
}

proof fn lemma_returns_do_not_matter(lines: Seq<Seq<char>>)
    ensures
        read_lines(without_returns(lines)) == read_lines(lines),
    decreases lines.len(),
{
    if lines.len() > 0 {
        lemma_returns_do_not_matter(lines.drop_last());
        assert(without_returns(lines).drop_last() =~= without_returns(lines.drop_last()));
        lemma_return_is_trimmed(lines.last());
    }
}

proof fn lemma_unlined_front(lines: Seq<Seq<char>>)
    requires
        lines.len() > 0,
    ensures
        unlined(lines) == lines[0].push('\n') + unlined(lines.skip(1)),
    decreases lines.len(),
{
    let rest = lines.drop_last();
    if rest.len() == 0 {
        assert(lines.skip(1) =~= Seq::<Seq<char>>::empty());
        assert(rest =~= Seq::<Seq<char>>::empty());
        assert(unlined(lines) =~= lines[0].push('\n') + unlined(lines.skip(1)));
    } else {
        lemma_unlined_front(rest);
        assert(rest.skip(1) =~= lines.skip(1).drop_last());
        assert(lines.skip(1).last() == lines.last());
        assert(rest[0] == lines[0]);
        assert(unlined(lines) =~= lines[0].push('\n') + unlined(lines.skip(1)));
    }
}

proof fn lemma_lines_come_back(lines: Seq<Seq<char>>)
    requires
        forall|i: int| 0 <= i < lines.len() ==> !(#[trigger] lines[i]).contains('\n'),
    ensures
        lines_of(unlined(lines)) == without_returns(lines),
    decreases lines.len(),
{
    if lines.len() == 0 {
        let none: Seq<char> = Seq::empty();
        assert(split_at_char(none, '\n') =~= seq![none]);
        assert(lines_of(none) =~= without_returns(lines));
    } else {
        let rest = lines.skip(1);
        assert forall|i: int| 0 <= i < rest.len() implies !(#[trigger] rest[i]).contains('\n') by {
            assert(!lines[i + 1].contains('\n'));
        }
        lemma_lines_come_back(rest);
        lemma_unlined_front(lines);
        assert(!lines[0].contains('\n'));
        lemma_lines_after(lines[0], unlined(rest));
        assert(seq![without_return(lines[0])] + without_returns(rest) =~= without_returns(lines));
    }
}

proof fn lemma_grows_at_end(s: Seq<Seq<char>>, x: Seq<char>)
    requires
        forall|i: int| 0 <= i < s.len() ==> text_before(#[trigger] s[i], x),
    ensures
        with_text(s, x) == s.push(x),
    decreases s.len(),
{
    if s.len() == 0 {
        assert(with_text(s, x) =~= s.push(x));
    } else {
        assert(text_before(s[0], x));
        lemma_text_order(s[0], x);
        let rest = s.skip(1);
        assert forall|i: int| 0 <= i < rest.len() implies text_before(#[trigger] rest[i], x) by {
            assert(text_before(s[i + 1], x));
        }
        lemma_grows_at_end(rest, x);
        assert(seq![s[0]] + rest.push(x) =~= s.push(x));
    }
}

proof fn lemma_reads_addresses(before: Seq<Seq<char>>, added: Seq<Seq<char>>)
    requires
        forall|i: int| 0 <= i < added.len() ==> writable(#[trigger] added[i]),
        read_lines(before).section == Some(false),
    ensures
        read_lines(before + added).list == with_addresses(read_lines(before).list, added),
        read_lines(before + added).section == Some(false),
    decreases added.len(),
{
    let lines = before + added;
    if added.len() == 0 {
        assert(lines =~= before);
    } else {
        let rest = added.drop_last();
        assert forall|i: int| 0 <= i < rest.len() implies writable(#[trigger] rest[i]) by {
            assert(rest[i] == added[i]);
        }
        lemma_reads_addresses(before, rest);
        assert(lines.drop_last() =~= before + rest);
        assert(lines.last() == added.last());
        assert(writable(added[added.len() - 1]));
        lemma_trimmed_twice(added.last());
    }
}

proof fn lemma_reads_domains(before: Seq<Seq<char>>, added: Seq<Seq<char>>)
    requires
        forall|i: int| 0 <= i < added.len() ==> writable(#[trigger] added[i]),
        read_lines(before).section == Some(true),
    ensures
        read_lines(before + added).list == with_domains(read_lines(before).list, added),
        read_lines(before + added).section == Some(true),
    decreases added.len(),
{
    let lines = before + added;
    if added.len() == 0 {
        assert(lines =~= before);
    } else {
        let rest = added.drop_last();
        assert forall|i: int| 0 <= i < rest.len() implies writable(#[trigger] rest[i]) by {
            assert(rest[i] == added[i]);
        }
        lemma_reads_domains(before, rest);
        assert(lines.drop_last() =~= before + rest);
        assert(lines.last() == added.last());
        assert(writable(added[added.len() - 1]));
        lemma_trimmed_twice(added.last());
    }
}

proof fn lemma_addresses_granted_again(list: Allowed, held: Allowed, n: int)
    requires
        can_be_written(list),
        is_normal(list),
        0 <= n <= list.addresses.len(),
        held.addresses.len() == 0,
    ensures
        with_addresses(held, list.addresses.take(n)) == (Allowed {
            addresses: list.addresses.take(n),
            ..held
        }),
    decreases n,
{
    let added = list.addresses.take(n);
    if n == 0 {
        assert(held.addresses =~= added);
    } else {
        lemma_addresses_granted_again(list, held, n - 1);
        let x = list.addresses[n - 1];
        let before = list.addresses.take(n - 1);
        assert(added.drop_last() =~= before);
        assert(added.last() == x);
        assert(writable(list.addresses[n - 1]));
        assert(normal(list.addresses[n - 1]) == x);
        lemma_trimmed_not_longer(x);
        assert forall|i: int| 0 <= i < before.len() implies text_before(#[trigger] before[i], x) by {
            assert(text_before(list.addresses[i], list.addresses[n - 1]));
        }
        lemma_grows_at_end(before, x);
        assert(before.push(x) =~= added);
    }
}

proof fn lemma_domains_granted_again(list: Allowed, held: Allowed, n: int)
    requires
        can_be_written(list),
        is_normal(list),
        0 <= n <= list.domains.len(),
        held.domains.len() == 0,
    ensures
        with_domains(held, list.domains.take(n)) == (Allowed {
            domains: list.domains.take(n),
            ..held
        }),
    decreases n,
{
    let added = list.domains.take(n);
    if n == 0 {
        assert(held.domains =~= added);
    } else {
        lemma_domains_granted_again(list, held, n - 1);
        let x = list.domains[n - 1];
        let before = list.domains.take(n - 1);
        assert(added.drop_last() =~= before);
        assert(added.last() == x);
        assert(writable(list.domains[n - 1]));
        assert(normal(list.domains[n - 1]) == x);
        lemma_trimmed_not_longer(x);
        assert forall|i: int| 0 <= i < before.len() implies text_before(#[trigger] before[i], x) by {
            assert(text_before(list.domains[i], list.domains[n - 1]));
        }
        lemma_grows_at_end(before, x);
        assert(before.push(x) =~= added);
    }
}

proof fn lemma_trimmed_not_longer(s: Seq<char>)
    ensures
        trimmed(s).len() <= s.len(),
{
    lemma_trimmed_start_is_shorter(s);
    lemma_trimmed_end_is_shorter(trimmed_start(s));
}

proof fn lemma_trimmed_start_is_shorter(s: Seq<char>)
    ensures
        trimmed_start(s).len() <= s.len(),
    decreases s.len(),
{
    if s.len() > 0 && white_space(s[0]) {
        lemma_trimmed_start_is_shorter(s.skip(1));
    }
}

proof fn lemma_fixed_lines()
    ensures
        !TITLE_LINE@.contains('\n'),
        !NOTE_LINE@.contains('\n'),
        !ADDRESSES_LINE@.contains('\n'),
        !DOMAINS_LINE@.contains('\n'),
        read_lines(opening_lines()).list == nobody(),
        read_lines(opening_lines()).section == Some(false),
        trimmed(DOMAINS_LINE@) == DOMAINS_LINE@,
        DOMAINS_LINE@.len() > 0,
        DOMAINS_LINE@[0] != '#',
        DOMAINS_LINE@ != ADDRESSES_LINE@,
{
    reveal_strlit("# Senders whose remote images Postio loads without asking.");
    reveal_strlit("# Written by Postio; every line here was a deliberate choice.");
    reveal_strlit("[addresses]");
    reveal_strlit("[domains]");
    let title = TITLE_LINE@;
    let note = NOTE_LINE@;
    let addresses = ADDRESSES_LINE@;
    let domains = DOMAINS_LINE@;
    assert(!title.contains('\n'));
    assert(!note.contains('\n'));
    assert(!addresses.contains('\n'));
    assert(!domains.contains('\n'));
    lemma_already_trimmed(title);
    lemma_already_trimmed(note);
    lemma_already_trimmed(addresses);
    lemma_already_trimmed(domains);
    assert(addresses[1] == 'a');
    assert(domains[1] == 'd');
    let blank: Seq<char> = Seq::empty();
    assert(trimmed(blank) =~= blank);
    let lines = opening_lines();
    assert(lines.take(0) =~= Seq::<Seq<char>>::empty());
    assert(lines.take(1).drop_last() =~= lines.take(0));
    assert(lines.take(2).drop_last() =~= lines.take(1));
    assert(lines.take(3).drop_last() =~= lines.take(2));
    assert(lines.drop_last() =~= lines.take(3));
    assert(lines.take(1).last() == title);
    assert(lines.take(2).last() == note);
    assert(lines.take(3).last() == blank);
    assert(title[0] == '#' && note[0] == '#');
    assert(read_lines(lines.take(0)).list == nobody());
    assert(read_lines(lines.take(1)).list == nobody());
    assert(read_lines(lines.take(2)).list == nobody());
    assert(read_lines(lines.take(3)).list == nobody());
}

/// Reading the file written for a list makes every grant in it anew: no grant
/// is lost, and none is added.
pub proof fn lemma_written_list_is_granted_again(list: Allowed)
    requires
        can_be_written(list),
    ensures
        parsed(unlined(file_lines(list))) == granted_again(list),
{
    let lines = file_lines(list);
    let blank: Seq<char> = Seq::empty();
    lemma_fixed_lines();
    let first = opening_lines() + list.addresses;
    let second = first + middle_lines();
    assert forall|i: int| 0 <= i < lines.len() implies !(#[trigger] lines[i]).contains('\n') by {
        let a = opening_lines().len() as int;
        let b = a + list.addresses.len();
        let c = b + middle_lines().len();
        if i < a {
        } else if i < b {
            assert(lines[i] == list.addresses[i - a]);
        } else if i < c {
            assert(lines[i] == middle_lines()[i - b]);
        } else {
            assert(lines[i] == list.domains[i - c]);
        }
    }
    lemma_lines_come_back(lines);
    lemma_returns_do_not_matter(lines);
    lemma_reads_addresses(opening_lines(), list.addresses);
    assert(trimmed(blank) =~= blank);
    assert(first.push(blank).drop_last() =~= first);
    assert(second.drop_last() =~= first.push(blank));
    assert(second.last() == DOMAINS_LINE@);
    assert(read_lines(first.push(blank)) == read_lines(first));
    lemma_reads_domains(second, list.domains);
    assert(lines =~= second + list.domains);
}

/// A grant survives being written and read back: reading the file written for
/// a list gives that list, when everything in it stands as a grant leaves it.
pub proof fn lemma_written_list_reads_back(list: Allowed)
    requires
        can_be_written(list),
        is_normal(list),
    ensures
        parsed(unlined(file_lines(list))) == list,
{
    lemma_written_list_is_granted_again(list);
    lemma_addresses_granted_again(list, nobody(), list.addresses.len() as int);
    assert(list.addresses.take(list.addresses.len() as int) =~= list.addresses);
    let held = with_addresses(nobody(), list.addresses);
    lemma_domains_granted_again(list, held, list.domains.len() as int);
    assert(list.domains.take(list.domains.len() as int) =~= list.domains);
}

// ---------------------------------------------------------------------------
// Lists of ASCII texts
// ---------------------------------------------------------------------------

/// One change to a list.
pub enum Change {
    /// An address is allowed.
    Allow(Seq<char>),
    /// A domain is allowed.
    AllowDomain(Seq<char>),
    /// A grant is taken back.
    Revoke(Seq<char>),
}

impl Change {
    /// What was written down.
    pub open spec fn text(self) -> Seq<char> {
        match self {
            Change::Allow(text) => text,
            Change::AllowDomain(text) => text,
            Change::Revoke(text) => text,
        }
    }
}

/// The list after `change`.
pub open spec fn changed(list: Allowed, change: Change) -> Allowed {
    match change {
        Change::Allow(text) => list.with_address(text),
        Change::AllowDomain(text) => list.with_domain(text),
        Change::Revoke(text) => list.revoked(text),
    }
}

/// The list that `changes` make, one after another, of an empty one.
pub open spec fn built(changes: Seq<Change>) -> Allowed
    decreases changes.len(),
{
    if changes.len() == 0 {
        nobody()
    } else {
        changed(built(changes.drop_last()), changes.last())
    }
}

/// A text the file takes for something other than a grant: more than one line,
/// a comment, or a heading.
pub open spec fn misread(text: Seq<char>) -> bool {
    text.contains('\n') || text[0] == '#' || text == ADDRESSES_LINE@ || text == DOMAINS_LINE@
}

/// An ASCII text in its normal form.
spec fn is_plain(text: Seq<char>) -> bool {
    &&& text.len() > 0
    &&& all_ascii(text)
    &&& trimmed(text) == text
    &&& lowercase(text) == text
}

/// The list is in order, and everything in it is an ASCII text in its normal
/// form.
spec fn all_plain(list: Allowed) -> bool {
    &&& in_order(list.addresses)
    &&& in_order(list.domains)
    &&& forall|text: Seq<char>| #[trigger] list.addresses.contains(text) ==> is_plain(text)
    &&& forall|text: Seq<char>| #[trigger]
        list.domains.contains(text) ==> is_plain(text) && domain_meant(text) == text
}

proof fn lemma_trimmed_start_is_part(s: Seq<char>)
    ensures
        forall|i: int| 0 <= i < trimmed_start(s).len() ==> s.contains(#[trigger] trimmed_start(s)[i]),
    decreases s.len(),
{
    if s.len() > 0 && white_space(s[0]) {
        let rest = s.skip(1);
        lemma_trimmed_start_is_part(rest);
        assert forall|i: int| 0 <= i < trimmed_start(s).len() implies s.contains(
            #[trigger] trimmed_start(s)[i],
        ) by {
            let c = trimmed_start(rest)[i];
            let k = choose|k: int| 0 <= k < rest.len() && rest[k] == c;
            assert(s[k + 1] == c);
        }
    }
}

proof fn lemma_trimmed_end_is_part(s: Seq<char>)
    ensures
        forall|i: int| 0 <= i < trimmed_end(s).len() ==> s.contains(#[trigger] trimmed_end(s)[i]),
    decreases s.len(),
{
    if s.len() > 0 && white_space(s.last()) {
        let rest = s.drop_last();
        lemma_trimmed_end_is_part(rest);
        assert forall|i: int| 0 <= i < trimmed_end(s).len() implies s.contains(
            #[trigger] trimmed_end(s)[i],
        ) by {
            let c = trimmed_end(rest)[i];
            let k = choose|k: int| 0 <= k < rest.len() && rest[k] == c;
            assert(s[k] == c);
        }
    }
}

/// Trimming brings in no character.
proof fn lemma_trimmed_is_part(s: Seq<char>)
    ensures
        forall|i: int| 0 <= i < trimmed(s).len() ==> s.contains(#[trigger] trimmed(s)[i]),
{
    let start = trimmed_start(s);
    lemma_trimmed_start_is_part(s);
    lemma_trimmed_end_is_part(start);
    assert forall|i: int| 0 <= i < trimmed(s).len() implies s.contains(#[trigger] trimmed(s)[i]) by {
        assert(start.contains(trimmed_end(start)[i]));
        let k = choose|k: int| 0 <= k < start.len() && start[k] == trimmed(s)[i];
        assert(s.contains(start[k]));
    }
}

/// The normal form of an ASCII text is its own normal form.
proof fn lemma_normal_is_plain(text: Seq<char>)
    requires
        all_ascii(text),
    ensures
        normal(text).len() > 0 ==> is_plain(normal(text)),
        all_ascii(normal(text)),
        forall|i: int|
            0 <= i < normal(text).len() ==> exists|c: char|
                text.contains(c) && #[trigger] normal(text)[i] == ascii_lower_char(c),
{
    let bare = trimmed(text);
    lemma_trimmed_is_part(text);
    assert forall|i: int| 0 <= i < bare.len() implies #[trigger] bare[i] <= '\u{7f}' by {
        assert(text.contains(bare[i]));
    }
    lemma_lowered_twice(bare);
    assert forall|i: int| 0 <= i < normal(text).len() implies exists|c: char|
        text.contains(c) && #[trigger] normal(text)[i] == ascii_lower_char(c) by {
        assert(text.contains(bare[i]));
        assert(normal(text)[i] == ascii_lower_char(bare[i]));
    }
    if bare.len() > 0 {
        lemma_trimmed_start_first(text);
        lemma_trimmed_end_last(trimmed_start(text));
        lemma_trimmed_end_keeps_first(trimmed_start(text));
        lemma_trimmed_end_is_shorter(trimmed_start(text));
        let lower = lowercase(bare);
        assert(lower[0] == ascii_lower_char(bare[0]));
        assert(lower.last() == ascii_lower_char(bare.last()));
        lemma_already_trimmed(lower);
    }
}

proof fn lemma_last_at(s: Seq<char>, c: char)
    ensures
        match last_index(s, c) {
            Some(at) => 0 <= at < s.len() && s[at] == c && !s.skip(at + 1).contains(c),
            None => !s.contains(c),
        },
    decreases s.len(),
{
    if s.len() > 0 && s.last() != c {
        let rest = s.drop_last();
        lemma_last_at(rest, c);
        match last_index(s, c) {
            Some(at) => {
                let after = s.skip(at + 1);
                if after.contains(c) {
                    let k = choose|k: int| 0 <= k < after.len() && after[k] == c;
                    assert(rest.skip(at + 1)[k] == c);
                }
            },
            None => {
                if s.contains(c) {
                    let k = choose|k: int| 0 <= k < s.len() && s[k] == c;
                    assert(rest[k] == c);
                }
            },
        }
    } else if s.len() > 0 {
        assert(s.skip(s.len() as int).len() == 0);
    }
}

/// The domain an ASCII text means is plain, and means itself.
proof fn lemma_domain_is_plain(text: Seq<char>)
    requires
        all_ascii(text),
    ensures
        ({
            let domain = domain_meant(normal(text));
            domain.len() > 0 ==> is_plain(domain) && domain_meant(domain) == domain
        }),
{
    let whole = normal(text);
    let domain = domain_meant(whole);
    lemma_normal_is_plain(text);
    lemma_last_at(whole, '@');
    match domain_part(whole) {
        Some(found) => {
            let at = last_index(whole, '@')->0;
            let rest = whole.skip(at + 1);
            assert forall|i: int| 0 <= i < rest.len() implies #[trigger] rest[i] <= '\u{7f}' by {
                assert(whole[i + at + 1] <= '\u{7f}');
            }
            lemma_normal_is_plain(rest);
            assert(!domain.contains('@')) by {
                if domain.contains('@') {
                    let i = choose|i: int| 0 <= i < domain.len() && domain[i] == '@';
                    let c = choose|c: char| rest.contains(c) && domain[i] == ascii_lower_char(c);
                    assert(c == '@');
                }
            }
            lemma_last_at(domain, '@');
            if last_index(domain, '@') is Some {
                assert(domain.contains('@'));
            }
        },
        None => {},
    }
}

proof fn lemma_built_is_plain(changes: Seq<Change>)
    requires
        forall|i: int| 0 <= i < changes.len() ==> all_ascii((#[trigger] changes[i]).text()),
    ensures
        all_plain(built(changes)),
    decreases changes.len(),
{
    if changes.len() > 0 {
        let rest = changes.drop_last();
        let list = built(rest);
        let now = built(changes);
        assert forall|i: int| 0 <= i < rest.len() implies all_ascii((#[trigger] rest[i]).text()) by {
            assert(rest[i] == changes[i]);
        }
        lemma_built_is_plain(rest);
        let change = changes[changes.len() - 1];
        assert(change == changes.last());
        let text = change.text();
        lemma_lists_stay_in_order(list, text);
        lemma_normal_is_plain(text);
        lemma_domain_is_plain(text);
        assert forall|held: Seq<char>| #[trigger] now.addresses.contains(held) implies is_plain(
            held,
        ) by {
            lemma_members(list.addresses, normal(text), held);
            lemma_left(list.addresses, normal(text), held);
        }
        assert forall|held: Seq<char>| #[trigger] now.domains.contains(held) implies is_plain(held)
            && domain_meant(held) == held by {
            lemma_members(list.domains, domain_meant(normal(text)), held);
            lemma_left(list.domains, normal(text), held);
        }
    }
}

/// A grant survives being written and read back: whatever ASCII addresses and
/// domains were allowed and taken back, in whatever case and with whatever
/// white space around them, reading the file written for the list gives that
/// list, as long as nothing in it reads as something other than a grant.
pub proof fn lemma_built_list_reads_back(changes: Seq<Change>)
    requires
        forall|i: int| 0 <= i < changes.len() ==> all_ascii((#[trigger] changes[i]).text()),
        forall|text: Seq<char>| #[trigger]
            built(changes).addresses.contains(text) ==> !misread(text),
        forall|text: Seq<char>| #[trigger] built(changes).domains.contains(text) ==> !misread(text),
    ensures
        parsed(unlined(file_lines(built(changes)))) == built(changes),
{
    let list = built(changes);
    lemma_built_is_plain(changes);
    assert forall|i: int| 0 <= i < list.addresses.len() implies writable(
        #[trigger] list.addresses[i],
    ) && normal(list.addresses[i]) == list.addresses[i] by {
        assert(list.addresses.contains(list.addresses[i]));
    }
    assert forall|i: int| 0 <= i < list.domains.len() implies writable(#[trigger] list.domains[i])
        && normal(list.domains[i]) == list.domains[i] && domain_meant(list.domains[i])
        == list.domains[i] by {
        assert(list.domains.contains(list.domains[i]));
    }
    lemma_written_list_reads_back(list);
}

// ---------------------------------------------------------------------------
// What a list allows
// ---------------------------------------------------------------------------

/// Neither case nor white space around an address makes a difference to
/// whether it is allowed, to allowing it, or to taking that back.
pub proof fn lemma_case_and_space_do_not_matter(list: Allowed, a: Seq<char>, b: Seq<char>)
    requires
        all_ascii(a) && all_ascii(b),
        ascii_lower(trimmed(a)) == ascii_lower(trimmed(b)),
    ensures
        list.allows(a) == list.allows(b),
        list.with_address(a) == list.with_address(b),
        list.with_domain(a) == list.with_domain(b),
        list.revoked(a) == list.revoked(b),
{
    lemma_trimmed_is_part(a);
    lemma_trimmed_is_part(b);
    lemma_trimmed_stays_ascii(a);
    lemma_trimmed_stays_ascii(b);
}

proof fn lemma_trimmed_stays_ascii(s: Seq<char>)
    requires
        all_ascii(s),
    ensures
        all_ascii(trimmed(s)),
{
    lemma_trimmed(s);
    let (from, to) = choose|from: int, to: int|
        {
            &&& 0 <= from <= to <= s.len()
            &&& trimmed(s) == #[trigger] s.subrange(from, to)
            &&& forall|i: int| 0 <= i < from ==> white_space(#[trigger] s[i])
            &&& forall|i: int| to <= i < s.len() ==> white_space(#[trigger] s[i])
        };
    assert forall|i: int| 0 <= i < trimmed(s).len() implies #[trigger] trimmed(s)[i]
        <= '\u{7f}' by {
        assert(s[from + i] <= '\u{7f}');
    }
}

/// A text that stands as it is kept: ASCII, in lower case, nothing around it.
pub open spec fn as_kept(text: Seq<char>) -> bool {
    &&& text.len() > 0
    &&& all_ascii(text)
    &&& ascii_lower(text) == text
    &&& !white_space(text[0]) && !white_space(text.last())
}

proof fn lemma_as_kept(text: Seq<char>)
    requires
        as_kept(text),
    ensures
        normal(text) == text,
{
    let none: Seq<char> = Seq::empty();
    lemma_padding_comes_off(none, text, none);
    assert(none + text + none =~= text);
}

proof fn lemma_part_as_kept(local: Seq<char>, domain: Seq<char>)
    requires
        as_kept(local + seq!['@'] + domain),
        domain.len() > 0 && !white_space(domain[0]),
        !domain.contains('@'),
    ensures
        as_kept(domain),
        domain_part(local + seq!['@'] + domain) == Some(domain),
{
    let address = local + seq!['@'] + domain;
    let at = local.len() as int;
    assert forall|i: int| 0 <= i < domain.len() implies #[trigger] domain[i] <= '\u{7f}'
        && ascii_lower_char(domain[i]) == domain[i] by {
        assert(address[at + 1 + i] == domain[i]);
        assert(address[at + 1 + i] <= '\u{7f}');
        assert(ascii_lower(address)[at + 1 + i] == ascii_lower_char(address[at + 1 + i]));
    }
    assert(ascii_lower(domain) =~= domain);
    assert(domain.last() == address.last());
    lemma_first_and_last(address, '@');
    assert(address[at] == '@');
    assert forall|i: int| at < i < address.len() implies #[trigger] address[i] != '@' by {
        assert(domain[i - at - 1] == address[i]);
    }
    assert(last_index(address, '@') == Some(at));
    assert(address.skip(at + 1) =~= domain);
    lemma_as_kept(domain);
}

/// A domain that is allowed allows whoever is at it, named by itself or by an
/// address at it; an address that is allowed allows itself; and of an empty
/// list neither allows anybody at another domain.
pub proof fn lemma_who_a_grant_allows(
    list: Allowed,
    local: Seq<char>,
    domain: Seq<char>,
    other: Seq<char>,
)
    requires
        as_kept(local + seq!['@'] + domain),
        as_kept(local + seq!['@'] + other),
        domain.len() > 0 && !white_space(domain[0]) && !domain.contains('@'),
        other.len() > 0 && !white_space(other[0]) && !other.contains('@'),
        other != domain,
    ensures
        list.with_domain(domain).allows(local + seq!['@'] + domain),
        list.with_domain(local + seq!['@'] + domain) == list.with_domain(domain),
        list.with_address(local + seq!['@'] + domain).allows(local + seq!['@'] + domain),
        !nobody().allows(local + seq!['@'] + domain),
        !nobody().with_domain(domain).allows(local + seq!['@'] + other),
        !nobody().with_address(local + seq!['@'] + domain).allows(local + seq!['@'] + other),
{
    let address = local + seq!['@'] + domain;
    let elsewhere = local + seq!['@'] + other;
    lemma_part_as_kept(local, domain);
    lemma_part_as_kept(local, other);
    lemma_as_kept(address);
    lemma_as_kept(elsewhere);
    lemma_as_kept(domain);
    lemma_first_and_last(domain, '@');
    assert(domain_part(domain) is None);
    lemma_domain_grant(list, domain, address);
    lemma_address_grant(list, address, address);
    lemma_domain_grant(nobody(), domain, elsewhere);
    lemma_address_grant(nobody(), address, elsewhere);
    assert(address != elsewhere) by {
        if address == elsewhere {
            assert(address.skip(local.len() as int + 1) =~= domain);
            assert(elsewhere.skip(local.len() as int + 1) =~= other);
        }
    }
}

/// Taking a grant back leaves every other one.
pub proof fn lemma_revoke_leaves_the_rest(list: Allowed, address: Seq<char>, other: Seq<char>)
    requires
        other != normal(address),
    ensures
        list.revoked(address).addresses.contains(other) <==> list.addresses.contains(other),
        list.revoked(address).domains.contains(other) <==> list.domains.contains(other),
{
    lemma_left(list.addresses, normal(address), other);
    lemma_left(list.domains, normal(address), other);
}

/// Texts go by their first difference: a smaller character comes first, and so
/// does the text that ends there.
pub proof fn lemma_first_difference_decides(a: Seq<char>, b: Seq<char>, k: int)
    requires
        0 <= k <= a.len(),
        k <= b.len(),
        a.take(k) == b.take(k),
    ensures
        k < a.len() && k < b.len() && a[k] < b[k] ==> text_before(a, b) && !text_before(b, a),
        k == a.len() && k < b.len() ==> text_before(a, b) && !text_before(b, a),
        k == a.len() && k == b.len() ==> !text_before(a, b),
    decreases k,
{
    if k > 0 {
        assert(a.take(k)[0] == a[0] && b.take(k)[0] == b[0]);
        assert(a.skip(1).take(k - 1) =~= a.take(k).skip(1));
        assert(b.skip(1).take(k - 1) =~= b.take(k).skip(1));
        lemma_first_difference_decides(a.skip(1), b.skip(1), k - 1);
    }
}

/// A line that is blank or a comment makes no difference wherever it stands.
pub proof fn lemma_comments_make_no_difference(
    before: Seq<Seq<char>>,
    line: Seq<char>,
    after: Seq<Seq<char>>,
)
    requires
        trimmed(line).len() == 0 || trimmed(line)[0] == '#',
    ensures
        read_lines(before + seq![line] + after) == read_lines(before + after),
    decreases after.len(),
{
    let with = before + seq![line] + after;
    if after.len() == 0 {
        assert(with.drop_last() =~= before);
        assert(with.last() == line);
        assert(before + after =~= before);
    } else {
        let fewer = after.drop_last();
        lemma_comments_make_no_difference(before, line, fewer);
        assert(with.drop_last() =~= before + seq![line] + fewer);
        assert((before + after).drop_last() =~= before + fewer);
        assert(with.last() == after.last() && (before + after).last() == after.last());
    }
}

/// A line under a heading is a grant of that kind, and under neither is
/// nothing; a heading grants nothing itself.
pub proof fn lemma_what_a_line_grants(lines: Seq<Seq<char>>, line: Seq<char>)
    requires
        trimmed(line).len() > 0 && trimmed(line)[0] != '#',
        trimmed(line) != "[addresses]"@ && trimmed(line) != "[domains]"@,
    ensures
        read_lines(lines.push("[addresses]"@).push(line)).list == read_lines(
            lines,
        ).list.with_address(trimmed(line)),
        read_lines(lines.push("[domains]"@).push(line)).list == read_lines(lines).list.with_domain(
            trimmed(line),
        ),
        read_lines(seq![line]).list == nobody(),
{
    reveal_strlit("[addresses]");
    reveal_strlit("[domains]");
    let none: Seq<char> = Seq::empty();
    let first = lines.push("[addresses]"@);
    let second = lines.push("[domains]"@);
    assert(!white_space('[') && !white_space(']'));
    lemma_padding_comes_off(none, "[addresses]"@, none);
    lemma_padding_comes_off(none, "[domains]"@, none);
    assert(none + "[addresses]"@ + none =~= "[addresses]"@);
    assert(none + "[domains]"@ + none =~= "[domains]"@);
    assert("[addresses]"@.len() == 11 && "[domains]"@.len() == 9);
    assert("[addresses]"@[0] == '[' && "[domains]"@[0] == '[');
    assert(first.drop_last() =~= lines);
    assert(second.drop_last() =~= lines);
    assert(first.push(line).drop_last() =~= first);
    assert(second.push(line).drop_last() =~= second);
    assert(read_lines(first).section == Some(false));
    assert(read_lines(second).section == Some(true));
    assert(seq![line].drop_last() =~= Seq::<Seq<char>>::empty());
    assert(read_lines(seq![line].drop_last()).section is None);
}

/// An address that is blank is nobody's, and is allowed by no list, whatever
/// is on it.
pub proof fn lemma_blank_is_never_allowed(list: Allowed, address: Seq<char>)
    requires
        forall|i: int| 0 <= i < address.len() ==> white_space(#[trigger] address[i]),
    ensures
        !list.allows(address),
        list.with_address(address) == list,
{
    lemma_trimmed(address);
    let (from, to) = choose|from: int, to: int|
        0 <= from <= to <= address.len() && trimmed(address) == #[trigger] address.subrange(from, to);
    if trimmed(address).len() > 0 {
        assert(trimmed(address)[0] == address[from]);
    }
    assert(trimmed(address) =~= Seq::<char>::empty());
    assert(all_ascii(trimmed(address)));
}

} // verus!
