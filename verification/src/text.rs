//! Text, as sequences of characters.
//!
//! What the screens say is built from these few operations on characters.
//! Each has a spec function that says what it makes of a sequence, and an
//! executable function that is proved to make it.
use vstd::prelude::*;

verus! {

/// `String::push` appends one character to the end of the string.
pub assume_specification[ String::push ](s: &mut String, c: char)
    ensures
        final(s)@ == old(s)@.push(c),
;

/// The characters of `s`, in order.
pub fn chars_of(s: &str) -> (out: Vec<char>)
    ensures
        out@ == s@,
{
    let mut out: Vec<char> = Vec::new();
    for c in it: s.chars()
        invariant
            out@ == it.seq().take(it.index() as int),
            it.seq() == s@,
    {
        out.push(c);
    }
    out
}

/// The characters from `from` up to but not including `to`, as a string.
pub fn text_of(chars: &Vec<char>, from: usize, to: usize) -> (out: String)
    requires
        from <= to <= chars@.len(),
    ensures
        out@ == chars@.subrange(from as int, to as int),
{
    let mut out = String::new();
    let mut i: usize = from;
    while i < to
        invariant
            from <= i <= to <= chars@.len(),
            out@ == chars@.subrange(from as int, i as int),
        decreases to - i,
    {
        out.push(chars[i]);
        i += 1;
    }
    out
}

/// The string of these characters.
pub fn string_of(chars: &Vec<char>) -> (out: String)
    ensures
        out@ == chars@,
{
    let out = text_of(chars, 0, chars.len());
    assert(out@ =~= chars@);
    out
}

/// The views of a sequence of strings.
pub open spec fn texts(parts: Seq<String>) -> Seq<Seq<char>> {
    parts.map_values(|part: String| part@)
}

/// The view of a string that may not be there.
pub open spec fn text_opt(text: Option<String>) -> Option<Seq<char>> {
    match text {
        Some(text) => Some(text@),
        None => None,
    }
}

/// The view of a text that may not be there.
pub open spec fn str_opt(text: Option<&str>) -> Option<Seq<char>> {
    match text {
        Some(text) => Some(text@),
        None => None,
    }
}

/// A copy of a string that may not be there.
pub fn copy_opt(text: &Option<String>) -> (out: Option<String>)
    ensures
        text_opt(out) == text_opt(*text),
{
    match text {
        Some(text) => Some(text.clone()),
        None => None,
    }
}

/// Whether both texts are the same.
pub fn same_text(a: &str, b: &str) -> (out: bool)
    ensures
        out == (a@ == b@),
{
    same_chars(&chars_of(a), &chars_of(b))
}

/// Whether both are the same characters.
pub fn same_chars(a: &Vec<char>, b: &Vec<char>) -> (out: bool)
    ensures
        out == (a@ == b@),
{
    if a.len() != b.len() {
        return false;
    }
    let mut i: usize = 0;
    while i < a.len()
        invariant
            a@.len() == b@.len(),
            i <= a@.len(),
            a@.take(i as int) == b@.take(i as int),
        decreases a@.len() - i,
    {
        if a[i] != b[i] {
            assert(a@[i as int] != b@[i as int]);
            return false;
        }
        assert(a@.take(i + 1) =~= b@.take(i + 1)) by {
            assert(a@.take(i + 1) =~= a@.take(i as int).push(a@[i as int]));
            assert(b@.take(i + 1) =~= b@.take(i as int).push(b@[i as int]));
        }
        i += 1;
    }
    assert(a@.take(a@.len() as int) =~= a@);
    assert(b@.take(b@.len() as int) =~= b@);
    true
}

// ---------------------------------------------------------------------------
// Characters
// ---------------------------------------------------------------------------

/// The characters Unicode calls white space.
pub open spec fn white_space(c: char) -> bool {
    ||| '\u{9}' <= c && c <= '\u{d}'
    ||| c == ' '
    ||| c == '\u{85}'
    ||| c == '\u{a0}'
    ||| c == '\u{1680}'
    ||| '\u{2000}' <= c && c <= '\u{200a}'
    ||| c == '\u{2028}'
    ||| c == '\u{2029}'
    ||| c == '\u{202f}'
    ||| c == '\u{205f}'
    ||| c == '\u{3000}'
}

/// Whether `c` is white space.
pub fn is_white_space(c: char) -> (out: bool)
    ensures
        out == white_space(c),
{
    ('\u{9}' <= c && c <= '\u{d}') || c == ' ' || c == '\u{85}' || c == '\u{a0}' || c == '\u{1680}'
        || ('\u{2000}' <= c && c <= '\u{200a}') || c == '\u{2028}' || c == '\u{2029}' || c
        == '\u{202f}' || c == '\u{205f}' || c == '\u{3000}'
}

/// The characters Unicode calls controls.
pub open spec fn control(c: char) -> bool {
    c <= '\u{1f}' || ('\u{7f}' <= c && c <= '\u{9f}')
}

/// Whether `c` is a control.
pub fn is_control(c: char) -> (out: bool)
    ensures
        out == control(c),
{
    c <= '\u{1f}' || ('\u{7f}' <= c && c <= '\u{9f}')
}

/// `c` with an ASCII capital lowered.
pub open spec fn ascii_lower_char(c: char) -> char {
    if 'A' <= c && c <= 'Z' {
        (c as u8 + 32) as char
    } else {
        c
    }
}

/// `c` with an ASCII capital lowered.
pub fn to_ascii_lower_char(c: char) -> (out: char)
    ensures
        out == ascii_lower_char(c),
{
    if 'A' <= c && c <= 'Z' {
        (c as u8 + 32) as char
    } else {
        c
    }
}

/// `s` with its ASCII capitals lowered.
pub open spec fn ascii_lower(s: Seq<char>) -> Seq<char> {
    s.map_values(|c: char| ascii_lower_char(c))
}

/// `s` with its ASCII capitals lowered.
pub fn to_ascii_lower(s: &str) -> (out: String)
    ensures
        out@ == ascii_lower(s@),
{
    let chars = chars_of(s);
    let mut out = String::new();
    let mut i: usize = 0;
    while i < chars.len()
        invariant
            i <= chars@.len(),
            out@ == ascii_lower(chars@.take(i as int)),
        decreases chars@.len() - i,
    {
        out.push(to_ascii_lower_char(chars[i]));
        i += 1;
        assert(out@ =~= ascii_lower(chars@.take(i as int)));
    }
    assert(chars@.take(chars@.len() as int) =~= chars@);
    out
}

/// Whether both texts are the same but for ASCII case.
pub fn same_ignoring_case(a: &str, b: &str) -> (out: bool)
    ensures
        out == (ascii_lower(a@) == ascii_lower(b@)),
{
    same_text(&to_ascii_lower(a), &to_ascii_lower(b))
}

/// Nothing but ASCII characters.
pub open spec fn all_ascii(s: Seq<char>) -> bool {
    forall|i: int| 0 <= i < s.len() ==> #[trigger] s[i] <= '\u{7f}'
}

/// `str::to_lowercase`: the lowercase of a text that goes beyond ASCII, by
/// Unicode's tables.
pub uninterp spec fn unicode_lowercase(s: Seq<char>) -> Seq<char>;

/// The lowercase of `s`.
pub open spec fn lowercase(s: Seq<char>) -> Seq<char> {
    if all_ascii(s) {
        ascii_lower(s)
    } else {
        unicode_lowercase(s)
    }
}

/// `str::to_lowercase` gives the lowercase of the text, which depends on the
/// text alone. Of an ASCII text the capitals are lowered and nothing else
/// changes.
#[verifier::external_body]
pub(crate) fn to_lowercase(s: &str) -> (out: String)
    ensures
        out@ == (if all_ascii(s@) {
            ascii_lower(s@)
        } else {
            unicode_lowercase(s@)
        }),
{
    s.to_lowercase()
}

/// Lowering what is ASCII twice changes nothing more, and leaves it ASCII.
pub proof fn lemma_lowered_twice(s: Seq<char>)
    requires
        all_ascii(s),
    ensures
        all_ascii(lowercase(s)),
        lowercase(lowercase(s)) == lowercase(s),
        lowercase(s).len() == s.len(),
{
    let lower = ascii_lower(s);
    assert forall|i: int| 0 <= i < lower.len() implies #[trigger] lower[i] <= '\u{7f}' by {
        assert(s[i] <= '\u{7f}');
    }
    assert(ascii_lower(lower) =~= lower);
}

// ---------------------------------------------------------------------------
// Trimming
// ---------------------------------------------------------------------------

/// `s` without the white space it starts with.
pub open spec fn trimmed_start(s: Seq<char>) -> Seq<char>
    decreases s.len(),
{
    if s.len() > 0 && white_space(s[0]) {
        trimmed_start(s.skip(1))
    } else {
        s
    }
}

/// `s` without the white space it ends with.
pub open spec fn trimmed_end(s: Seq<char>) -> Seq<char>
    decreases s.len(),
{
    if s.len() > 0 && white_space(s.last()) {
        trimmed_end(s.drop_last())
    } else {
        s
    }
}

/// `s` without the white space around it.
pub open spec fn trimmed(s: Seq<char>) -> Seq<char> {
    trimmed_end(trimmed_start(s))
}

/// `s` without the white space it ends with.
pub fn trim_end(s: &str) -> (out: String)
    ensures
        out@ == trimmed_end(s@),
{
    let chars = chars_of(s);
    let to: usize = end_of_text(&chars, 0);
    assert(chars@.subrange(0, chars@.len() as int) =~= chars@);
    text_of(&chars, 0, to)
}

/// Where the text from `from` on ends, white space after it left out.
fn end_of_text(chars: &Vec<char>, from: usize) -> (to: usize)
    requires
        from <= chars@.len(),
    ensures
        from <= to <= chars@.len(),
        chars@.subrange(from as int, to as int) == trimmed_end(
            chars@.subrange(from as int, chars@.len() as int),
        ),
{
    let mut to: usize = chars.len();
    while to > from && is_white_space(chars[to - 1])
        invariant
            from <= to <= chars@.len(),
            trimmed_end(chars@.subrange(from as int, to as int)) == trimmed_end(
                chars@.subrange(from as int, chars@.len() as int),
            ),
        decreases to,
    {
        assert(chars@.subrange(from as int, to as int).drop_last() =~= chars@.subrange(
            from as int,
            to - 1,
        ));
        to -= 1;
    }
    to
}

/// `s` without the white space around it.
pub fn trim(s: &str) -> (out: String)
    ensures
        out@ == trimmed(s@),
{
    let chars = chars_of(s);
    let mut from: usize = 0;
    assert(chars@.skip(0) =~= chars@);
    while from < chars.len() && is_white_space(chars[from])
        invariant
            from <= chars@.len(),
            trimmed_start(chars@.skip(from as int)) == trimmed_start(chars@),
        decreases chars@.len() - from,
    {
        assert(chars@.skip(from as int).skip(1) =~= chars@.skip(from + 1));
        from += 1;
    }
    let to: usize = end_of_text(&chars, from);
    assert(chars@.subrange(from as int, chars@.len() as int) =~= chars@.skip(from as int));
    text_of(&chars, from, to)
}

/// Whether `s` is nothing but white space.
pub fn is_blank(s: &str) -> (out: bool)
    ensures
        out == (trimmed(s@).len() == 0),
{
    trim(s).as_str().unicode_len() == 0
}

// ---------------------------------------------------------------------------
// Finding
// ---------------------------------------------------------------------------

/// `needle` stands at `at` in `s`.
pub open spec fn occurs_at(s: Seq<char>, needle: Seq<char>, at: int) -> bool {
    &&& 0 <= at
    &&& at + needle.len() <= s.len()
    &&& s.subrange(at, at + needle.len()) == needle
}

/// Where `needle` first stands in `s`, from `from` on.
pub open spec fn find_from(s: Seq<char>, needle: Seq<char>, from: int) -> Option<int>
    decreases s.len() + 1 - from,
{
    if from < 0 || from + needle.len() > s.len() {
        None
    } else if occurs_at(s, needle, from) {
        Some(from)
    } else {
        find_from(s, needle, from + 1)
    }
}

/// Whether `needle` stands anywhere in `s`.
pub open spec fn has_text(s: Seq<char>, needle: Seq<char>) -> bool {
    exists|at: int| #[trigger] occurs_at(s, needle, at)
}

/// A first place is a place, and there is none before it.
pub proof fn lemma_find(s: Seq<char>, needle: Seq<char>, from: int)
    requires
        0 <= from,
    ensures
        match find_from(s, needle, from) {
            Some(at) => from <= at && occurs_at(s, needle, at) && forall|i: int|
                from <= i < at ==> !#[trigger] occurs_at(s, needle, i),
            None => forall|i: int| from <= i ==> !#[trigger] occurs_at(s, needle, i),
        },
    decreases s.len() + 1 - from,
{
    if from + needle.len() <= s.len() && !occurs_at(s, needle, from) {
        lemma_find(s, needle, from + 1);
    }
}

/// Whether `needle` stands at `at`.
pub fn matches_at(chars: &Vec<char>, needle: &Vec<char>, at: usize) -> (out: bool)
    ensures
        out == occurs_at(chars@, needle@, at as int),
{
    if needle.len() > chars.len() || at > chars.len() - needle.len() {
        return false;
    }
    let mut i: usize = 0;
    while i < needle.len()
        invariant
            i <= needle@.len(),
            at + needle@.len() <= chars.len(),
            forall|j: int| 0 <= j < i ==> chars@[at + j] == #[trigger] needle@[j],
        decreases needle@.len() - i,
    {
        if chars[at + i] != needle[i] {
            assert(chars@.subrange(at as int, at + needle@.len())[i as int] != needle@[i as int]);
            return false;
        }
        i += 1;
    }
    assert(chars@.subrange(at as int, at + needle@.len()) =~= needle@);
    true
}

/// Where `needle` first stands, from `from` on.
pub fn find_chars(chars: &Vec<char>, needle: &Vec<char>, from: usize) -> (out: Option<usize>)
    ensures
        match (out, find_from(chars@, needle@, from as int)) {
            (Some(a), Some(b)) => a == b && a + needle@.len() <= chars@.len(),
            (None, None) => true,
            _ => false,
        },
{
    if needle.len() > chars.len() {
        return None;
    }
    let mut at: usize = from;
    while at <= chars.len() - needle.len()
        invariant
            needle@.len() <= chars@.len(),
            from <= at,
            find_from(chars@, needle@, from as int) == find_from(chars@, needle@, at as int),
        decreases chars@.len() + 1 - at,
    {
        if matches_at(chars, needle, at) {
            return Some(at);
        }
        if at == chars.len() - needle.len() {
            assert(find_from(chars@, needle@, at + 1) is None);
            return None;
        }
        at += 1;
    }
    None
}

/// Whether `needle` stands anywhere in `s`.
pub fn contains_text(s: &str, needle: &str) -> (out: bool)
    ensures
        out == has_text(s@, needle@),
{
    proof {
        lemma_find(s@, needle@, 0);
    }
    find_chars(&chars_of(s), &chars_of(needle), 0).is_some()
}

/// Whether `c` stands anywhere in `s`.
pub fn contains_char(s: &str, c: char) -> (out: bool)
    ensures
        out == s@.contains(c),
{
    let chars = chars_of(s);
    let mut i: usize = 0;
    while i < chars.len()
        invariant
            chars@ == s@,
            i <= chars@.len(),
            forall|j: int| 0 <= j < i ==> #[trigger] chars@[j] != c,
        decreases chars@.len() - i,
    {
        if chars[i] == c {
            return true;
        }
        i += 1;
    }
    false
}

/// `s` starts with `prefix`.
pub open spec fn has_prefix(s: Seq<char>, prefix: Seq<char>) -> bool {
    occurs_at(s, prefix, 0)
}

/// Whether `s` starts with `prefix`.
pub fn starts_with(s: &str, prefix: &str) -> (out: bool)
    ensures
        out == has_prefix(s@, prefix@),
{
    matches_at(&chars_of(s), &chars_of(prefix), 0)
}

/// What follows `prefix` in `s`, when it starts with that.
pub fn after_prefix(s: &str, prefix: &str) -> (out: Option<String>)
    ensures
        match out {
            Some(rest) => has_prefix(s@, prefix@) && rest@ == s@.skip(prefix@.len() as int),
            None => !has_prefix(s@, prefix@),
        },
{
    let chars = chars_of(s);
    let needle = chars_of(prefix);
    if matches_at(&chars, &needle, 0) {
        let rest = text_of(&chars, needle.len(), chars.len());
        assert(rest@ =~= s@.skip(prefix@.len() as int));
        Some(rest)
    } else {
        None
    }
}

/// Where `c` first stands in `s`.
pub open spec fn first_index(s: Seq<char>, c: char) -> Option<int>
    decreases s.len(),
{
    if s.len() == 0 {
        None
    } else if s[0] == c {
        Some(0)
    } else {
        match first_index(s.skip(1), c) {
            Some(at) => Some(at + 1),
            None => None,
        }
    }
}

/// Where `c` last stands in `s`.
pub open spec fn last_index(s: Seq<char>, c: char) -> Option<int>
    decreases s.len(),
{
    if s.len() == 0 {
        None
    } else if s.last() == c {
        Some(s.len() - 1)
    } else {
        last_index(s.drop_last(), c)
    }
}

/// Where `c` first stands in `chars`, from `from` on.
pub fn find_char(chars: &Vec<char>, c: char, from: usize) -> (out: Option<usize>)
    requires
        from <= chars@.len(),
    ensures
        match (out, first_index(chars@.skip(from as int), c)) {
            (Some(a), Some(b)) => a == from + b && from <= a < chars.len() && chars@[a as int] == c,
            (None, None) => true,
            _ => false,
        },
{
    let mut at: usize = from;
    while at < chars.len()
        invariant
            from <= at <= chars@.len(),
            match (first_index(chars@.skip(from as int), c), first_index(chars@.skip(at as int), c)) {
                (Some(a), Some(b)) => a + from == b + at,
                (None, None) => true,
                _ => false,
            },
        decreases chars@.len() - at,
    {
        assert(chars@.skip(at as int).skip(1) =~= chars@.skip(at + 1));
        if chars[at] == c {
            return Some(at);
        }
        at += 1;
    }
    None
}

/// Where `c` last stands in `chars`.
pub fn rfind_char(chars: &Vec<char>, c: char) -> (out: Option<usize>)
    ensures
        match (out, last_index(chars@, c)) {
            (Some(a), Some(b)) => a == b && a < chars.len() && chars@[a as int] == c,
            (None, None) => true,
            _ => false,
        },
{
    let mut end: usize = chars.len();
    assert(chars@.take(chars@.len() as int) =~= chars@);
    while end > 0
        invariant
            end <= chars@.len(),
            last_index(chars@, c) == last_index(chars@.take(end as int), c),
        decreases end,
    {
        assert(chars@.take(end as int).drop_last() =~= chars@.take(end - 1));
        assert(chars@.take(end as int).last() == chars@[end - 1]);
        if chars[end - 1] == c {
            return Some(end - 1);
        }
        end -= 1;
    }
    None
}

/// What stands before the first `needle` in `s`, and what stands after it.
pub open spec fn parted(s: Seq<char>, needle: Seq<char>) -> Option<(Seq<char>, Seq<char>)> {
    match find_from(s, needle, 0) {
        Some(at) => Some((s.take(at), s.skip(at + needle.len()))),
        None => None,
    }
}

/// What stands before the first `needle` in `s`, and what stands after it.
pub fn split_once(s: &str, needle: &str) -> (out: Option<(String, String)>)
    ensures
        match out {
            Some(two) => parted(s@, needle@) == Some((two.0@, two.1@)),
            None => parted(s@, needle@) is None,
        },
{
    let chars = chars_of(s);
    let wanted = chars_of(needle);
    match find_chars(&chars, &wanted, 0) {
        Some(at) => {
            proof {
                lemma_find(s@, needle@, 0);
            }
            assert(at + wanted@.len() <= chars.len());
            let before = text_of(&chars, 0, at);
            let after = text_of(&chars, at + wanted.len(), chars.len());
            assert(before@ =~= s@.take(at as int));
            assert(after@ =~= s@.skip(at + needle@.len()));
            Some((before, after))
        },
        None => None,
    }
}

// ---------------------------------------------------------------------------
// Reading numbers
// ---------------------------------------------------------------------------

/// `s` without one plus sign it starts with.
pub open spec fn unsigned(s: Seq<char>) -> Seq<char> {
    if s.len() > 0 && s[0] == '+' {
        s.skip(1)
    } else {
        s
    }
}

/// Nothing but decimal digits.
pub open spec fn all_digits(s: Seq<char>) -> bool {
    forall|i: int| 0 <= i < s.len() ==> '0' <= #[trigger] s[i] && s[i] <= '9'
}

/// The number the digits `s` write.
pub open spec fn number_of(s: Seq<char>) -> nat
    decreases s.len(),
{
    if s.len() == 0 {
        0
    } else {
        number_of(s.drop_last()) * 10 + (s.last() as nat - 48) as nat
    }
}

/// The number `s` writes in decimal: a plus sign or none, then digits, at
/// most `max` in all.
pub open spec fn number_in(s: Seq<char>, max: nat) -> Option<nat> {
    let digits = unsigned(s);
    if digits.len() > 0 && all_digits(digits) && number_of(digits) <= max {
        Some(number_of(digits))
    } else {
        None
    }
}

proof fn lemma_number_grows(s: Seq<char>, n: int)
    requires
        0 <= n <= s.len(),
        all_digits(s),
    ensures
        number_of(s.take(n)) <= number_of(s),
    decreases s.len(),
{
    if n < s.len() {
        assert(s.drop_last().take(n) =~= s.take(n));
        lemma_number_grows(s.drop_last(), n);
    } else {
        assert(s.take(n) =~= s);
    }
}

/// The number `s` writes in decimal, when it is at most `max`.
pub fn read_number(s: &str, max: u32) -> (out: Option<u32>)
    ensures
        match out {
            Some(n) => number_in(s@, max as nat) == Some(n as nat),
            None => number_in(s@, max as nat) is None,
        },
{
    let chars = chars_of(s);
    let from: usize = if chars.len() > 0 && chars[0] == '+' {
        1
    } else {
        0
    };
    let ghost all = unsigned(s@);
    assert(all =~= chars@.skip(from as int));
    if from == chars.len() {
        return None;
    }
    let mut value: u64 = 0;
    let mut i: usize = from;
    while i < chars.len()
        invariant
            from <= i <= chars@.len(),
            all == chars@.skip(from as int),
            all == unsigned(s@),
            all_digits(all.take(i - from)),
            value == number_of(all.take(i - from)),
            value <= max,
        decreases chars@.len() - i,
    {
        let c = chars[i];
        assert(all[i - from] == c);
        if !('0' <= c && c <= '9') {
            assert(!all_digits(all));
            return None;
        }
        assert(all.take(i + 1 - from).drop_last() =~= all.take(i - from));
        value = value * 10 + (c as u64 - 48);
        i += 1;
        if value > max as u64 {
            proof {
                if all_digits(all) {
                    lemma_number_grows(all, i - from);
                }
            }
            return None;
        }
    }
    assert(all.take(all.len() as int) =~= all);
    Some(value as u32)
}

// ---------------------------------------------------------------------------
// Replacing
// ---------------------------------------------------------------------------

/// `s` with each `c` replaced by `with`.
pub open spec fn replaced_char(s: Seq<char>, c: char, with: Seq<char>) -> Seq<char>
    decreases s.len(),
{
    if s.len() == 0 {
        Seq::empty()
    } else if s.last() == c {
        replaced_char(s.drop_last(), c, with) + with
    } else {
        replaced_char(s.drop_last(), c, with).push(s.last())
    }
}

/// `s` with each `c` replaced by `with`.
pub fn replace_char(s: &str, c: char, with: &str) -> (out: String)
    ensures
        out@ == replaced_char(s@, c, with@),
{
    let chars = chars_of(s);
    let mut out = String::new();
    let mut i: usize = 0;
    while i < chars.len()
        invariant
            i <= chars@.len(),
            out@ == replaced_char(chars@.take(i as int), c, with@),
        decreases chars@.len() - i,
    {
        assert(chars@.take(i + 1).drop_last() =~= chars@.take(i as int));
        assert(chars@.take(i + 1).last() == chars@[i as int]);
        if chars[i] == c {
            out.append(with);
        } else {
            out.push(chars[i]);
        }
        i += 1;
    }
    assert(chars@.take(chars@.len() as int) =~= chars@);
    out
}

/// White space stands anywhere in `s`.
pub open spec fn has_white_space(s: Seq<char>) -> bool {
    exists|i: int| 0 <= i < s.len() && white_space(#[trigger] s[i])
}

/// Whether white space stands anywhere in `s`.
pub fn contains_white_space(s: &str) -> (out: bool)
    ensures
        out == has_white_space(s@),
{
    let chars = chars_of(s);
    let mut i: usize = 0;
    while i < chars.len()
        invariant
            chars@ == s@,
            i <= chars@.len(),
            forall|j: int| 0 <= j < i ==> !white_space(#[trigger] chars@[j]),
        decreases chars@.len() - i,
    {
        if is_white_space(chars[i]) {
            return true;
        }
        i += 1;
    }
    false
}

// ---------------------------------------------------------------------------
// Splitting and joining
// ---------------------------------------------------------------------------

/// The parts of `s` between each `sep`; there is always one part at least.
pub open spec fn split_at_char(s: Seq<char>, sep: char) -> Seq<Seq<char>>
    decreases s.len(),
{
    match first_index(s, sep) {
        Some(at) => if 0 <= at < s.len() {
            seq![s.take(at)] + split_at_char(s.skip(at + 1), sep)
        } else {
            seq![s]
        },
        None => seq![s],
    }
}

/// The parts of `s` between each `sep`.
pub fn split_char(s: &str, sep: char) -> (out: Vec<String>)
    ensures
        texts(out@) == split_at_char(s@, sep),
{
    let chars = chars_of(s);
    let mut out: Vec<String> = Vec::new();
    let mut from: usize = 0;
    let mut more = true;
    assert(chars@.skip(0) =~= chars@);
    assert(texts(out@) =~= Seq::<Seq<char>>::empty());
    assert(texts(out@) + split_at_char(chars@.skip(0), sep) =~= split_at_char(chars@, sep));
    while more
        invariant
            from <= chars@.len(),
            more ==> texts(out@) + split_at_char(chars@.skip(from as int), sep) == split_at_char(
                chars@,
                sep,
            ),
            !more ==> texts(out@) == split_at_char(chars@, sep),
        decreases
            chars@.len() - from,
            if more {
                1int
            } else {
                0int
            },
    {
        let ghost before = texts(out@);
        let ghost rest = chars@.skip(from as int);
        match find_char(&chars, sep, from) {
            Some(at) => {
                let part = text_of(&chars, from, at);
                let ghost view = part@;
                out.push(part);
                proof {
                    assert(view =~= rest.take(at - from));
                    assert(rest.skip(at - from + 1) =~= chars@.skip(at + 1));
                    assert(texts(out@) =~= before.push(view));
                    assert(texts(out@) + split_at_char(chars@.skip(at + 1), sep) =~= before
                        + split_at_char(rest, sep));
                }
                from = at + 1;
            },
            None => {
                let part = text_of(&chars, from, chars.len());
                let ghost view = part@;
                out.push(part);
                proof {
                    assert(view =~= rest);
                    assert(texts(out@) =~= before + seq![rest]);
                }
                more = false;
            },
        }
    }
    out
}

/// `s` without one carriage return it ends with.
pub open spec fn without_return(s: Seq<char>) -> Seq<char> {
    if s.len() > 0 && s.last() == '\r' {
        s.drop_last()
    } else {
        s
    }
}

/// The lines of `s`: what stands before each line feed, a carriage return
/// before it left out, and what stands after the last one unless that is
/// nothing.
pub open spec fn lines_of(s: Seq<char>) -> Seq<Seq<char>> {
    let parts = split_at_char(s, '\n');
    let ended = parts.drop_last().map_values(|part: Seq<char>| without_return(part));
    if parts.last().len() == 0 {
        ended
    } else {
        ended.push(parts.last())
    }
}

/// There is always one part at least.
pub proof fn lemma_split_not_empty(s: Seq<char>, sep: char)
    ensures
        split_at_char(s, sep).len() >= 1,
{
}

/// The lines of `s`.
pub fn split_lines(s: &str) -> (out: Vec<String>)
    ensures
        texts(out@) == lines_of(s@),
{
    let parts = split_char(s, '\n');
    let ghost all = split_at_char(s@, '\n');
    proof {
        lemma_split_not_empty(s@, '\n');
        assert(parts@.len() == all.len());
    }
    let last: usize = parts.len() - 1;
    let ghost ended = all.drop_last().map_values(|part: Seq<char>| without_return(part));
    let mut out: Vec<String> = Vec::new();
    let mut i: usize = 0;
    while i < last
        invariant
            all == texts(parts@),
            ended == all.drop_last().map_values(|part: Seq<char>| without_return(part)),
            last == parts@.len() - 1,
            i <= last,
            texts(out@) == ended.take(i as int),
        decreases last - i,
    {
        let ghost done = texts(out@);
        let chars = chars_of(parts[i].as_str());
        assert(all[i as int] == chars@);
        let line = if chars.len() > 0 && chars[chars.len() - 1] == '\r' {
            let line = text_of(&chars, 0, chars.len() - 1);
            assert(line@ =~= chars@.drop_last());
            line
        } else {
            parts[i].clone()
        };
        let ghost view = line@;
        out.push(line);
        i += 1;
        assert(texts(out@) =~= done.push(view));
        assert(ended.take(i as int) =~= done.push(ended[i - 1]));
    }
    assert(ended.take(last as int) =~= ended);
    assert(all.last() == parts@[last as int]@);
    if parts[last].as_str().unicode_len() > 0 {
        let ghost done = texts(out@);
        out.push(parts[last].clone());
        assert(texts(out@) =~= done.push(all.last()));
    }
    out
}

/// `parts` one after another, `sep` between them.
pub open spec fn joined(parts: Seq<Seq<char>>, sep: Seq<char>) -> Seq<char>
    decreases parts.len(),
{
    if parts.len() == 0 {
        Seq::empty()
    } else if parts.len() == 1 {
        parts[0]
    } else {
        joined(parts.drop_last(), sep) + sep + parts.last()
    }
}

/// `parts` one after another, `sep` between them.
pub fn join(parts: &[String], sep: &str) -> (out: String)
    ensures
        out@ == joined(texts(parts@), sep@),
{
    let mut out = String::new();
    let mut i: usize = 0;
    while i < parts.len()
        invariant
            i <= parts@.len(),
            out@ == joined(texts(parts@.take(i as int)), sep@),
        decreases parts@.len() - i,
    {
        proof {
            let now = texts(parts@.take(i + 1));
            assert(now.drop_last() =~= texts(parts@.take(i as int)));
            assert(now.last() == parts@[i as int]@);
        }
        if i > 0 {
            out.append(sep);
        }
        out.append(parts[i].as_str());
        i += 1;
    }
    assert(parts@.take(parts@.len() as int) =~= parts@);
    out
}

/// "a", "a and b", "a, b and c".
pub open spec fn joined_with_and(parts: Seq<Seq<char>>) -> Seq<char> {
    if parts.len() <= 1 {
        joined(parts, ", "@)
    } else {
        joined(parts.drop_last(), ", "@) + " and "@ + parts.last()
    }
}

/// "a", "a and b", "a, b and c".
pub fn join_and(parts: &[String]) -> (out: String)
    ensures
        out@ == joined_with_and(texts(parts@)),
{
    if parts.len() <= 1 {
        return join(parts, ", ");
    }
    let last: usize = parts.len() - 1;
    let mut out = String::new();
    let mut i: usize = 0;
    while i < last
        invariant
            i <= last < parts@.len(),
            out@ == joined(texts(parts@.take(i as int)), ", "@),
        decreases last - i,
    {
        proof {
            let now = texts(parts@.take(i + 1));
            assert(now.drop_last() =~= texts(parts@.take(i as int)));
            assert(now.last() == parts@[i as int]@);
        }
        if i > 0 {
            out.append(", ");
        }
        out.append(parts[i].as_str());
        i += 1;
    }
    out.append(" and ");
    out.append(parts[last].as_str());
    assert(texts(parts@).drop_last() =~= texts(parts@.take(last as int)));
    out
}

/// The words of `s`: the stretches between white space.
pub open spec fn words_of(s: Seq<char>) -> Seq<Seq<char>>
    decreases s.len(),
{
    if s.len() == 0 {
        Seq::empty()
    } else if white_space(s.last()) {
        words_of(s.drop_last())
    } else {
        let at = word_start(s, s.len() as int);
        if 0 <= at < s.len() {
            words_of(s.take(at)).push(s.skip(at))
        } else {
            Seq::empty()
        }
    }
}

/// Where the word that ends before `end` starts.
pub open spec fn word_start(s: Seq<char>, end: int) -> int
    decreases end,
{
    if end <= 0 || white_space(s[end - 1]) {
        end
    } else {
        word_start(s, end - 1)
    }
}

/// The words of `s`: the stretches between white space.
pub fn split_words(s: &str) -> (out: Vec<String>)
    ensures
        texts(out@) == words_of(s@),
{
    let chars = chars_of(s);
    let mut out: Vec<String> = Vec::new();
    let mut i: usize = 0;
    assert(texts(out@) =~= words_of(chars@.take(0)));
    while i < chars.len()
        invariant
            i <= chars@.len(),
            texts(out@) == words_of(chars@.take(i as int)),
            i == 0 || i == chars@.len() || white_space(chars@[i - 1]) || white_space(
                chars@[i as int],
            ),
        decreases chars@.len() - i,
    {
        let ghost before = texts(out@);
        if is_white_space(chars[i]) {
            assert(chars@.take(i + 1).drop_last() =~= chars@.take(i as int));
            assert(chars@.take(i + 1).last() == chars@[i as int]);
            i += 1;
        } else {
            let start: usize = i;
            while i < chars.len() && !is_white_space(chars[i])
                invariant
                    start <= i <= chars@.len(),
                    forall|j: int| start <= j < i ==> !white_space(#[trigger] chars@[j]),
                decreases chars@.len() - i,
            {
                i += 1;
            }
            let word = text_of(&chars, start, i);
            let ghost view = word@;
            out.push(word);
            proof {
                let now = chars@.take(i as int);
                lemma_word_start(now, start as int, i as int);
                assert(now.take(start as int) =~= chars@.take(start as int));
                assert(view =~= now.skip(start as int));
                assert(now.last() == chars@[i - 1]);
                assert(texts(out@) =~= before.push(view));
            }
        }
    }
    assert(chars@.take(chars@.len() as int) =~= chars@);
    out
}

proof fn lemma_word_start(s: Seq<char>, start: int, end: int)
    requires
        0 <= start <= end <= s.len(),
        start == 0 || white_space(s[start - 1]),
        forall|j: int| start <= j < end ==> !white_space(#[trigger] s[j]),
    ensures
        word_start(s, end) == start,
    decreases end - start,
{
    if start < end {
        lemma_word_start(s, start, end - 1);
    }
}

// ---------------------------------------------------------------------------
// Numbers
// ---------------------------------------------------------------------------

/// The digit `d`.
pub open spec fn digit(d: int) -> char {
    (48 + d) as char
}

/// `n` in decimal.
pub open spec fn decimal(n: nat) -> Seq<char>
    decreases n,
{
    if n < 10 {
        seq![digit(n as int)]
    } else {
        decimal(n / 10).push(digit((n % 10) as int))
    }
}

/// A number in decimal is nothing but digits, and one at least.
pub proof fn lemma_decimal_digits(n: nat)
    ensures
        all_digits(decimal(n)),
        decimal(n).len() > 0,
    decreases n,
{
    if n >= 10 {
        lemma_decimal_digits(n / 10);
    }
}

/// No two numbers are the same in decimal.
pub proof fn lemma_decimal_differs(a: nat, b: nat)
    requires
        decimal(a) == decimal(b),
    ensures
        a == b,
    decreases a,
{
    lemma_decimal_digits(a / 10);
    lemma_decimal_digits(b / 10);
    if a >= 10 && b >= 10 {
        assert(decimal(a).drop_last() =~= decimal(a / 10));
        assert(decimal(b).drop_last() =~= decimal(b / 10));
        lemma_decimal_differs(a / 10, b / 10);
        assert(decimal(a).last() == digit((a % 10) as int));
        assert(decimal(b).last() == digit((b % 10) as int));
    } else if a >= 10 {
        assert(decimal(a).len() == decimal(a / 10).len() + 1);
        assert(decimal(b).len() == 1);
    } else if b >= 10 {
        assert(decimal(b).len() == decimal(b / 10).len() + 1);
        assert(decimal(a).len() == 1);
    } else {
        assert(decimal(a)[0] == digit(a as int));
        assert(decimal(b)[0] == digit(b as int));
    }
}

/// `n` in decimal.
pub fn decimal_of(n: u64) -> (out: String)
    ensures
        out@ == decimal(n as nat),
    decreases n,
{
    let last: u8 = (n % 10) as u8;
    if n < 10 {
        let mut out = String::new();
        out.push((48u8 + last) as char);
        assert(out@ =~= decimal(n as nat));
        out
    } else {
        let mut out = decimal_of(n / 10);
        out.push((48u8 + last) as char);
        out
    }
}

/// `n` in decimal, for counts past the widest ordinary number.
pub fn wide_decimal_of(n: u128) -> (out: String)
    ensures
        out@ == decimal(n as nat),
    decreases n,
{
    let last: u8 = (n % 10) as u8;
    if n < 10 {
        let mut out = String::new();
        out.push((48u8 + last) as char);
        assert(out@ =~= decimal(n as nat));
        out
    } else {
        let mut out = wide_decimal_of(n / 10);
        out.push((48u8 + last) as char);
        out
    }
}

/// `n` in decimal, with its sign when it is negative.
pub open spec fn signed_decimal(n: int) -> Seq<char> {
    if n < 0 {
        "-"@ + decimal((-n) as nat)
    } else {
        decimal(n as nat)
    }
}

/// `n` in decimal, with its sign when it is negative.
pub fn signed_decimal_of(n: i64) -> (out: String)
    ensures
        out@ == signed_decimal(n as int),
{
    if n < 0 {
        let mut out = "-".to_owned();
        // Away from zero by one first: the lowest number has no opposite.
        let magnitude: u64 = (-(n + 1)) as u64 + 1;
        out.append(decimal_of(magnitude).as_str());
        out
    } else {
        decimal_of(n as u64)
    }
}

/// How many bytes UTF-8 takes for `c`.
pub open spec fn char_width(c: char) -> nat {
    if c <= '\u{7f}' {
        1
    } else if c <= '\u{7ff}' {
        2
    } else if c <= '\u{ffff}' {
        3
    } else {
        4
    }
}

/// How many bytes UTF-8 takes for `s`.
pub open spec fn byte_len(s: Seq<char>) -> nat
    decreases s.len(),
{
    if s.len() == 0 {
        0
    } else {
        byte_len(s.drop_last()) + char_width(s.last())
    }
}

/// How many bytes UTF-8 takes for `c`.
pub fn width_of(c: char) -> (out: usize)
    ensures
        out == char_width(c),
{
    if c <= '\u{7f}' {
        1
    } else if c <= '\u{7ff}' {
        2
    } else if c <= '\u{ffff}' {
        3
    } else {
        4
    }
}

/// A part takes no more bytes than the whole, and no text fewer bytes than it
/// has characters.
pub proof fn lemma_byte_len(s: Seq<char>, n: int)
    requires
        0 <= n <= s.len(),
    ensures
        byte_len(s.take(n)) <= byte_len(s),
        s.len() <= byte_len(s),
        n < s.len() ==> byte_len(s.take(n + 1)) == byte_len(s.take(n)) + char_width(s[n]),
    decreases s.len(),
{
    if s.len() > 0 {
        if n < s.len() {
            lemma_byte_len(s.drop_last(), n);
            assert(s.drop_last().take(n) =~= s.take(n));
        } else {
            lemma_byte_len(s.drop_last(), s.len() - 1);
            assert(s.take(n) =~= s);
        }
    }
    if n < s.len() {
        assert(s.take(n + 1).drop_last() =~= s.take(n));
        assert(s.take(n + 1).last() == s[n]);
    } else {
        assert(s.take(n) =~= s);
    }
}

/// How many bytes UTF-8 takes for the characters.
pub fn bytes_of(chars: &Vec<char>) -> (out: usize)
    requires
        byte_len(chars@) <= usize::MAX,
    ensures
        out == byte_len(chars@),
{
    let mut out: usize = 0;
    let mut i: usize = 0;
    while i < chars.len()
        invariant
            i <= chars@.len(),
            byte_len(chars@) <= usize::MAX,
            out == byte_len(chars@.take(i as int)),
        decreases chars@.len() - i,
    {
        proof {
            lemma_byte_len(chars@, i as int);
            lemma_byte_len(chars@, i + 1);
        }
        out = out + width_of(chars[i]);
        i += 1;
    }
    assert(chars@.take(chars@.len() as int) =~= chars@);
    out
}

/// `char::is_alphanumeric`: `c`, which is not ASCII, is a letter or a number,
/// by Unicode's tables.
pub uninterp spec fn unicode_alphanumeric(c: char) -> bool;

/// `c` is a letter or a number.
pub open spec fn alphanumeric(c: char) -> bool {
    if c <= '\u{7f}' {
        ('0' <= c && c <= '9') || ('A' <= c && c <= 'Z') || ('a' <= c && c <= 'z')
    } else {
        unicode_alphanumeric(c)
    }
}

/// `char::is_alphanumeric` says whether `c` is a letter or a number, which
/// depends on `c` alone; of the ASCII characters, the letters and the digits
/// are.
#[verifier::external_body]
pub(crate) fn is_alphanumeric(c: char) -> (out: bool)
    ensures
        out == (if c <= '\u{7f}' {
            ('0' <= c && c <= '9') || ('A' <= c && c <= 'Z') || ('a' <= c && c <= 'z')
        } else {
            unicode_alphanumeric(c)
        }),
{
    c.is_alphanumeric()
}

// ---------------------------------------------------------------------------
// Laws
// ---------------------------------------------------------------------------

/// Lowering changes the ASCII capitals alone, and those into the small letter
/// thirty-two places on.
pub proof fn lemma_lowers_capitals_alone(c: char)
    ensures
        'A' <= c && c <= 'Z' ==> ascii_lower_char(c) as u32 == c as u32 + 32,
        !('A' <= c && c <= 'Z') ==> ascii_lower_char(c) == c,
        ascii_lower_char(ascii_lower_char(c)) == ascii_lower_char(c),
{
}

/// Trimming takes white space off both ends and nothing else, and leaves none
/// at either.
pub proof fn lemma_trimmed(s: Seq<char>)
    ensures
        exists|from: int, to: int|
            {
                &&& 0 <= from <= to <= s.len()
                &&& trimmed(s) == #[trigger] s.subrange(from, to)
                &&& forall|i: int| 0 <= i < from ==> white_space(#[trigger] s[i])
                &&& forall|i: int| to <= i < s.len() ==> white_space(#[trigger] s[i])
            },
        trimmed(s).len() > 0 ==> !white_space(trimmed(s)[0]) && !white_space(trimmed(s).last()),
{
    let from = lemma_trimmed_start(s);
    let rest = s.skip(from);
    let n = lemma_trimmed_end(rest);
    assert(rest.take(n) =~= s.subrange(from, from + n));
    assert forall|i: int| from + n <= i < s.len() implies white_space(#[trigger] s[i]) by {
        assert(rest[i - from] == s[i]);
    }
    if n > 0 {
        assert(rest.take(n)[0] == rest[0]);
    }
}

proof fn lemma_trimmed_start(s: Seq<char>) -> (from: int)
    ensures
        0 <= from <= s.len(),
        trimmed_start(s) == s.skip(from),
        forall|i: int| 0 <= i < from ==> white_space(#[trigger] s[i]),
        from < s.len() ==> !white_space(s[from]),
    decreases s.len(),
{
    if s.len() > 0 && white_space(s[0]) {
        let rest = s.skip(1);
        let at = lemma_trimmed_start(rest);
        assert(rest.skip(at) =~= s.skip(at + 1));
        assert forall|i: int| 0 <= i < at + 1 implies white_space(#[trigger] s[i]) by {
            if i > 0 {
                assert(rest[i - 1] == s[i]);
            }
        }
        at + 1
    } else {
        assert(s.skip(0) =~= s);
        0
    }
}

proof fn lemma_trimmed_end(s: Seq<char>) -> (to: int)
    ensures
        0 <= to <= s.len(),
        trimmed_end(s) == s.take(to),
        forall|i: int| to <= i < s.len() ==> white_space(#[trigger] s[i]),
        to > 0 ==> !white_space(s[to - 1]),
    decreases s.len(),
{
    if s.len() > 0 && white_space(s.last()) {
        let rest = s.drop_last();
        let to = lemma_trimmed_end(rest);
        assert(rest.take(to) =~= s.take(to));
        assert forall|i: int| to <= i < s.len() implies white_space(#[trigger] s[i]) by {
            if i < rest.len() {
                assert(rest[i] == s[i]);
            }
        }
        to
    } else {
        assert(s.take(s.len() as int) =~= s);
        s.len() as int
    }
}

/// A first place is a place and none comes before it, a last place one that
/// none comes after; and there is neither only where there is no place at all.
pub proof fn lemma_first_and_last(s: Seq<char>, c: char)
    ensures
        match first_index(s, c) {
            Some(at) => 0 <= at < s.len() && s[at] == c && forall|i: int|
                0 <= i < at ==> #[trigger] s[i] != c,
            None => forall|i: int| 0 <= i < s.len() ==> #[trigger] s[i] != c,
        },
        match last_index(s, c) {
            Some(at) => 0 <= at < s.len() && s[at] == c && forall|i: int|
                at < i < s.len() ==> #[trigger] s[i] != c,
            None => forall|i: int| 0 <= i < s.len() ==> #[trigger] s[i] != c,
        },
    decreases s.len(),
{
    if s.len() > 0 {
        let rest = s.skip(1);
        lemma_first_and_last(rest, c);
        lemma_first_and_last(s.drop_last(), c);
        if s[0] != c {
            match first_index(rest, c) {
                Some(at) => {
                    assert forall|i: int| 0 <= i < at + 1 implies #[trigger] s[i] != c by {
                        if i > 0 {
                            assert(rest[i - 1] == s[i]);
                        }
                    }
                },
                None => {
                    assert forall|i: int| 0 <= i < s.len() implies #[trigger] s[i] != c by {
                        if i > 0 {
                            assert(rest[i - 1] == s[i]);
                        }
                    }
                },
            }
        }
        if s.last() != c {
            let front = s.drop_last();
            assert forall|i: int| 0 <= i < front.len() implies front[i] == #[trigger] s[i] by {}
        }
    }
}

/// The parts a separator leaves, put together with it again, are the text; and
/// none of them holds it.
pub proof fn lemma_parts_make_the_whole(s: Seq<char>, sep: char)
    ensures
        joined(split_at_char(s, sep), seq![sep]) == s,
        forall|i: int, j: int|
            0 <= i < split_at_char(s, sep).len() && 0 <= j < split_at_char(s, sep)[i].len()
                ==> #[trigger] split_at_char(s, sep)[i][j] != sep,
    decreases s.len(),
{
    lemma_first_and_last(s, sep);
    let parts = split_at_char(s, sep);
    if let Some(at) = first_index(s, sep) {
        let rest = s.skip(at + 1);
        let more = split_at_char(rest, sep);
        lemma_parts_make_the_whole(rest, sep);
        lemma_joined_first(s.take(at), more, seq![sep]);
        assert(s.take(at) + seq![sep] + rest =~= s);
        assert forall|i: int, j: int|
            0 <= i < parts.len() && 0 <= j < parts[i].len() implies #[trigger] parts[i][j] != sep by {
            if i > 0 {
                assert(parts[i] == more[i - 1]);
            }
        }
    }
}

/// The first part comes first, the rest behind it.
pub proof fn lemma_joined_first(first: Seq<char>, more: Seq<Seq<char>>, sep: Seq<char>)
    requires
        more.len() > 0,
    ensures
        joined(seq![first] + more, sep) == first + sep + joined(more, sep),
    decreases more.len(),
{
    let all = seq![first] + more;
    assert(all.drop_last() =~= seq![first] + more.drop_last());
    assert(all.last() == more.last());
    if more.len() == 1 {
        assert(seq![first] + more.drop_last() =~= seq![first]);
        assert(joined(seq![first], sep) == first);
    } else {
        lemma_joined_first(first, more.drop_last(), sep);
        assert(first + sep + joined(more.drop_last(), sep) + sep + more.last() =~= first + sep + (
        joined(more.drop_last(), sep) + sep + more.last()));
    }
}

/// A line ends at a line feed, with the carriage return before it left out;
/// what comes after the last one is a line of its own where it is anything.
pub proof fn lemma_lines(first: Seq<char>, rest: Seq<char>)
    requires
        !first.contains('\n'),
    ensures
        first.len() > 0 ==> lines_of(first) == seq![first],
        first.len() == 0 ==> lines_of(first).len() == 0,
        lines_of(first + seq!['\n'] + rest) == seq![
            if first.len() > 0 && first.last() == '\r' {
                first.drop_last()
            } else {
                first
            },
        ] + lines_of(rest),
{
    lemma_first_and_last(first, '\n');
    assert(split_at_char(first, '\n') =~= seq![first]);
    assert(lines_of(first) =~= if first.len() > 0 {
        seq![first]
    } else {
        Seq::empty()
    });
    let s = first + seq!['\n'] + rest;
    lemma_first_and_last(s, '\n');
    assert(s[first.len() as int] == '\n');
    assert forall|i: int| 0 <= i < first.len() implies #[trigger] s[i] != '\n' by {
        assert(s[i] == first[i]);
    }
    assert(first_index(s, '\n') == Some(first.len() as int));
    assert(s.take(first.len() as int) =~= first);
    assert(s.skip(first.len() as int + 1) =~= rest);
    let parts = split_at_char(s, '\n');
    let more = split_at_char(rest, '\n');
    assert(parts =~= seq![first] + more);
    assert(parts.last() == more.last());
    assert(parts.drop_last() =~= seq![first] + more.drop_last());
    assert(lines_of(s) =~= seq![without_return(first)] + lines_of(rest));
}

/// Words are the stretches between white space: what has none is one word, and
/// a white space parts the words before it from those after it.
pub proof fn lemma_words(a: Seq<char>, c: char, b: Seq<char>)
    requires
        white_space(c),
    ensures
        words_of(a + seq![c] + b) == words_of(a) + words_of(b),
        a.len() == 0 ==> words_of(a).len() == 0,
        a.len() > 0 && !has_white_space(a) ==> words_of(a) == seq![a],
    decreases b.len(),
{
    let s = a + seq![c] + b;
    if b.len() == 0 {
        assert(s.drop_last() =~= a);
        assert(words_of(a) + words_of(b) =~= words_of(a));
    } else if white_space(b.last()) {
        assert(s.drop_last() =~= a + seq![c] + b.drop_last());
        lemma_words(a, c, b.drop_last());
    } else {
        lemma_word_start_after(a, c, b, b.len() as int);
        let at = word_start(b, b.len() as int);
        lemma_word_start_bounds(b, b.len() as int);
        let front = a.len() + 1 + at;
        assert(s.take(front) =~= a + seq![c] + b.take(at));
        assert(s.skip(front) =~= b.skip(at));
        lemma_words(a, c, b.take(at));
        assert((words_of(a) + words_of(b.take(at))).push(b.skip(at)) =~= words_of(a) + words_of(b));
    }
    if a.len() > 0 && !has_white_space(a) {
        assert forall|j: int| 0 <= j < a.len() implies !white_space(#[trigger] a[j]) by {}
        lemma_word_start(a, 0, a.len() as int);
        assert(a.skip(0) =~= a);
        assert(words_of(a.take(0)) =~= Seq::<Seq<char>>::empty());
        assert(words_of(a) =~= seq![a]);
    }
}

proof fn lemma_word_start_bounds(s: Seq<char>, end: int)
    requires
        0 < end <= s.len(),
        !white_space(s[end - 1]),
    ensures
        0 <= word_start(s, end) < end,
    decreases end,
{
    if end - 1 > 0 && !white_space(s[end - 2]) {
        lemma_word_start_bounds(s, end - 1);
    } else {
        assert(word_start(s, end - 1) == end - 1);
    }
}

proof fn lemma_word_start_after(a: Seq<char>, c: char, b: Seq<char>, k: int)
    requires
        white_space(c),
        0 <= k <= b.len(),
    ensures
        word_start(a + seq![c] + b, a.len() + 1 + k) == a.len() + 1 + word_start(b, k),
    decreases k,
{
    let s = a + seq![c] + b;
    if k == 0 {
        assert(s[a.len() as int] == c);
    } else {
        assert(s[a.len() + k] == b[k - 1]);
        if !white_space(b[k - 1]) {
            lemma_word_start_after(a, c, b, k - 1);
        }
    }
}

/// Replacing goes character by character: the one asked for becomes the other
/// text, every other stays.
pub proof fn lemma_replaced_one_by_one(a: Seq<char>, b: Seq<char>, c: char, with: Seq<char>, x: char)
    ensures
        replaced_char(a + b, c, with) == replaced_char(a, c, with) + replaced_char(b, c, with),
        replaced_char(seq![x], c, with) == (if x == c {
            with
        } else {
            seq![x]
        }),
        replaced_char(Seq::empty(), c, with).len() == 0,
    decreases b.len(),
{
    assert(replaced_char(seq![x].drop_last(), c, with) =~= Seq::<char>::empty());
    assert(seq![x].last() == x);
    assert(replaced_char(seq![x], c, with) =~= (if x == c {
        with
    } else {
        seq![x]
    }));
    if b.len() == 0 {
        assert(a + b =~= a);
        assert(replaced_char(a, c, with) + replaced_char(b, c, with) =~= replaced_char(a, c, with));
    } else {
        lemma_replaced_one_by_one(a, b.drop_last(), c, with, x);
        assert((a + b).drop_last() =~= a + b.drop_last());
        assert((a + b).last() == b.last());
        assert(replaced_char(a + b, c, with) =~= replaced_char(a, c, with) + replaced_char(
            b,
            c,
            with,
        ));
    }
}

/// What a number is written as reads back as that number, with or without a
/// plus sign, as far as it may go.
pub proof fn lemma_numbers_read_back(n: nat, max: nat)
    ensures
        number_in(decimal(n), max) == (if n <= max {
            Some(n)
        } else {
            None
        }),
        number_in(seq!['+'] + decimal(n), max) == number_in(decimal(n), max),
{
    lemma_decimal_digits(n);
    lemma_number_of_decimal(n);
    assert((seq!['+'] + decimal(n)).skip(1) =~= decimal(n));
    assert('0' <= decimal(n)[0]);
}

proof fn lemma_number_of_decimal(n: nat)
    ensures
        number_of(decimal(n)) == n,
    decreases n,
{
    if n < 10 {
        assert(decimal(n).drop_last() =~= Seq::<char>::empty());
        assert(decimal(n).last() == digit(n as int));
        assert(number_of(Seq::<char>::empty()) == 0);
    } else {
        lemma_number_of_decimal(n / 10);
        assert(decimal(n).drop_last() =~= decimal(n / 10));
        assert(decimal(n).last() == digit((n % 10) as int));
    }
}

/// No two numbers, signed, are the same in decimal.
pub proof fn lemma_signed_decimal_differs(a: int, b: int)
    requires
        signed_decimal(a) == signed_decimal(b),
    ensures
        a == b,
{
    reveal_strlit("-");
    lemma_decimal_digits(if a < 0 {
        -a
    } else {
        a
    } as nat);
    lemma_decimal_digits(if b < 0 {
        -b
    } else {
        b
    } as nat);
    if a < 0 && b < 0 {
        assert(signed_decimal(a).skip(1) =~= decimal((-a) as nat));
        assert(signed_decimal(b).skip(1) =~= decimal((-b) as nat));
        lemma_decimal_differs((-a) as nat, (-b) as nat);
    } else if a >= 0 && b >= 0 {
        lemma_decimal_differs(a as nat, b as nat);
    } else if a < 0 {
        assert(signed_decimal(a)[0] == '-');
        assert('0' <= decimal(b as nat)[0]);
    } else {
        assert(signed_decimal(b)[0] == '-');
        assert('0' <= decimal(a as nat)[0]);
    }
}

/// Two texts one after the other take the bytes of both, and a text of ASCII
/// one byte a character.
pub proof fn lemma_bytes_add_up(a: Seq<char>, b: Seq<char>)
    ensures
        byte_len(a + b) == byte_len(a) + byte_len(b),
        all_ascii(b) ==> byte_len(b) == b.len(),
    decreases b.len(),
{
    if b.len() == 0 {
        assert(a + b =~= a);
    } else {
        lemma_bytes_add_up(a, b.drop_last());
        assert((a + b).drop_last() =~= a + b.drop_last());
        if all_ascii(b) {
            assert(b[b.len() - 1] <= '\u{7f}');
            assert forall|i: int| 0 <= i < b.drop_last().len() implies #[trigger] b.drop_last()[i]
                <= '\u{7f}' by {
                assert(b[i] <= '\u{7f}');
            }
        }
    }
}

/// Padding is what trimming takes off.
pub proof fn lemma_padding_comes_off(before: Seq<char>, s: Seq<char>, after: Seq<char>)
    requires
        s.len() > 0,
        !white_space(s[0]) && !white_space(s.last()),
        forall|i: int| 0 <= i < before.len() ==> white_space(#[trigger] before[i]),
        forall|i: int| 0 <= i < after.len() ==> white_space(#[trigger] after[i]),
    ensures
        trimmed(before + s + after) == s,
{
    let all = before + s + after;
    lemma_trimmed(all);
    let (from, to) = choose|from: int, to: int|
        {
            &&& 0 <= from <= to <= all.len()
            &&& trimmed(all) == #[trigger] all.subrange(from, to)
            &&& forall|i: int| 0 <= i < from ==> white_space(#[trigger] all[i])
            &&& forall|i: int| to <= i < all.len() ==> white_space(#[trigger] all[i])
        };
    let first = before.len() as int;
    let last = first + s.len() - 1;
    assert(all[first] == s[0]);
    assert(all[last] == s.last());
    assert(from <= first && last < to);
    assert(trimmed(all)[0] == all[from]);
    assert(trimmed(all).last() == all[to - 1]);
    if from < first {
        assert(all[from] == before[from]);
    }
    if to - 1 > last {
        assert(all[to - 1] == after[to - 1 - last - 1]);
    }
    assert(all.subrange(from, to) =~= s);
}

/// Parts that do not hold the separator come back as they were when what was
/// joined with it is split at it.
pub proof fn lemma_joined_splits_back(parts: Seq<Seq<char>>, sep: char)
    requires
        parts.len() > 0,
        forall|i: int| 0 <= i < parts.len() ==> !(#[trigger] parts[i]).contains(sep),
    ensures
        split_at_char(joined(parts, seq![sep]), sep) == parts,
    decreases parts.len(),
{
    let first = parts[0];
    let s = joined(parts, seq![sep]);
    lemma_first_and_last(s, sep);
    assert(!first.contains(sep));
    if parts.len() == 1 {
        assert(s == first);
        assert(split_at_char(s, sep) =~= parts);
    } else {
        let rest = parts.skip(1);
        assert forall|i: int| 0 <= i < rest.len() implies !(#[trigger] rest[i]).contains(sep) by {
            assert(rest[i] == parts[i + 1]);
        }
        lemma_joined_splits_back(rest, sep);
        assert(parts =~= seq![first] + rest);
        lemma_joined_first(first, rest, seq![sep]);
        let at = first.len() as int;
        assert(s[at] == sep);
        assert forall|i: int| 0 <= i < at implies #[trigger] s[i] != sep by {
            assert(s[i] == first[i]);
        }
        assert(first_index(s, sep) == Some(at));
        assert(s.take(at) =~= first);
        assert(s.skip(at + 1) =~= joined(rest, seq![sep]));
        assert(split_at_char(s, sep) =~= parts);
    }
}

/// What stands between two texts is in the whole.
pub proof fn lemma_within(before: Seq<char>, middle: Seq<char>, after: Seq<char>)
    ensures
        has_text(before + middle + after, middle),
{
    let all = before + middle + after;
    let at = before.len() as int;
    assert(all.subrange(at, at + middle.len()) =~= middle);
    assert(occurs_at(all, middle, at));
}

/// What is in a part is in the whole.
pub proof fn lemma_within_a_part(before: Seq<char>, part: Seq<char>, after: Seq<char>, needle: Seq<char>)
    requires
        has_text(part, needle),
    ensures
        has_text(before + part + after, needle),
{
    let at = choose|at: int| #[trigger] occurs_at(part, needle, at);
    let all = before + part + after;
    assert(all.subrange(before.len() + at, before.len() + at + needle.len()) =~= part.subrange(
        at,
        at + needle.len(),
    ));
    assert(occurs_at(all, needle, before.len() + at));
}

/// A text is parted at the first place the needle stands, which goes to
/// neither side.
pub proof fn lemma_parted(before: Seq<char>, needle: Seq<char>, after: Seq<char>)
    requires
        forall|i: int|
            0 <= i < before.len() ==> !#[trigger] occurs_at(before + needle + after, needle, i),
    ensures
        parted(before + needle + after, needle) == Some((before, after)),
{
    let s = before + needle + after;
    let at = before.len() as int;
    lemma_find(s, needle, 0);
    assert(s.subrange(at, at + needle.len()) =~= needle);
    assert(occurs_at(s, needle, at));
    assert(find_from(s, needle, 0) == Some(at));
    assert(s.take(at) =~= before);
    assert(s.skip(at + needle.len()) =~= after);
}

} // verus!
