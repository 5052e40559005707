//! What a paste is: files to attach, or text to insert.
//!
//! A terminal hands a dropped file to the program as its path, pasted, and a
//! paste of copied files arrives the same way. So a paste is read as files
//! only when **every** word in it is a path; a sentence that happens to
//! mention one is a sentence.
//!
//! Of the paths, a readable regular file is attached. One that clearly names
//! a file and cannot be had is said, by name, and nothing else changes. A
//! bare path to nothing is text: a person can type a path into a message.
use vstd::prelude::*;
use vstd::utf8::{decode_utf8, encode_utf8, valid_utf8};
use crate::text::{after_prefix, chars_of, find_char, first_index, has_prefix, is_white_space};
use crate::text::{has_white_space, joined, lemma_first_and_last, lemma_joined_first, lemma_words, occurs_at};
use crate::text::{starts_with, str_opt, string_of, texts, white_space, words_of};

verus! {

/// One part of a paste.
#[derive(Debug, Clone, PartialEq, Eq)]
pub enum PasteItem {
    /// A file to attach.
    File(String),
    /// A file that was named and cannot be attached, and why.
    Unreadable {
        /// Which.
        path: String,
        /// Why, as a sentence.
        reason: String,
    },
    /// Words to insert.
    Text(String),
}

/// One part of a paste, its words as text.
pub enum PasteItemView {
    /// A file to attach.
    File(Seq<char>),
    /// A file that cannot be attached, and why.
    Unreadable(Seq<char>, Seq<char>),
    /// Words to insert.
    Text(Seq<char>),
}

impl View for PasteItem {
    type V = PasteItemView;

    open spec fn view(&self) -> PasteItemView {
        match *self {
            PasteItem::File(path) => PasteItemView::File(path@),
            PasteItem::Unreadable { path, reason } => PasteItemView::Unreadable(path@, reason@),
            PasteItem::Text(text) => PasteItemView::Text(text@),
        }
    }
}

/// The views of the parts of a paste.
pub open spec fn item_views(items: Seq<PasteItem>) -> Seq<PasteItemView> {
    items.map_values(|item: PasteItem| item@)
}

// ---------------------------------------------------------------------------
// Words
// ---------------------------------------------------------------------------

/// What a double-quoted stretch at the start of `s` holds, and how many
/// characters it takes, its closing quote with them. `None` when it is not
/// closed.
pub open spec fn quoted(s: Seq<char>) -> Option<(Seq<char>, int)>
    decreases s.len(),
{
    if s.len() == 0 {
        None
    } else if s[0] == '"' {
        Some((Seq::empty(), 1))
    } else if s[0] == '\\' {
        if s.len() < 2 {
            None
        } else {
            match quoted(s.skip(2)) {
                Some(rest) => Some((seq![s[1]] + rest.0, rest.1 + 2)),
                None => None,
            }
        }
    } else {
        match quoted(s.skip(1)) {
            Some(rest) => Some((seq![s[0]] + rest.0, rest.1 + 1)),
            None => None,
        }
    }
}

/// The word so far with `more` added to it.
pub open spec fn grown(word: Option<Seq<char>>, more: Seq<char>) -> Option<Seq<char>> {
    match word {
        Some(word) => Some(word + more),
        None => Some(more),
    }
}

/// The words of `s` the way a shell would split it, quotes and backslash
/// escapes and all, after the words `done` and the half-read `word`. `None`
/// for an unclosed quote or a backslash with nothing after it.
pub open spec fn shell_words(
    s: Seq<char>,
    word: Option<Seq<char>>,
    done: Seq<Seq<char>>,
) -> Option<Seq<Seq<char>>>
    decreases s.len(),
{
    if s.len() == 0 {
        match word {
            Some(word) => Some(done.push(word)),
            None => Some(done),
        }
    } else if s[0] == '\'' {
        match first_index(s.skip(1), '\'') {
            Some(at) => if 0 <= at <= s.len() - 2 {
                shell_words(s.skip(at + 2), grown(word, s.subrange(1, 1 + at)), done)
            } else {
                None
            },
            None => None,
        }
    } else if s[0] == '"' {
        match quoted(s.skip(1)) {
            Some(inside) => if 0 < inside.1 <= s.len() - 1 {
                shell_words(s.skip(1 + inside.1), grown(word, inside.0), done)
            } else {
                None
            },
            None => None,
        }
    } else if s[0] == '\\' {
        if s.len() < 2 {
            None
        } else {
            shell_words(s.skip(2), grown(word, seq![s[1]]), done)
        }
    } else if white_space(s[0]) {
        match word {
            Some(word) => shell_words(s.skip(1), None, done.push(word)),
            None => shell_words(s.skip(1), None, done),
        }
    } else {
        shell_words(s.skip(1), grown(word, seq![s[0]]), done)
    }
}

/// The end of a double-quoted stretch that starts at `from`, what it holds
/// appended to `word`.
fn read_quoted(chars: &Vec<char>, from: usize, word: &mut Vec<char>) -> (out: Option<usize>)
    requires
        from <= chars@.len(),
    ensures
        match (out, quoted(chars@.skip(from as int))) {
            (Some(end), Some(inside)) => end == from + inside.1 && from < end <= chars@.len()
                && final(word)@ == old(word)@ + inside.0,
            (None, None) => true,
            _ => false,
        },
{
    let ghost start = word@;
    let mut at: usize = from;
    while at < chars.len()
        invariant
            from <= at <= chars@.len(),
            start == old(word)@,
            match (quoted(chars@.skip(from as int)), quoted(chars@.skip(at as int))) {
                (Some(whole), Some(rest)) => whole.1 + from == rest.1 + at && start + whole.0
                    == word@ + rest.0,
                (None, None) => true,
                _ => false,
            },
        decreases chars@.len() - at,
    {
        let c = chars[at];
        let ghost rest = chars@.skip(at as int);
        let ghost held = word@;
        if c == '"' {
            assert(held + Seq::<char>::empty() =~= held);
            return Some(at + 1);
        }
        if c == '\\' {
            if at + 1 >= chars.len() {
                return None;
            }
            assert(rest.skip(2) =~= chars@.skip(at + 2));
            word.push(chars[at + 1]);
            proof {
                if let Some(more) = quoted(chars@.skip(at + 2)) {
                    assert(held + (seq![rest[1]] + more.0) =~= word@ + more.0);
                }
            }
            at += 2;
        } else {
            assert(rest.skip(1) =~= chars@.skip(at + 1));
            word.push(c);
            proof {
                if let Some(more) = quoted(chars@.skip(at + 1)) {
                    assert(held + (seq![rest[0]] + more.0) =~= word@ + more.0);
                }
            }
            at += 1;
        }
    }
    None
}

/// `pasted` split into words the way a shell would, quotes and backslash
/// escapes and all -- how a terminal writes a dropped path with a space in
/// it. `None` for a paste with an unclosed quote, which is words.
pub fn words(pasted: &str) -> (out: Option<Vec<String>>)
    ensures
        match (out, shell_words(pasted@, None, Seq::empty())) {
            (Some(words), Some(expected)) => texts(words@) == expected,
            (None, None) => true,
            _ => false,
        },
{
    let chars = chars_of(pasted);
    let ghost all = shell_words(pasted@, None, Seq::empty());
    let mut done: Vec<String> = Vec::new();
    let mut word: Vec<char> = Vec::new();
    let mut in_word = false;
    let mut at: usize = 0;
    assert(chars@.skip(0) =~= chars@);
    assert(texts(done@) =~= Seq::<Seq<char>>::empty());
    while at < chars.len()
        invariant
            at <= chars@.len(),
            !in_word ==> word@.len() == 0,
            all == shell_words(pasted@, None, Seq::empty()),
            all == shell_words(
                chars@.skip(at as int),
                if in_word {
                    Some(word@)
                } else {
                    None
                },
                texts(done@),
            ),
        decreases chars@.len() - at,
    {
        let c = chars[at];
        let ghost rest = chars@.skip(at as int);
        let ghost before = word@;
        if c == '\'' {
            assert(rest.skip(1) =~= chars@.skip(at + 1));
            match find_char(&chars, '\'', at + 1) {
                Some(end) => {
                    let mut i: usize = at + 1;
                    while i < end
                        invariant
                            at + 1 <= i <= end <= chars@.len(),
                            word@ == before + chars@.subrange(at + 1, i as int),
                        decreases end - i,
                    {
                        word.push(chars[i]);
                        i += 1;
                        assert(word@ =~= before + chars@.subrange(at + 1, i as int));
                    }
                    proof {
                        assert(chars@.subrange(at + 1, end as int) =~= rest.subrange(1, end - at));
                        assert(rest.skip(end - at + 1) =~= chars@.skip(end + 1));
                        if !in_word {
                            assert(before + rest.subrange(1, end - at) =~= rest.subrange(
                                1,
                                end - at,
                            ));
                        }
                    }
                    in_word = true;
                    at = end + 1;
                },
                None => {
                    return None;
                },
            }
        } else if c == '"' {
            assert(rest.skip(1) =~= chars@.skip(at + 1));
            match read_quoted(&chars, at + 1, &mut word) {
                Some(end) => {
                    proof {
                        let inside = quoted(rest.skip(1))->0;
                        assert(rest.skip(1 + inside.1) =~= chars@.skip(end as int));
                        if !in_word {
                            assert(before + inside.0 =~= inside.0);
                        }
                    }
                    in_word = true;
                    at = end;
                },
                None => {
                    return None;
                },
            }
        } else if c == '\\' {
            if at + 1 >= chars.len() {
                return None;
            }
            assert(rest.skip(2) =~= chars@.skip(at + 2));
            word.push(chars[at + 1]);
            assert(word@ =~= before + seq![rest[1]]);
            if !in_word {
                assert(word@ =~= seq![rest[1]]);
            }
            in_word = true;
            at += 2;
        } else if is_white_space(c) {
            assert(rest.skip(1) =~= chars@.skip(at + 1));
            if in_word {
                let ghost finished = texts(done@);
                done.push(string_of(&word));
                word = Vec::new();
                in_word = false;
                assert(texts(done@) =~= finished.push(before));
            }
            at += 1;
        } else {
            assert(rest.skip(1) =~= chars@.skip(at + 1));
            word.push(c);
            assert(word@ =~= before + seq![rest[0]]);
            if !in_word {
                assert(word@ =~= seq![rest[0]]);
            }
            in_word = true;
            at += 1;
        }
    }
    if in_word {
        let ghost finished = texts(done@);
        done.push(string_of(&word));
        assert(texts(done@) =~= finished.push(word@));
    }
    Some(done)
}

// ---------------------------------------------------------------------------
// Percent escapes
// ---------------------------------------------------------------------------

/// The value of a hexadecimal digit.
pub open spec fn hex_value(b: u8) -> Option<u8> {
    if 48 <= b <= 57 {
        Some((b - 48) as u8)
    } else if 97 <= b <= 102 {
        Some((b - 87) as u8)
    } else if 65 <= b <= 70 {
        Some((b - 55) as u8)
    } else {
        None
    }
}

/// The value of a hexadecimal digit.
fn hex_digit(b: u8) -> (out: Option<u8>)
    ensures
        out == hex_value(b),
        out matches Some(value) ==> value < 16,
{
    if 48 <= b && b <= 57 {
        Some(b - 48)
    } else if 97 <= b && b <= 102 {
        Some(b - 87)
    } else if 65 <= b && b <= 70 {
        Some(b - 55)
    } else {
        None
    }
}

/// The byte that two bytes after a `%` stand for: two hexadecimal digits, or
/// a plus sign and one.
pub open spec fn escaped_byte(first: u8, second: u8) -> Option<u8> {
    match hex_value(second) {
        Some(low) => if first == 43 {
            Some(low)
        } else {
            match hex_value(first) {
                Some(high) => Some((high * 16 + low) as u8),
                None => None,
            }
        },
        None => None,
    }
}

/// `bytes` with each `%20` and its friends replaced by the byte it stands
/// for; a `%` that starts no such escape stays.
pub open spec fn decoded(bytes: Seq<u8>) -> Seq<u8>
    decreases bytes.len(),
{
    if bytes.len() == 0 {
        Seq::empty()
    } else if bytes[0] == 37 && bytes.len() >= 3 && escaped_byte(bytes[1], bytes[2]) is Some {
        seq![escaped_byte(bytes[1], bytes[2])->0] + decoded(bytes.skip(3))
    } else {
        seq![bytes[0]] + decoded(bytes.skip(1))
    }
}

/// `String::from_utf8_lossy`: the text the bytes write, with what is not
/// UTF-8 replaced.
pub uninterp spec fn utf8_lossy(bytes: Seq<u8>) -> Seq<char>;

/// `String::from_utf8_lossy` gives the text the bytes write, which depends on
/// the bytes alone; bytes that are UTF-8 give exactly the text they encode.
#[verifier::external_body]
fn lossy_text(bytes: &Vec<u8>) -> (out: String)
    ensures
        out@ == utf8_lossy(bytes@),
        valid_utf8(bytes@) ==> out@ == decode_utf8(bytes@),
{
    String::from_utf8_lossy(bytes).into_owned()
}

/// The byte two bytes after a `%` stand for.
fn read_escape(first: u8, second: u8) -> (out: Option<u8>)
    ensures
        out == escaped_byte(first, second),
{
    match hex_digit(second) {
        Some(low) => {
            if first == 43 {
                return Some(low);
            }
            match hex_digit(first) {
                Some(high) => Some(high * 16 + low),
                None => None,
            }
        },
        None => None,
    }
}

/// `bytes` with its escapes replaced.
pub fn decode_escapes(bytes: &[u8]) -> (out: Vec<u8>)
    ensures
        out@ == decoded(bytes@),
{
    let mut out: Vec<u8> = Vec::new();
    let mut index: usize = 0;
    assert(bytes@.skip(0) =~= bytes@);
    assert(out@ + decoded(bytes@) =~= decoded(bytes@));
    while index < bytes.len()
        invariant
            index <= bytes@.len(),
            out@ + decoded(bytes@.skip(index as int)) == decoded(bytes@),
        decreases bytes@.len() - index,
    {
        let ghost rest = bytes@.skip(index as int);
        let ghost held = out@;
        assert(rest.skip(1) =~= bytes@.skip(index + 1));
        if bytes[index] == 37 && bytes.len() - index >= 3 {
            if let Some(byte) = read_escape(bytes[index + 1], bytes[index + 2]) {
                out.push(byte);
                assert(rest.skip(3) =~= bytes@.skip(index + 3));
                assert(out@ + decoded(bytes@.skip(index + 3)) =~= held + decoded(rest));
                index += 3;
                continue;
            }
        }
        out.push(bytes[index]);
        assert(out@ + decoded(bytes@.skip(index + 1)) =~= held + decoded(rest));
        index += 1;
    }
    assert(out@ + decoded(bytes@.skip(bytes@.len() as int)) =~= out@);
    out
}

/// `%20` and friends, as a `file://` URI spells them.
pub fn percent_decode(text: &str) -> (out: String)
    ensures
        out@ == utf8_lossy(decoded(encode_utf8(text@))),
        valid_utf8(decoded(encode_utf8(text@))) ==> out@ == decode_utf8(
            decoded(encode_utf8(text@)),
        ),
{
    lossy_text(&decode_escapes(text.as_bytes()))
}

// ---------------------------------------------------------------------------
// Paths
// ---------------------------------------------------------------------------

/// A path a word of a paste names.
#[derive(Debug, Clone, PartialEq, Eq)]
pub struct NamedPath {
    /// The path.
    pub path: String,
    /// Whether a `file://` named it, which is on purpose; a bare path may be
    /// someone typing a path into a message.
    pub from_uri: bool,
}

/// `rest` below the directory `home`; an absolute `rest` stands for itself.
pub open spec fn below(home: Seq<char>, rest: Seq<char>) -> Seq<char> {
    if has_prefix(rest, "/"@) {
        rest
    } else if home.len() == 0 || home.last() == '/' {
        home + rest
    } else {
        home + "/"@ + rest
    }
}

/// The path `word` names, and whether a `file://` did; `None` when it is not
/// a path.
pub open spec fn path_of(word: Seq<char>, home: Option<Seq<char>>) -> Option<(Seq<char>, bool)> {
    if has_prefix(word, "file://"@) {
        Some((utf8_lossy(decoded(encode_utf8(word.skip("file://"@.len() as int)))), true))
    } else if has_prefix(word, "/"@) {
        Some((word, false))
    } else if has_prefix(word, "~/"@) {
        match home {
            Some(home) => Some((below(home, word.skip("~/"@.len() as int)), false)),
            None => None,
        }
    } else {
        None
    }
}

/// The paths the words name, when every one of them is a path.
pub open spec fn paths_of(words: Seq<Seq<char>>, home: Option<Seq<char>>) -> Option<
    Seq<(Seq<char>, bool)>,
>
    decreases words.len(),
{
    if words.len() == 0 {
        Some(Seq::empty())
    } else {
        match (paths_of(words.drop_last(), home), path_of(words.last(), home)) {
            (Some(paths), Some(path)) => Some(paths.push(path)),
            _ => None,
        }
    }
}

/// The paths `pasted` names: every word of it, when there is one at least and
/// each is a path.
pub open spec fn pasted_paths(pasted: Seq<char>, home: Option<Seq<char>>) -> Option<
    Seq<(Seq<char>, bool)>,
> {
    match shell_words(pasted, None, Seq::empty()) {
        Some(words) => if words.len() == 0 {
            None
        } else {
            paths_of(words, home)
        },
        None => None,
    }
}

/// `word` is a path.
pub open spec fn names_a_path(word: Seq<char>, home: Option<Seq<char>>) -> bool {
    has_prefix(word, "file://"@) || has_prefix(word, "/"@) || (has_prefix(word, "~/"@)
        && home is Some)
}

/// How many paths `pasted` names: as many as it has words when each of them is
/// a path, else none.
pub open spec fn path_count(pasted: Seq<char>, home: Option<Seq<char>>) -> nat {
    match shell_words(pasted, None, Seq::empty()) {
        Some(words) => if forall|i: int|
            0 <= i < words.len() ==> names_a_path(#[trigger] words[i], home) {
            words.len()
        } else {
            0
        },
        None => 0,
    }
}

proof fn lemma_paths_counted(words: Seq<Seq<char>>, home: Option<Seq<char>>)
    ensures
        match paths_of(words, home) {
            Some(paths) => paths.len() == words.len() && forall|i: int|
                0 <= i < words.len() ==> names_a_path(#[trigger] words[i], home),
            None => exists|i: int|
                0 <= i < words.len() && !names_a_path(#[trigger] words[i], home),
        },
    decreases words.len(),
{
    if words.len() > 0 {
        let rest = words.drop_last();
        lemma_paths_counted(rest, home);
        match paths_of(rest, home) {
            Some(_) => {
                assert forall|i: int| 0 <= i < rest.len() implies names_a_path(
                    #[trigger] words[i],
                    home,
                ) by {
                    assert(rest[i] == words[i]);
                }
                assert(words.last() == words[words.len() - 1]);
            },
            None => {
                let i = choose|i: int|
                    0 <= i < rest.len() && !names_a_path(#[trigger] rest[i], home);
                assert(rest[i] == words[i]);
            },
        }
    }
}

/// A named path, as text.
pub open spec fn named_view(named: NamedPath) -> (Seq<char>, bool) {
    (named.path@, named.from_uri)
}

/// Named paths, as text.
pub open spec fn named_views(named: Seq<NamedPath>) -> Seq<(Seq<char>, bool)> {
    named.map_values(|named: NamedPath| named_view(named))
}

/// `rest` below the directory `home`.
fn join_below(home: &str, rest: &str) -> (out: String)
    ensures
        out@ == below(home@, rest@),
{
    if starts_with(rest, "/") {
        return rest.to_owned();
    }
    let mut out = home.to_owned();
    let length: usize = home.unicode_len();
    if length > 0 && home.get_char(length - 1) != '/' {
        out.append("/");
    }
    out.append(rest);
    out
}

/// The path `word` names.
fn read_path(word: &str, home: Option<&str>) -> (out: Option<NamedPath>)
    ensures
        match out {
            Some(named) => path_of(word@, str_opt(home)) == Some(named_view(named)),
            None => path_of(word@, str_opt(home)) is None,
        },
{
    if let Some(rest) = after_prefix(word, "file://") {
        return Some(NamedPath { path: percent_decode(rest.as_str()), from_uri: true });
    }
    if starts_with(word, "/") {
        return Some(NamedPath { path: word.to_owned(), from_uri: false });
    }
    match after_prefix(word, "~/") {
        Some(rest) => match home {
            Some(home) => Some(
                NamedPath { path: join_below(home, rest.as_str()), from_uri: false },
            ),
            None => None,
        },
        // Not a path, so the paste is words.
        None => None,
    }
}

/// The paths `pasted` names, when it is nothing but paths. `None` when it is
/// words to insert. `home` is the home directory, for a path that starts
/// with `~/`.
pub fn named_paths(pasted: &str, home: Option<&str>) -> (out: Option<Vec<NamedPath>>)
    ensures
        match (out, pasted_paths(pasted@, str_opt(home))) {
            (Some(named), Some(paths)) => named_views(named@) == paths,
            (None, None) => true,
            _ => false,
        },
        path_count(pasted@, str_opt(home)) == (match out {
            Some(named) => named@.len(),
            None => 0,
        }),
{
    let words = match words(pasted) {
        Some(words) => words,
        None => {
            return None;
        },
    };
    let ghost all = texts(words@);
    proof {
        lemma_paths_counted(all, str_opt(home));
    }
    if words.len() == 0 {
        return None;
    }
    let mut named: Vec<NamedPath> = Vec::new();
    let mut i: usize = 0;
    assert(named_views(named@) =~= Seq::<(Seq<char>, bool)>::empty());
    while i < words.len()
        invariant
            all == texts(words@),
            pasted_paths(pasted@, str_opt(home)) == paths_of(all, str_opt(home)),
            path_count(pasted@, str_opt(home)) == (match paths_of(all, str_opt(home)) {
                Some(paths) => paths.len(),
                None => 0,
            }),
            i <= words@.len(),
            paths_of(all.take(i as int), str_opt(home)) == Some(named_views(named@)),
        decreases words@.len() - i,
    {
        let ghost done = named_views(named@);
        proof {
            assert(all.take(i + 1).drop_last() =~= all.take(i as int));
            assert(all.take(i + 1).last() == words@[i as int]@);
        }
        match read_path(words[i].as_str(), home) {
            Some(path) => {
                let ghost view = named_view(path);
                named.push(path);
                assert(named_views(named@) =~= done.push(view));
            },
            None => {
                proof {
                    lemma_not_all_paths(all, str_opt(home), i + 1);
                }
                return None;
            },
        }
        i += 1;
    }
    assert(all.take(all.len() as int) =~= all);
    Some(named)
}

proof fn lemma_not_all_paths(words: Seq<Seq<char>>, home: Option<Seq<char>>, n: int)
    requires
        0 <= n <= words.len(),
        paths_of(words.take(n), home) is None,
    ensures
        paths_of(words, home) is None,
    decreases words.len(),
{
    if n < words.len() {
        assert(words.drop_last().take(n) =~= words.take(n));
        lemma_not_all_paths(words.drop_last(), home, n);
    } else {
        assert(words.take(n) =~= words);
    }
}

/// What looking a path up found.
#[derive(Debug, Clone, PartialEq, Eq)]
pub enum PathState {
    /// A regular file that opens.
    File,
    /// A regular file that does not open, and the system's words for why.
    Unopenable(String),
    /// A directory.
    Folder,
    /// Something that is neither.
    Other,
    /// Nothing, and the system's words for it.
    Missing(String),
}

/// What a named path becomes, given what looking it up found; `None` when it
/// shows that the paste is words.
pub open spec fn item_for(named: (Seq<char>, bool), state: PathState) -> Option<PasteItemView> {
    match state {
        PathState::File => Some(PasteItemView::File(named.0)),
        PathState::Unopenable(error) => Some(
            PasteItemView::Unreadable(named.0, named.0 + " cannot be read: "@ + error@),
        ),
        PathState::Folder => Some(
            PasteItemView::Unreadable(
                named.0,
                named.0 + " is a folder; attach the files in it instead"@,
            ),
        ),
        PathState::Other => Some(
            PasteItemView::Unreadable(named.0, named.0 + " is not a file"@),
        ),
        PathState::Missing(error) => if named.1 {
            Some(PasteItemView::Unreadable(named.0, named.0 + " is not there: "@ + error@))
        } else {
            None
        },
    }
}

/// What the named paths become, or `None` when one shows that the paste is
/// words.
pub open spec fn items_for(named: Seq<(Seq<char>, bool)>, states: Seq<PathState>) -> Option<
    Seq<PasteItemView>,
>
    decreases named.len(),
{
    if named.len() == 0 {
        Some(Seq::empty())
    } else {
        match (
            items_for(named.drop_last(), states),
            item_for(named.last(), states[named.len() - 1]),
        ) {
            (Some(items), Some(item)) => Some(items.push(item)),
            _ => None,
        }
    }
}

/// What `pasted` is, given what looking its paths up found.
pub open spec fn classified(
    pasted: Seq<char>,
    home: Option<Seq<char>>,
    states: Seq<PathState>,
) -> Seq<PasteItemView> {
    let words = seq![PasteItemView::Text(pasted)];
    match pasted_paths(pasted, home) {
        Some(named) => match items_for(named, states) {
            Some(items) => items,
            None => words,
        },
        None => words,
    }
}

/// What one named path becomes.
fn read_item(named: &NamedPath, state: &PathState) -> (out: Option<PasteItem>)
    ensures
        match out {
            Some(item) => item_for(named_view(*named), *state) == Some(item@),
            None => item_for(named_view(*named), *state) is None,
        },
{
    let mut reason = named.path.clone();
    match state {
        PathState::File => {
            return Some(PasteItem::File(reason));
        },
        PathState::Unopenable(error) => {
            reason.append(" cannot be read: ");
            reason.append(error.as_str());
        },
        PathState::Folder => {
            reason.append(" is a folder; attach the files in it instead");
        },
        PathState::Other => {
            reason.append(" is not a file");
        },
        PathState::Missing(error) => {
            // A `file://` names a file on purpose; a bare path to nothing may
            // be someone typing a path into a message.
            if !named.from_uri {
                return None;
            }
            reason.append(" is not there: ");
            reason.append(error.as_str());
        },
    }
    Some(PasteItem::Unreadable { path: named.path.clone(), reason })
}

/// What `pasted` is. `states` is what looking up each of its
/// [`named_paths`] found, in order.
pub fn classify(pasted: &str, home: Option<&str>, states: &[PathState]) -> (out: Vec<PasteItem>)
    requires
        path_count(pasted@, str_opt(home)) <= states@.len(),
    ensures
        item_views(out@) == classified(pasted@, str_opt(home), states@),
{
    let text = vec![PasteItem::Text(pasted.to_owned())];
    assert(item_views(text@) =~= seq![PasteItemView::Text(pasted@)]);
    let named = match named_paths(pasted, home) {
        Some(named) => named,
        None => {
            return text;
        },
    };
    let ghost all = named_views(named@);
    let mut items: Vec<PasteItem> = Vec::new();
    let mut i: usize = 0;
    assert(item_views(items@) =~= Seq::<PasteItemView>::empty());
    while i < named.len()
        invariant
            all == named_views(named@),
            pasted_paths(pasted@, str_opt(home)) == Some(all),
            named@.len() <= states@.len(),
            i <= named@.len(),
            items_for(all.take(i as int), states@) == Some(item_views(items@)),
            item_views(text@) == seq![PasteItemView::Text(pasted@)],
        decreases named@.len() - i,
    {
        let ghost done = item_views(items@);
        proof {
            assert(all.take(i + 1).drop_last() =~= all.take(i as int));
            assert(all.take(i + 1).last() == named_view(named@[i as int]));
        }
        match read_item(&named[i], &states[i]) {
            Some(item) => {
                let ghost view = item@;
                items.push(item);
                assert(item_views(items@) =~= done.push(view));
            },
            None => {
                proof {
                    lemma_not_all_items(all, states@, i + 1);
                }
                return text;
            },
        }
        i += 1;
    }
    assert(all.take(all.len() as int) =~= all);
    items
}

proof fn lemma_not_all_items(named: Seq<(Seq<char>, bool)>, states: Seq<PathState>, n: int)
    requires
        0 <= n <= named.len(),
        items_for(named.take(n), states) is None,
    ensures
        items_for(named, states) is None,
    decreases named.len(),
{
    if n < named.len() {
        assert(named.drop_last().take(n) =~= named.take(n));
        lemma_not_all_items(named.drop_last(), states, n);
    } else {
        assert(named.take(n) =~= named);
    }
}

// ---------------------------------------------------------------------------
// Laws
// ---------------------------------------------------------------------------

/// Nothing in `s` quotes or escapes.
pub open spec fn plain(s: Seq<char>) -> bool {
    !s.contains('\'') && !s.contains('"') && !s.contains('\\')
}

/// What neither quotes nor escapes is words between white space.
pub proof fn lemma_plain_words(s: Seq<char>)
    requires
        plain(s),
    ensures
        shell_words(s, None, Seq::empty()) == Some(words_of(s)),
{
    lemma_plain_words_after(s, Seq::empty(), Seq::empty());
    assert(Seq::<Seq<char>>::empty() + words_of(s) =~= words_of(s));
    assert(Seq::<char>::empty() + s =~= s);
}

proof fn lemma_plain_words_after(s: Seq<char>, word: Seq<char>, done: Seq<Seq<char>>)
    requires
        plain(s),
        !has_white_space(word),
    ensures
        shell_words(
            s,
            if word.len() > 0 {
                Some(word)
            } else {
                None
            },
            done,
        ) == Some(done + words_of(word + s)),
    decreases s.len(),
{
    let so_far = if word.len() > 0 {
        Some(word)
    } else {
        None
    };
    if s.len() == 0 {
        assert(word + s =~= word);
        lemma_words(word, ' ', Seq::empty());
        if word.len() > 0 {
            assert(done + seq![word] =~= done.push(word));
        } else {
            assert(done + words_of(word) =~= done);
        }
    } else {
        let c = s[0];
        let rest = s.skip(1);
        assert(s.contains(c));
        assert forall|x: char| rest.contains(x) implies s.contains(x) by {
            let i = choose|i: int| 0 <= i < rest.len() && rest[i] == x;
            assert(s[i + 1] == x);
        }
        if white_space(c) {
            let none = Seq::<char>::empty();
            assert(word + s =~= word + seq![c] + rest);
            lemma_words(word, c, rest);
            if word.len() > 0 {
                lemma_plain_words_after(rest, none, done.push(word));
                assert(done.push(word) + words_of(rest) =~= done + (seq![word] + words_of(rest)));
            } else {
                lemma_plain_words_after(rest, none, done);
                assert(words_of(word) + words_of(rest) =~= words_of(rest));
            }
            assert(none + rest =~= rest);
        } else {
            let longer = word.push(c);
            assert forall|i: int| 0 <= i < longer.len() implies !white_space(
                #[trigger] longer[i],
            ) by {
                if i < word.len() {
                    assert(word[i] == longer[i]);
                }
            }
            lemma_plain_words_after(rest, longer, done);
            assert(longer + rest =~= word + s);
            assert(grown(so_far, seq![c]) == Some(longer)) by {
                if word.len() > 0 {
                    assert(word + seq![c] =~= longer);
                } else {
                    assert(seq![c] =~= longer);
                }
            }
        }
    }
}

/// `text` between single quotes.
pub open spec fn single_quoted(text: Seq<char>) -> Seq<char> {
    seq!['\''] + text + seq!['\'']
}

/// `text` with a backslash before every character.
pub open spec fn backslashed(text: Seq<char>) -> Seq<char>
    decreases text.len(),
{
    if text.len() == 0 {
        Seq::empty()
    } else {
        seq!['\\', text[0]] + backslashed(text.skip(1))
    }
}

/// Texts pasted between single quotes, white space between them, are those
/// texts, whatever stands in them: white space, backslashes, double quotes.
pub proof fn lemma_single_quoted_words(parts: Seq<Seq<char>>)
    requires
        parts.len() > 0,
        forall|i: int| 0 <= i < parts.len() ==> !(#[trigger] parts[i]).contains('\''),
    ensures
        shell_words(
            joined(parts.map_values(|part: Seq<char>| single_quoted(part)), seq![' ']),
            None,
            Seq::empty(),
        ) == Some(parts),
{
    lemma_single_quoted_after(parts, Seq::empty());
    assert(Seq::<Seq<char>>::empty() + parts =~= parts);
}

proof fn lemma_single_quoted_after(parts: Seq<Seq<char>>, done: Seq<Seq<char>>)
    requires
        parts.len() > 0,
        forall|i: int| 0 <= i < parts.len() ==> !(#[trigger] parts[i]).contains('\''),
    ensures
        shell_words(
            joined(parts.map_values(|part: Seq<char>| single_quoted(part)), seq![' ']),
            None,
            done,
        ) == Some(done + parts),
    decreases parts.len(),
{
    let written = parts.map_values(|part: Seq<char>| single_quoted(part));
    let s = joined(written, seq![' ']);
    let first = parts[0];
    let none: Seq<char> = Seq::empty();
    let tail = if parts.len() == 1 {
        none
    } else {
        seq![' '] + joined(parts.skip(1).map_values(|part: Seq<char>| single_quoted(part)), seq![' '])
    };
    assert(s =~= single_quoted(first) + tail) by {
        if parts.len() == 1 {
            assert(s == written[0]);
        } else {
            let later = parts.skip(1).map_values(|part: Seq<char>| single_quoted(part));
            assert(written =~= seq![single_quoted(first)] + later);
            lemma_joined_first(single_quoted(first), later, seq![' ']);
        }
    }
    lemma_single_quote_read(first, tail, None, done);
    assert(none + first =~= first);
    if parts.len() == 1 {
        assert(done.push(first) =~= done + parts);
    } else {
        let rest = parts.skip(1);
        assert forall|i: int| 0 <= i < rest.len() implies !(#[trigger] rest[i]).contains('\'') by {
            assert(rest[i] == parts[i + 1]);
        }
        lemma_single_quoted_after(rest, done.push(first));
        assert(tail.skip(1) =~= joined(
            rest.map_values(|part: Seq<char>| single_quoted(part)),
            seq![' '],
        ));
        assert(done.push(first) + rest =~= done + parts);
    }
}

/// A single-quoted stretch is read to the next single quote, as it stands.
pub proof fn lemma_single_quote_read(
    text: Seq<char>,
    rest: Seq<char>,
    word: Option<Seq<char>>,
    done: Seq<Seq<char>>,
)
    requires
        !text.contains('\''),
    ensures
        shell_words(single_quoted(text) + rest, word, done) == shell_words(
            rest,
            grown(word, text),
            done,
        ),
        shell_words(seq!['\''] + text, word, done) is None,
{
    let s = single_quoted(text) + rest;
    let after = s.skip(1);
    lemma_first_and_last(after, '\'');
    assert(after[text.len() as int] == '\'');
    assert forall|i: int| 0 <= i < text.len() implies #[trigger] after[i] != '\'' by {
        assert(text[i] == after[i]);
    }
    assert(first_index(after, '\'') == Some(text.len() as int));
    assert(s.subrange(1, 1 + text.len() as int) =~= text);
    assert(s.skip(text.len() as int + 2) =~= rest);
    let open = seq!['\''] + text;
    lemma_first_and_last(text, '\'');
    assert(open.skip(1) =~= text);
}

/// A backslash stands for the character after it, outside quotes and inside
/// double ones, and for nothing at the end.
pub proof fn lemma_backslashed_words(text: Seq<char>)
    requires
        text.len() > 0,
    ensures
        shell_words(backslashed(text), None, Seq::empty()) == Some(seq![text]),
        shell_words(seq!['"'] + backslashed(text) + seq!['"'], None, Seq::empty()) == Some(
            seq![text],
        ),
        shell_words(seq!['"'] + backslashed(text), None, Seq::empty()) is None,
        shell_words(backslashed(text) + seq!['\\'], None, Seq::empty()) is None,
{
    let none: Seq<char> = Seq::empty();
    let first = seq![text[0]];
    let rest = text.skip(1);
    let s = backslashed(text);
    assert(s.skip(2) =~= backslashed(rest));
    lemma_backslashed_after(rest, first, none);
    assert(backslashed(rest) + none =~= backslashed(rest));
    assert(first + rest =~= text);
    assert(Seq::<Seq<char>>::empty().push(text) =~= seq![text]);
    let t = s + seq!['\\'];
    assert(t.skip(2) =~= backslashed(rest) + seq!['\\']);
    lemma_backslashed_after(rest, first, seq!['\\']);
    let inside = seq!['"'] + s + seq!['"'];
    assert(inside.skip(1) =~= s + seq!['"']);
    lemma_backslashed_inside(text, none);
    assert(s + (seq!['"'] + none) =~= s + seq!['"']);
    assert(inside.skip(s.len() as int + 2) =~= none);
    lemma_never_closed(text);
    let open = seq!['"'] + s;
    assert(open.skip(1) =~= s);
}

proof fn lemma_backslashed_after(text: Seq<char>, word: Seq<char>, more: Seq<char>)
    ensures
        shell_words(backslashed(text) + more, Some(word), Seq::empty()) == shell_words(
            more,
            Some(word + text),
            Seq::empty(),
        ),
    decreases text.len(),
{
    let s = backslashed(text) + more;
    if text.len() == 0 {
        assert(s =~= more);
        assert(word + text =~= word);
    } else {
        assert(s.skip(2) =~= backslashed(text.skip(1)) + more);
        lemma_backslashed_after(text.skip(1), word + seq![text[0]], more);
        assert(word + seq![text[0]] + text.skip(1) =~= word + text);
    }
}

proof fn lemma_backslashed_inside(text: Seq<char>, more: Seq<char>)
    ensures
        quoted(backslashed(text) + (seq!['"'] + more)) == Some(
            (text, backslashed(text).len() as int + 1),
        ),
    decreases text.len(),
{
    let s = backslashed(text) + (seq!['"'] + more);
    if text.len() == 0 {
        assert(s[0] == '"');
        assert(text =~= Seq::<char>::empty());
    } else {
        assert(s.skip(2) =~= backslashed(text.skip(1)) + (seq!['"'] + more));
        lemma_backslashed_inside(text.skip(1), more);
        assert(seq![text[0]] + text.skip(1) =~= text);
    }
}

proof fn lemma_never_closed(text: Seq<char>)
    ensures
        quoted(backslashed(text)) is None,
    decreases text.len(),
{
    if text.len() > 0 {
        assert(backslashed(text).skip(2) =~= backslashed(text.skip(1)));
        lemma_never_closed(text.skip(1));
    }
}

/// What stands between double quotes is one word as it stands, white space and
/// single quotes with it, but for what escapes.
pub proof fn lemma_double_quoted_word(text: Seq<char>)
    requires
        !text.contains('"') && !text.contains('\\'),
    ensures
        shell_words(seq!['"'] + text + seq!['"'], None, Seq::empty()) == Some(seq![text]),
{
    let s = seq!['"'] + text + seq!['"'];
    let none: Seq<char> = Seq::empty();
    assert(s.skip(1) =~= text + seq!['"']);
    lemma_quoted_plain(text);
    assert(s[0] == '"');
    assert(s.len() == text.len() + 2);
    assert(quoted(s.skip(1)) == Some((text, text.len() as int + 1)));
    assert(s.skip(1 + (text.len() as int + 1)) =~= none);
    assert(grown(None, text) == Some(text));
    assert(shell_words(none, Some(text), Seq::empty()) == Some(Seq::<Seq<char>>::empty().push(text)));
    assert(Seq::<Seq<char>>::empty().push(text) =~= seq![text]);
}

proof fn lemma_quoted_plain(text: Seq<char>)
    requires
        !text.contains('"') && !text.contains('\\'),
    ensures
        quoted(text + seq!['"']) == Some((text, text.len() as int + 1)),
    decreases text.len(),
{
    let s = text + seq!['"'];
    if text.len() == 0 {
        assert(text =~= Seq::<char>::empty());
    } else {
        let rest = text.skip(1);
        assert(text.contains(text[0]));
        assert forall|x: char| rest.contains(x) implies text.contains(x) by {
            let i = choose|i: int| 0 <= i < rest.len() && rest[i] == x;
            assert(text[i + 1] == x);
        }
        lemma_quoted_plain(rest);
        assert(s.skip(1) =~= rest + seq!['"']);
        assert(seq![text[0]] + rest =~= text);
    }
}

/// The hexadecimal digit for `value`, in capitals or not.
pub open spec fn hex_of(value: int, capital: bool) -> u8 {
    if value < 10 {
        ('0' as int + value) as u8
    } else if capital {
        ('A' as int + value - 10) as u8
    } else {
        ('a' as int + value - 10) as u8
    }
}

/// An escape stands for the byte its two digits write, in capitals or not; a
/// byte that is no `%`, and a `%` that no two digits follow, for itself.
pub proof fn lemma_escapes_stand_for_bytes(byte: u8, capital: bool, rest: Seq<u8>)
    ensures
        decoded(
            seq!['%' as u8, hex_of(byte as int / 16, capital), hex_of(byte as int % 16, capital)]
                + rest,
        ) == seq![byte] + decoded(rest),
        byte != '%' as u8 ==> decoded(seq![byte] + rest) == seq![byte] + decoded(rest),
        rest.len() < 2 ==> decoded(seq!['%' as u8] + rest) == seq!['%' as u8] + decoded(rest),
        rest.len() >= 2 && (forall|value: int, big: bool|
            0 <= value < 16 ==> rest[1] != #[trigger] hex_of(value, big)) ==> decoded(
            seq!['%' as u8] + rest,
        ) == seq!['%' as u8] + decoded(rest),
{
    let escape = seq![
        '%' as u8,
        hex_of(byte as int / 16, capital),
        hex_of(byte as int % 16, capital),
    ] + rest;
    assert(escape.skip(3) =~= rest);
    let high = hex_of(byte as int / 16, capital);
    let low = hex_of(byte as int % 16, capital);
    assert(hex_value(high) == Some((byte / 16) as u8));
    assert(hex_value(low) == Some((byte % 16) as u8));
    assert(high != 43);
    assert((byte / 16) * 16 + byte % 16 == byte);
    assert(escaped_byte(high, low) == Some(byte));
    assert((seq![byte] + rest).skip(1) =~= rest);
    let marked = seq!['%' as u8] + rest;
    assert(marked.skip(1) =~= rest);
    if rest.len() >= 2 {
        assert(marked[1] == rest[0] && marked[2] == rest[1]);
        if let Some(value) = hex_value(rest[1]) {
            assert(rest[1] == hex_of(value as int, true) || rest[1] == hex_of(value as int, false));
        }
    }
}

/// A path is what starts at the root, at home or with `file://`, and nothing
/// else is: the root's as it stands, home's below it.
pub proof fn lemma_what_is_a_path(rest: Seq<char>, home: Seq<char>, word: Seq<char>)
    ensures
        path_of(seq!['/'] + rest, None) == Some((seq!['/'] + rest, false)),
        path_of(seq!['~', '/'] + rest, None) is None,
        home.len() > 0 && home.last() != '/' && !(rest.len() > 0 && rest[0] == '/') ==> path_of(
            seq!['~', '/'] + rest,
            Some(home),
        ) == Some((home + seq!['/'] + rest, false)),
        path_of("file://"@ + rest, Some(home)) == Some((utf8_lossy(decoded(encode_utf8(rest))), true)),
        word.len() > 0 && word[0] != '/' && word[0] != '~' && word[0] != 'f' ==> path_of(
            word,
            Some(home),
        ) is None,
{
    reveal_strlit("/");
    reveal_strlit("~/");
    reveal_strlit("file://");
    let root = seq!['/'] + rest;
    let below_home = seq!['~', '/'] + rest;
    let uri = "file://"@ + rest;
    assert(root.subrange(0, 1) =~= "/"@);
    assert(root[0] == '/');
    if root.len() >= 7 {
        assert(root.subrange(0, 7)[0] == '/');
        assert("file://"@[0] == 'f');
    }
    assert(below_home.subrange(0, 2) =~= "~/"@);
    assert(below_home.subrange(0, 1)[0] == '~');
    if below_home.len() >= 7 {
        assert(below_home.subrange(0, 7)[0] == '~');
        assert("file://"@[0] == 'f');
    }
    assert(below_home.skip(2) =~= rest);
    if rest.len() > 0 {
        assert(rest.subrange(0, 1)[0] == rest[0]);
    }
    assert(home + "/"@ + rest =~= home + seq!['/'] + rest);
    assert(uri.subrange(0, 7) =~= "file://"@);
    assert(uri.skip(7) =~= rest);
    if word.len() > 0 {
        assert(word.subrange(0, 1)[0] == word[0]);
        if word.len() >= 2 {
            assert(word.subrange(0, 2)[0] == word[0]);
            assert("~/"@[0] == '~');
        }
        if word.len() >= 7 {
            assert(word.subrange(0, 7)[0] == word[0]);
            assert("file://"@[0] == 'f');
        }
    }
}

/// A paste names paths exactly when it is words and every one of them is a
/// path; then it names one for each, in order.
pub proof fn lemma_every_word_or_none(pasted: Seq<char>, home: Option<Seq<char>>)
    ensures
        ({
            let words = shell_words(pasted, None, Seq::empty());
            &&& pasted_paths(pasted, home) is Some <==> words is Some && words->0.len() > 0 && (
            forall|i: int|
                0 <= i < words->0.len() ==> path_of(#[trigger] words->0[i], home) is Some)
            &&& pasted_paths(pasted, home) matches Some(paths) ==> paths.len() == words->0.len()
                && forall|i: int|
                0 <= i < paths.len() ==> path_of(words->0[i], home) == Some(#[trigger] paths[i])
        }),
{
    if let Some(words) = shell_words(pasted, None, Seq::empty()) {
        lemma_paths_one_by_one(words, home);
    }
}

proof fn lemma_paths_one_by_one(words: Seq<Seq<char>>, home: Option<Seq<char>>)
    ensures
        paths_of(words, home) is Some <==> (forall|i: int|
            0 <= i < words.len() ==> path_of(#[trigger] words[i], home) is Some),
        paths_of(words, home) matches Some(paths) ==> paths.len() == words.len() && forall|i: int|
            0 <= i < paths.len() ==> path_of(words[i], home) == Some(#[trigger] paths[i]),
    decreases words.len(),
{
    if words.len() > 0 {
        let rest = words.drop_last();
        lemma_paths_one_by_one(rest, home);
        assert forall|i: int| 0 <= i < rest.len() implies rest[i] == #[trigger] words[i] by {}
        assert(words.last() == words[words.len() - 1]);
        if paths_of(rest, home) is None {
            let i = choose|i: int| 0 <= i < rest.len() && path_of(#[trigger] rest[i], home) is None;
            assert(path_of(words[i], home) is None);
        }
        if forall|i: int| 0 <= i < words.len() ==> path_of(#[trigger] words[i], home) is Some {
            assert forall|i: int| 0 <= i < rest.len() implies path_of(
                #[trigger] rest[i],
                home,
            ) is Some by {
                assert(path_of(words[i], home) is Some);
            }
        }
    }
}

/// A paste is files exactly when it names paths and none of them is a bare
/// path to nothing. Then each path is attached when it is a file, and said by
/// name when it is not; otherwise every character pasted is kept as text.
pub proof fn lemma_files_or_words(pasted: Seq<char>, home: Option<Seq<char>>, states: Seq<PathState>)
    ensures
        ({
            let named = pasted_paths(pasted, home);
            let out = classified(pasted, home, states);
            if named is Some && forall|i: int|
                0 <= i < named->0.len() ==> !((#[trigger] states[i]) is Missing && !named->0[i].1) {
                &&& out.len() == named->0.len()
                &&& forall|i: int|
                    0 <= i < out.len() ==> if states[i] is File {
                        #[trigger] out[i] == PasteItemView::File(named->0[i].0)
                    } else {
                        out[i] is Unreadable && out[i]->Unreadable_0 == named->0[i].0 && occurs_at(
                            out[i]->Unreadable_1,
                            named->0[i].0,
                            0,
                        )
                    }
            } else {
                out == seq![PasteItemView::Text(pasted)]
            }
        }),
{
    if let Some(named) = pasted_paths(pasted, home) {
        lemma_items_one_by_one(named, states);
    }
}

proof fn lemma_items_one_by_one(named: Seq<(Seq<char>, bool)>, states: Seq<PathState>)
    ensures
        items_for(named, states) is Some <==> (forall|i: int|
            0 <= i < named.len() ==> !((#[trigger] states[i]) is Missing && !named[i].1)),
        items_for(named, states) matches Some(items) ==> items.len() == named.len() && forall|i: int|
            0 <= i < items.len() ==> if states[i] is File {
                #[trigger] items[i] == PasteItemView::File(named[i].0)
            } else {
                items[i] is Unreadable && items[i]->Unreadable_0 == named[i].0 && occurs_at(
                    items[i]->Unreadable_1,
                    named[i].0,
                    0,
                )
            },
    decreases named.len(),
{
    if named.len() > 0 {
        let rest = named.drop_last();
        let last = named.len() - 1;
        lemma_items_one_by_one(rest, states);
        assert forall|i: int| 0 <= i < rest.len() implies rest[i] == #[trigger] named[i] by {}
        if items_for(rest, states) is None {
            let i = choose|i: int|
                0 <= i < rest.len() && (#[trigger] states[i]) is Missing && !rest[i].1;
            assert(states[i] is Missing && !named[i].1);
        }
        if let Some(item) = item_for(named.last(), states[last]) {
            if let PasteItemView::Unreadable(path, reason) = item {
                assert(reason.subrange(0, path.len() as int) =~= path);
            }
        } else {
            assert(states[last] is Missing && !named[last].1);
        }
    }
}

} // verus!
