//! What a conversation looks like, decided without a toolkit.
use vstd::prelude::*;
use crate::model::Participant;
use crate::text::{chars_of, find_char, first_index, join, joined, lemma_first_and_last, same_text, split_words};
use crate::text::{text_of, text_opt, texts, words_of};

verus! {

/// How many names fit before the line starts eliding.
pub const NAMES_SHOWN: usize = 3;

/// The first word of `s`, nothing when it has none.
pub open spec fn first_word(s: Seq<char>) -> Seq<char> {
    let words = words_of(s);
    if words.len() > 0 {
        words[0]
    } else {
        Seq::empty()
    }
}

/// A quotation mark.
pub open spec fn is_quote(c: char) -> bool {
    c == '"' || c == '\''
}

/// A mark that may follow a name.
pub open spec fn is_separator(c: char) -> bool {
    c == ',' || c == ';'
}

/// `s` without the quotation marks it starts with.
pub open spec fn unquoted_start(s: Seq<char>) -> Seq<char>
    decreases s.len(),
{
    if s.len() > 0 && is_quote(s[0]) {
        unquoted_start(s.skip(1))
    } else {
        s
    }
}

/// `s` without the quotation marks it ends with.
pub open spec fn unquoted_end(s: Seq<char>) -> Seq<char>
    decreases s.len(),
{
    if s.len() > 0 && is_quote(s.last()) {
        unquoted_end(s.drop_last())
    } else {
        s
    }
}

/// `s` without the commas and semicolons it ends with.
pub open spec fn unseparated(s: Seq<char>) -> Seq<char>
    decreases s.len(),
{
    if s.len() > 0 && is_separator(s.last()) {
        unseparated(s.drop_last())
    } else {
        s
    }
}

/// The token a display name starts with, quotation marks and trailing
/// punctuation left out.
pub open spec fn name_token(display: Seq<char>) -> Seq<char> {
    unseparated(unquoted_end(unquoted_start(first_word(display))))
}

/// One participant, shortened to the token that identifies them: the start of
/// their display name, up to the `@` when that is an address; the local part
/// of the address when nothing usable is left.
pub open spec fn short_name_of(person: Participant) -> Seq<char> {
    let name = name_token(person.display@);
    match first_index(name, '@') {
        Some(at) => name.take(at),
        None => if name.len() > 0 {
            name
        } else {
            match text_opt(person.local_part) {
                Some(local) => local,
                None => person.display@,
            }
        },
    }
}

/// Somebody displayed as `display` is among `people`.
pub open spec fn is_among(people: Seq<Participant>, display: Seq<char>) -> bool {
    exists|i: int| 0 <= i < people.len() && (#[trigger] people[i]).display@ == display
}

/// The participants, each display name once, in the order they were first
/// seen.
pub open spec fn distinct(people: Seq<Participant>) -> Seq<Participant>
    decreases people.len(),
{
    if people.len() == 0 {
        Seq::empty()
    } else {
        let rest = distinct(people.drop_last());
        if is_among(rest, people.last().display@) {
            rest
        } else {
            rest.push(people.last())
        }
    }
}

/// The short names of `people`, each once, none of them empty.
pub open spec fn short_names(people: Seq<Participant>) -> Seq<Seq<char>>
    decreases people.len(),
{
    if people.len() == 0 {
        Seq::empty()
    } else {
        let rest = short_names(people.drop_last());
        let name = short_name_of(people.last());
        if name.len() == 0 || rest.contains(name) {
            rest
        } else {
            rest.push(name)
        }
    }
}

/// The line that names the people in a conversation.
pub open spec fn participants_line(people: Seq<Participant>) -> Seq<char> {
    let everyone = distinct(people);
    let names = short_names(everyone);
    if everyone.len() == 1 {
        everyone[0].display@
    } else if names.len() <= NAMES_SHOWN {
        joined(names, ", "@)
    } else {
        names[0] + " .. "@ + joined(names.skip(names.len() - (NAMES_SHOWN - 1)), ", "@)
    }
}

/// One participant, shortened to the token that identifies them.
fn short_name(person: &Participant) -> (out: String)
    ensures
        out@ == short_name_of(*person),
{
    let words = split_words(person.display.as_str());
    let chars: Vec<char> = if words.len() > 0 {
        assert(texts(words@)[0] == words@[0]@);
        chars_of(words[0].as_str())
    } else {
        let none: Vec<char> = Vec::new();
        assert(texts(words@).len() == 0);
        assert(none@ =~= Seq::<char>::empty());
        none
    };
    assert(chars@ == first_word(person.display@));
    let mut from: usize = 0;
    assert(chars@.skip(0) =~= chars@);
    while from < chars.len() && (chars[from] == '"' || chars[from] == '\'')
        invariant
            from <= chars@.len(),
            unquoted_start(chars@.skip(from as int)) == unquoted_start(chars@),
        decreases chars@.len() - from,
    {
        assert(chars@.skip(from as int).skip(1) =~= chars@.skip(from + 1));
        from += 1;
    }
    let mut to: usize = chars.len();
    assert(chars@.subrange(from as int, to as int) =~= chars@.skip(from as int));
    while to > from && (chars[to - 1] == '"' || chars[to - 1] == '\'')
        invariant
            from <= to <= chars@.len(),
            unquoted_end(chars@.subrange(from as int, to as int)) == unquoted_end(
                unquoted_start(chars@),
            ),
        decreases to,
    {
        assert(chars@.subrange(from as int, to as int).drop_last() =~= chars@.subrange(
            from as int,
            to - 1,
        ));
        to -= 1;
    }
    while to > from && (chars[to - 1] == ',' || chars[to - 1] == ';')
        invariant
            from <= to <= chars@.len(),
            unseparated(chars@.subrange(from as int, to as int)) == unseparated(
                unquoted_end(unquoted_start(chars@)),
            ),
        decreases to,
    {
        assert(chars@.subrange(from as int, to as int).drop_last() =~= chars@.subrange(
            from as int,
            to - 1,
        ));
        to -= 1;
    }
    let name = text_of(&chars, from, to);
    assert(name@ == name_token(person.display@));
    let letters = chars_of(name.as_str());
    assert(letters@.skip(0) =~= letters@);
    match find_char(&letters, '@', 0) {
        Some(at) => {
            let out = text_of(&letters, 0, at);
            assert(out@ =~= name@.take(at as int));
            return out;
        },
        None => {},
    }
    if letters.len() > 0 {
        return name;
    }
    // Nothing usable was left — a display name that is only punctuation, or
    // none at all.
    match &person.local_part {
        Some(local) => local.clone(),
        None => person.display.clone(),
    }
}

/// Whether `name` is one of `names`.
fn contains_name(names: &Vec<String>, name: &str) -> (out: bool)
    ensures
        out == texts(names@).contains(name@),
{
    let mut i: usize = 0;
    while i < names.len()
        invariant
            i <= names@.len(),
            forall|j: int| 0 <= j < i ==> texts(names@)[j] != name@,
        decreases names@.len() - i,
    {
        assert(texts(names@)[i as int] == names@[i as int]@);
        if same_text(names[i].as_str(), name) {
            return true;
        }
        i += 1;
    }
    assert(texts(names@).len() == names@.len());
    false
}

/// The people in a conversation, short and newest-biased.
///
/// First name where there is a display name, the address's local part where
/// there is not. One voice keeps its whole name. When the line elides, who
/// started the conversation and who spoke most recently both survive; the
/// middle is what goes.
pub fn participants(people: &[Participant]) -> (out: String)
    ensures
        out@ == participants_line(people@),
{
    // Distinct first, on the full name: one person writing five times is one
    // name, and two different people can share a first name.
    let mut seen: Vec<usize> = Vec::new();
    let ghost mut everyone: Seq<Participant> = Seq::empty();
    let mut i: usize = 0;
    while i < people.len()
        invariant
            i <= people@.len(),
            everyone == distinct(people@.take(i as int)),
            seen@.len() == everyone.len(),
            forall|k: int|
                0 <= k < seen@.len() ==> #[trigger] seen@[k] < people@.len() && people@[seen@[k] as int]
                    == everyone[k],
        decreases people@.len() - i,
    {
        proof {
            assert(people@.take(i + 1).drop_last() =~= people@.take(i as int));
            assert(people@.take(i + 1).last() == people@[i as int]);
        }
        let display = people[i].display.as_str();
        let mut known = false;
        let mut k: usize = 0;
        while k < seen.len()
            invariant
                k <= seen@.len(),
                display@ == people@[i as int].display@,
                seen@.len() == everyone.len(),
                forall|k: int|
                    0 <= k < seen@.len() ==> #[trigger] seen@[k] < people@.len()
                        && people@[seen@[k] as int] == everyone[k],
                known == exists|j: int|
                    0 <= j < k && (#[trigger] everyone[j]).display@ == display@,
            decreases seen@.len() - k,
        {
            assert(people@[seen@[k as int] as int] == everyone[k as int]);
            if same_text(people[seen[k]].display.as_str(), display) {
                known = true;
            }
            k += 1;
        }
        if !known {
            seen.push(i);
            proof {
                everyone = everyone.push(people@[i as int]);
            }
        }
        i += 1;
    }
    assert(people@.take(people@.len() as int) =~= people@);
    // One participant is not a crowd, and shortening it loses information for
    // nothing.
    if seen.len() == 1 {
        assert(people@[seen@[0] as int] == everyone[0]);
        return people[seen[0]].display.clone();
    }
    let mut names: Vec<String> = Vec::new();
    let mut k: usize = 0;
    assert(texts(names@) =~= Seq::<Seq<char>>::empty());
    while k < seen.len()
        invariant
            k <= seen@.len(),
            seen@.len() == everyone.len(),
            forall|k: int|
                0 <= k < seen@.len() ==> #[trigger] seen@[k] < people@.len() && people@[seen@[k] as int]
                    == everyone[k],
            texts(names@) == short_names(everyone.take(k as int)),
        decreases seen@.len() - k,
    {
        let ghost done = texts(names@);
        proof {
            assert(everyone.take(k + 1).drop_last() =~= everyone.take(k as int));
            assert(everyone.take(k + 1).last() == everyone[k as int]);
            assert(people@[seen@[k as int] as int] == everyone[k as int]);
        }
        let name = short_name(&people[seen[k]]);
        let ghost view = name@;
        if name.as_str().unicode_len() > 0 && !contains_name(&names, name.as_str()) {
            names.push(name);
            assert(texts(names@) =~= done.push(view));
        }
        k += 1;
    }
    assert(everyone.take(everyone.len() as int) =~= everyone);
    let ghost all = texts(names@);
    if names.len() <= NAMES_SHOWN {
        return join(names.as_slice(), ", ");
    }
    let mut out = names[0].clone();
    out.append(" .. ");
    let mut last: Vec<String> = Vec::new();
    let from: usize = names.len() - (NAMES_SHOWN - 1);
    let mut j: usize = from;
    while j < names.len()
        invariant
            from <= j <= names@.len(),
            texts(last@) == texts(names@).subrange(from as int, j as int),
        decreases names@.len() - j,
    {
        let ghost done = texts(last@);
        last.push(names[j].clone());
        j += 1;
        assert(texts(last@) =~= done.push(names@[j - 1]@));
        assert(texts(last@) =~= texts(names@).subrange(from as int, j as int));
    }
    assert(texts(last@) =~= all.skip(from as int));
    out.append(join(last.as_slice(), ", ").as_str());
    out
}

proof fn lemma_distinct_keeps(people: Seq<Participant>, display: Seq<char>)
    ensures
        is_among(people, display) == is_among(distinct(people), display),
    decreases people.len(),
{
    if people.len() > 0 {
        let before = people.drop_last();
        let rest = distinct(before);
        lemma_distinct_keeps(before, display);
        assert(people.last() == people[people.len() - 1]);
        if is_among(people, display) {
            let i = choose|i: int|
                0 <= i < people.len() && (#[trigger] people[i]).display@ == display;
            if i < before.len() {
                assert(before[i] == people[i]);
            }
        }
        if is_among(before, display) {
            let i = choose|i: int|
                0 <= i < before.len() && (#[trigger] before[i]).display@ == display;
            assert(people[i] == before[i]);
        }
        if !is_among(rest, people.last().display@) {
            let all = rest.push(people.last());
            assert(all[rest.len() as int] == people.last());
            if is_among(rest, display) {
                let i = choose|i: int|
                    0 <= i < rest.len() && (#[trigger] rest[i]).display@ == display;
                assert(all[i] == rest[i]);
            }
            if is_among(all, display) {
                let i = choose|i: int|
                    0 <= i < all.len() && (#[trigger] all[i]).display@ == display;
                if i < rest.len() {
                    assert(all[i] == rest[i]);
                }
            }
        }
    }
}

/// One person writing again is still one name: somebody who is already in the
/// conversation does not change its line.
pub proof fn lemma_writing_again_changes_nothing(people: Seq<Participant>, again: Participant)
    requires
        is_among(people, again.display@),
    ensures
        participants_line(people.push(again)) == participants_line(people),
{
    lemma_distinct_keeps(people, again.display@);
    assert(people.push(again).drop_last() =~= people);
}

/// No name is said twice, and none is empty.
pub proof fn lemma_names_are_said_once(people: Seq<Participant>)
    ensures
        short_names(people).no_duplicates(),
        forall|i: int| 0 <= i < short_names(people).len() ==> (#[trigger] short_names(people)[i]).len()
            > 0,
    decreases people.len(),
{
    if people.len() > 0 {
        lemma_names_are_said_once(people.drop_last());
    }
}

/// A name is said exactly when it is somebody's short name and is anything at
/// all.
pub proof fn lemma_whose_names_are_said(people: Seq<Participant>, name: Seq<char>)
    ensures
        short_names(people).contains(name) <==> name.len() > 0 && exists|i: int|
            0 <= i < people.len() && short_name_of(#[trigger] people[i]) == name,
    decreases people.len(),
{
    if people.len() > 0 {
        let rest = people.drop_last();
        let before = short_names(rest);
        let all = short_names(people);
        let last = short_name_of(people.last());
        lemma_whose_names_are_said(rest, name);
        assert(people[people.len() - 1] == people.last());
        if before.contains(name) {
            let k = choose|k: int| 0 <= k < before.len() && before[k] == name;
            assert(all[k] == name);
            let i = choose|i: int|
                0 <= i < rest.len() && short_name_of(#[trigger] rest[i]) == name;
            assert(people[i] == rest[i]);
        }
        if all.contains(name) && !before.contains(name) {
            let k = choose|k: int| 0 <= k < all.len() && all[k] == name;
            if k < before.len() {
                assert(before[k] == name);
            }
        }
        if name.len() > 0 && exists|i: int|
            0 <= i < people.len() && short_name_of(#[trigger] people[i]) == name {
            let i = choose|i: int|
                0 <= i < people.len() && short_name_of(#[trigger] people[i]) == name;
            if i < rest.len() {
                assert(rest[i] == people[i]);
            } else if !before.contains(name) {
                assert(all[before.len() as int] == name);
            }
        }
    }
}

/// One voice keeps its whole name, however often it spoke.
pub proof fn lemma_one_voice_keeps_its_name(people: Seq<Participant>, display: Seq<char>)
    requires
        people.len() > 0,
        forall|i: int| 0 <= i < people.len() ==> (#[trigger] people[i]).display@ == display,
    ensures
        participants_line(people) == display,
{
    lemma_distinct_of_one(people, display);
}

proof fn lemma_distinct_of_one(people: Seq<Participant>, display: Seq<char>)
    requires
        people.len() > 0,
        forall|i: int| 0 <= i < people.len() ==> (#[trigger] people[i]).display@ == display,
    ensures
        distinct(people).len() == 1,
        distinct(people)[0].display@ == display,
    decreases people.len(),
{
    let rest = people.drop_last();
    assert(people[people.len() - 1].display@ == display);
    if rest.len() == 0 {
        assert(distinct(rest) =~= Seq::<Participant>::empty());
    } else {
        assert forall|i: int| 0 <= i < rest.len() implies (#[trigger] rest[i]).display@ == display by {
            assert(people[i].display@ == display);
        }
        lemma_distinct_of_one(rest, display);
        assert(distinct(rest)[0].display@ == display);
    }
}

/// Of up to three names every one is said. Of more, who started the
/// conversation and the two who spoke last: the middle is what goes.
pub proof fn lemma_first_and_latest_survive(people: Seq<Participant>)
    requires
        distinct(people).len() > 1,
    ensures
        ({
            let names = short_names(distinct(people));
            let n = names.len() as int;
            &&& n == 1 ==> participants_line(people) == names[0]
            &&& n == 2 ==> participants_line(people) == names[0] + ", "@ + names[1]
            &&& n == 3 ==> participants_line(people) == names[0] + ", "@ + names[1] + ", "@ + names[2]
            &&& n > 3 ==> participants_line(people) == names[0] + " .. "@ + (names[n - 2] + ", "@
                + names[n - 1])
        }),
{
    let names = short_names(distinct(people));
    let n = names.len() as int;
    reveal_with_fuel(joined, 3);
    if n == 2 {
        assert(names.drop_last() =~= seq![names[0]]);
    } else if n == 3 {
        assert(names.drop_last() =~= seq![names[0], names[1]]);
        assert(names.drop_last().drop_last() =~= seq![names[0]]);
    } else if n > 3 {
        let last = names.skip(n - 2);
        assert(last =~= seq![names[n - 2], names[n - 1]]);
        assert(last.drop_last() =~= seq![names[n - 2]]);
    }
}

/// A first name stands for the whole name; of an address what is before the
/// `@` does; quotation marks around a name are not part of it; and where
/// nothing is left the address has to do.
pub proof fn lemma_short_name(person: Participant, word: Seq<char>, quote: char, at: int)
    requires
        word.len() > 0,
        !is_quote(word[0]) && !is_quote(word.last()) && !is_separator(word.last()),
        is_quote(quote),
    ensures
        first_word(person.display@) == word || first_word(person.display@) == seq![quote] + word
            + seq![quote] || first_word(person.display@) == word + seq![','] ==> {
            &&& !word.contains('@') ==> short_name_of(person) == word
            &&& 0 <= at < word.len() && word[at] == '@' && !word.take(at).contains('@')
                ==> short_name_of(person) == word.take(at)
        },
        words_of(person.display@).len() == 0 ==> short_name_of(person) == (
        match person.local_part {
            Some(local) => local@,
            None => person.display@,
        }),
{
    let first = first_word(person.display@);
    reveal_with_fuel(unquoted_start, 2);
    reveal_with_fuel(unquoted_end, 2);
    reveal_with_fuel(unseparated, 2);
    let inside = seq![quote] + word + seq![quote];
    assert(inside.skip(1) =~= word + seq![quote]);
    assert((word + seq![quote]).drop_last() =~= word);
    assert((word + seq![',']).drop_last() =~= word);
    if first == word || first == inside || first == word + seq![','] {
        assert(name_token(person.display@) == word);
        lemma_first_and_last(word, '@');
        if 0 <= at < word.len() && word[at] == '@' && !word.take(at).contains('@') {
            assert forall|i: int| 0 <= i < at implies #[trigger] word[i] != '@' by {
                assert(word.take(at)[i] == word[i]);
            }
            assert(first_index(word, '@') == Some(at));
        }
    }
    if words_of(person.display@).len() == 0 {
        assert(name_token(person.display@) =~= Seq::<char>::empty());
    }
}

} // verus!
