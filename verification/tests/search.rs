use postio_ui::search::{backspace, chips, readout, spoken, spoken_readout, Backspace, Elapsed, Outcome};
use postio_ui::search::{Pacer, ParsedQuery, SearchResults, Token};

fn token(raw: &str, field: Option<&str>, start: usize, without: &str) -> Token {
    Token {
        raw: raw.to_owned(),
        field: field.map(str::to_owned),
        negated: raw.starts_with('-'),
        complete: !raw.ends_with(':'),
        start,
        end: start + raw.len(),
        without: without.to_owned(),
    }
}

/// `café from:ada -is:`, as the parser reads it.
fn query() -> ParsedQuery {
    ParsedQuery {
        input: "café from:ada -is:".to_owned(),
        tokens: vec![
            token("café", None, 0, "from:ada -is:"),
            token("from:ada", Some("from"), 6, "café -is:"),
            token("-is:", Some("is"), 15, "café from:ada"),
        ],
    }
}

fn results(hits: u64, millis: u64) -> SearchResults {
    SearchResults {
        total_hits: hits,
        total_hits_capped: false,
        elapsed: Elapsed { secs: millis / 1000, nanos: (millis % 1000) as u32 * 1_000_000 },
        corpus_complete: true,
    }
}

#[test]
fn only_the_operators_are_chips() {
    let query = query();
    let chips = chips(&query);
    assert_eq!(chips.len(), 2);
    assert_eq!((chips[0].index, chips[0].label.as_str()), (1, "from:ada"));
    assert_eq!(spoken(&chips[0]), "from ada");
    assert_eq!((chips[1].index, chips[1].label.as_str()), (2, "-is:"));
    assert_eq!(spoken(&chips[1]), "not is, no value yet");
}

#[test]
fn backspace_takes_out_the_chip_the_caret_is_against() {
    let popped = Backspace::PopChip { index: 1, query: "café -is:".to_owned(), caret: 5 };
    assert_eq!(backspace(&query(), 14), popped, "against its right edge");
    assert_eq!(backspace(&query(), 8), popped, "inside it");
    assert_eq!(
        backspace(&query(), 19),
        Backspace::PopChip { index: 2, query: "café from:ada".to_owned(), caret: 14 }
    );
}

#[test]
fn backspace_is_ordinary_everywhere_else() {
    assert_eq!(backspace(&query(), 6), Backspace::Ordinary, "before the chip, not in it");
    assert_eq!(backspace(&query(), 3), Backspace::Ordinary, "free text is never popped whole");
    assert_eq!(backspace(&query(), 99), Backspace::Ordinary);
    let empty = ParsedQuery { input: String::new(), tokens: vec![] };
    assert_eq!(backspace(&empty, 0), Backspace::Ordinary);
}

#[test]
fn the_readout_counts_and_times() {
    assert_eq!(readout(&Outcome::of(&results(14, 11))), "14 hits · 11 ms");
    assert_eq!(readout(&Outcome::of(&results(1, 0))), "1 hit · <1 ms");
    assert_eq!(readout(&Outcome::of(&results(0, 9_999))), "no hits · 9999 ms");
    assert_eq!(readout(&Outcome::of(&results(0, 12_340))), "no hits · 12.3 s");
}

#[test]
fn a_floor_never_passes_for_a_total() {
    let capped = SearchResults { total_hits_capped: true, ..results(10_000, 3) };
    assert_eq!(readout(&Outcome::of(&capped)), "10000+ hits · 3 ms");
}

#[test]
fn every_caveat_is_said() {
    let outcome = Outcome::of(&results(2, 3)).with_reindexing(true).with_unreachable(vec!["Work".to_owned()]);
    assert_eq!(readout(&outcome), "2 hits · 3 ms · still syncing · Work unreachable");
    let several = vec!["Work".to_owned(), "Home".to_owned()];
    let outcome = Outcome::of(&results(2, 3)).with_unreachable(several);
    assert_eq!(readout(&outcome), "2 hits · 3 ms · 2 unreachable");
    assert_eq!(
        spoken_readout(&outcome),
        "2 hits, in 3 milliseconds. Work and Home could not be searched, so this answer may be short."
    );
}

#[test]
fn the_spoken_readout_says_the_time_in_words() {
    assert_eq!(spoken_readout(&Outcome::of(&results(1, 0))), "1 hit, in under a millisecond");
    assert_eq!(spoken_readout(&Outcome::of(&results(0, 1))), "no hits, in 1 millisecond");
    let filling = SearchResults { corpus_complete: false, ..results(3, 2) };
    assert_eq!(
        spoken_readout(&Outcome::of(&filling)),
        "3 hits, in 2 milliseconds. This account is still syncing, so messages whose text has \
         not arrived yet could not be searched."
    );
}

#[test]
fn a_reindex_leaves_a_finished_corpus_unfinished_and_nothing_else() {
    assert!(Outcome::of(&results(1, 1)).with_reindexing(false).corpus_complete);
    assert!(!Outcome::of(&results(1, 1)).with_reindexing(true).corpus_complete);
    assert!(!Outcome::default().corpus_complete);
}

#[test]
fn only_the_newest_question_is_answered() {
    let mut pacer = Pacer::default();
    let first = pacer.issue();
    assert!(pacer.accepts(first));
    let second = pacer.issue();
    assert!(!pacer.accepts(first), "an older answer is thrown away");
    assert!(pacer.accepts(second));
    pacer.abandon();
    assert!(!pacer.accepts(second), "nothing is outstanding any more");
    assert!(pacer.issued() > second);
}
