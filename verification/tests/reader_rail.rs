use postio_ui::reader::rail::{current, rows, LENGTH_THRESHOLD};

/// How much of a message at `top`, `height` tall, a viewport of `view` at
/// `scroll` shows: a measure that orders areas.
fn visible(top: f64, height: f64, scroll: f64, view: f64) -> u64 {
    let shown = (top + height).min(scroll + view) - top.max(scroll);
    if shown > 0.0 {
        shown.to_bits()
    } else {
        0
    }
}

#[test]
fn a_length_below_the_threshold_is_not_worth_saying() {
    let rows = rows(
        &["Ada".to_owned(), "Grace".to_owned()],
        &[Some(LENGTH_THRESHOLD - 1), Some(LENGTH_THRESHOLD)],
    );
    assert_eq!(rows[0].length, None, "a short message shows no length");
    assert_eq!(rows[1].length, Some(LENGTH_THRESHOLD));
}

#[test]
fn a_body_that_has_not_arrived_has_no_length_rather_than_zero() {
    let rows = rows(&["Ada".to_owned()], &[None]);
    assert_eq!(rows[0].length, None);
    assert_eq!(rows[0].position, 1, "the row exists without a body");
}

#[test]
fn rows_are_numbered_as_a_person_counts() {
    let rows = rows(&["Ada".to_owned(), "Grace".to_owned()], &[None, None]);
    assert_eq!(
        rows.iter().map(|row| row.position).collect::<Vec<_>>(),
        vec![1, 2]
    );
}

#[test]
fn the_essay_wins_over_the_fully_visible_reply() {
    let reply = visible(0.0, 40.0, 0.0, 1000.0);
    let essay = visible(40.0, 2000.0, 0.0, 1000.0);
    assert_eq!(current(&[reply, essay]), Some(1));
}

#[test]
fn a_message_entirely_off_screen_counts_for_nothing() {
    let above = visible(0.0, 100.0, 100.0, 100.0);
    let showing = visible(100.0, 100.0, 100.0, 100.0);
    assert_eq!(current(&[above, showing]), Some(1));
}

#[test]
fn nothing_visible_is_a_real_answer() {
    assert_eq!(current(&[visible(0.0, 50.0, 500.0, 100.0)]), None);
    assert_eq!(current(&[]), None);
}

#[test]
fn a_tie_goes_to_the_earlier_message() {
    let first = visible(0.0, 50.0, 0.0, 100.0);
    let second = visible(50.0, 50.0, 0.0, 100.0);
    assert_eq!(current(&[first, second]), Some(0));
}

#[test]
fn a_thread_with_more_senders_than_lengths_still_has_every_row() {
    let rows = rows(&["Ada".to_owned(), "Grace".to_owned()], &[Some(99)]);
    assert_eq!(rows.len(), 2);
    assert_eq!(rows[0].length, Some(99));
    assert_eq!(rows[1].length, None);
}
