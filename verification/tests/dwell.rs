use postio_ui::dwell::{on_cursor, Arm, DWELL_TO_READ};

#[test]
fn landing_on_a_message_starts_a_clock_on_that_message() {
    assert_eq!(
        on_cursor(Some(7)),
        Arm::Start {
            message: 7,
            after: DWELL_TO_READ
        }
    );
}

#[test]
fn a_cursor_on_nothing_arms_nothing() {
    assert_eq!(on_cursor(None), Arm::Cancel);
}

#[test]
fn the_delay_separates_a_sweep_from_a_read() {
    assert!(DWELL_TO_READ > 300);
    assert!(DWELL_TO_READ <= 2_000);
}
