use postio_ui::schedule::{days_until_monday, schedule_presets, LocalTimes, HOUR, MIN_SCHEDULE_LEAD};

/// A day that starts at zero.
const DAY: i128 = 24 * HOUR;

const TIMES: LocalTimes = LocalTimes {
    evening_today: 18 * HOUR,
    evening_tomorrow: DAY + 18 * HOUR,
    morning_tomorrow: DAY + 8 * HOUR,
    morning_monday: 3 * DAY + 8 * HOUR,
};

#[test]
fn the_presets_are_four_moments_ahead() {
    assert_eq!(
        schedule_presets(9 * HOUR, &TIMES),
        vec![
            ("In 1 hour", 10 * HOUR),
            ("This evening", 18 * HOUR),
            ("Tomorrow morning", DAY + 8 * HOUR),
            ("Monday morning", 3 * DAY + 8 * HOUR),
        ]
    );
}

#[test]
fn this_evening_rolls_over_once_it_is_all_but_here() {
    let evening = |now: i128| schedule_presets(now, &TIMES)[1].1;
    assert_eq!(evening(18 * HOUR - MIN_SCHEDULE_LEAD), 18 * HOUR);
    assert_eq!(evening(18 * HOUR - MIN_SCHEDULE_LEAD + 1), DAY + 18 * HOUR);
    assert_eq!(evening(20 * HOUR), DAY + 18 * HOUR);
}

#[test]
fn monday_is_always_ahead() {
    let days: Vec<u32> = (0..7).map(days_until_monday).collect();
    assert_eq!(days, [7, 6, 5, 4, 3, 2, 1]);
}
