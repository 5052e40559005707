//! When a scheduled send can be asked to leave: the picker's four times.
//!
//! Moments are nanoseconds since an epoch. What a wall-clock time is in the
//! machine's own zone is looked up by the caller; which of the times are
//! offered is decided here.
use vstd::prelude::*;

verus! {

/// A preset must land at least this far ahead of now to be offered as "today"
/// rather than rolling to tomorrow, in nanoseconds: five minutes.
pub const MIN_SCHEDULE_LEAD: i128 = 300_000_000_000;

/// One hour, in nanoseconds.
pub const HOUR: i128 = 3_600_000_000_000;

/// The wall-clock moments the presets are picked from. A wall-clock time that
/// the day does not have, or has twice, is given as the moment of that day
/// the picker was opened at.
#[derive(Debug, Clone, Copy, PartialEq, Eq, Structural)]
pub struct LocalTimes {
    /// Six in the evening, today.
    pub evening_today: i128,
    /// Six in the evening, tomorrow.
    pub evening_tomorrow: i128,
    /// Eight in the morning, tomorrow.
    pub morning_tomorrow: i128,
    /// Eight in the morning, on the Monday that is
    /// [`days_until_monday`] away.
    pub morning_monday: i128,
}

/// How many days away the next Monday is, counted from the weekday that is
/// `days_from_monday` after one. Always a Monday strictly after today: on a
/// Monday it is next week's.
pub fn days_until_monday(days_from_monday: u32) -> (out: u32)
    requires
        days_from_monday <= 6,
    ensures
        1 <= out <= 7,
        (days_from_monday + out) % 7 == 0,
{
    if days_from_monday == 0 {
        7
    } else {
        7 - days_from_monday
    }
}

/// The times the picker offers.
pub open spec fn presets(now: int, times: LocalTimes) -> Seq<(Seq<char>, int)> {
    let evening = if times.evening_today < now + MIN_SCHEDULE_LEAD {
        times.evening_tomorrow as int
    } else {
        times.evening_today as int
    };
    seq![
        ("In 1 hour"@, now + HOUR),
        ("This evening"@, evening),
        ("Tomorrow morning"@, times.morning_tomorrow as int),
        ("Monday morning"@, times.morning_monday as int),
    ]
}

/// The fixed times the schedule-send picker offers, computed against `now` —
/// recomputed every time the picker opens rather than once.
///
/// "This evening" rolls to tomorrow once 6pm today is behind `now`, or so
/// close that it would be gone.
pub fn schedule_presets(now: i128, times: &LocalTimes) -> (out: Vec<(&'static str, i128)>)
    requires
        now + HOUR <= i128::MAX,
    ensures
        out@.len() == 4,
        forall|i: int|
            0 <= i < 4 ==> ((#[trigger] out@[i]).0@, out@[i].1 as int) == presets(
                now as int,
                *times,
            )[i],
{
    let evening: i128 = if times.evening_today < now + MIN_SCHEDULE_LEAD {
        times.evening_tomorrow
    } else {
        times.evening_today
    };
    vec![
        ("In 1 hour", now + HOUR),
        ("This evening", evening),
        ("Tomorrow morning", times.morning_tomorrow),
        ("Monday morning", times.morning_monday),
    ]
}

/// Every time offered lies ahead, when the wall-clock times of the days to
/// come do.
pub proof fn lemma_presets_lie_ahead(now: int, times: LocalTimes, i: int)
    requires
        0 <= i < 4,
        now + MIN_SCHEDULE_LEAD <= times.evening_tomorrow,
        now < times.morning_tomorrow,
        now < times.morning_monday,
    ensures
        presets(now, times)[i].1 > now,
{
}

/// The first time offered is an hour from now to the nanosecond. The second is
/// six this evening while that is five minutes off at least, and tomorrow's
/// otherwise. The others are the mornings they say.
pub proof fn lemma_what_is_offered(now: int, times: LocalTimes)
    ensures
        presets(now, times).len() == 4,
        presets(now, times)[0].1 - now == 60 * 60 * 1_000_000_000,
        times.evening_today - now >= 5 * 60 * 1_000_000_000 ==> presets(now, times)[1].1
            == times.evening_today,
        times.evening_today - now < 5 * 60 * 1_000_000_000 ==> presets(now, times)[1].1
            == times.evening_tomorrow,
        presets(now, times)[2].1 == times.morning_tomorrow,
        presets(now, times)[3].1 == times.morning_monday,
{
}

} // verus!
