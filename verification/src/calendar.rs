//! Which moments there are, and how each is stored, field by field.
use vstd::prelude::*;

use crate::time;
use crate::time::{DateTime, Packed};

verus! {

/// A moment exists exactly if its month, its day, its hour, its minute, its
/// second and its millisecond do: April, June, September and November have 30
/// days, February has 28, or 29 in every fourth year, but not in one of a
/// hundred unless it is one of four hundred; and the others have 31.
pub proof fn lemma_existing_moments(at: DateTime)
    ensures
        at.exists_in_calendar() <==> {
            let year = at.year as int;
            let leap = year % 400 == 0 || year % 4 == 0 && year % 100 != 0;
            &&& 1 <= at.month <= 12
            &&& 1 <= at.day <= 31
            &&& at.month == 4 || at.month == 6 || at.month == 9 || at.month == 11 ==> at.day <= 30
            &&& at.month == 2 ==> at.day <= if leap {
                29int
            } else {
                28
            }
            &&& at.hour < 24
            &&& at.minute < 60
            &&& at.second < 60
            &&& at.millisecond < 1000
        },
        time::leap(at.year as int) <==> at.year % 400 == 0 || at.year % 4 == 0 && at.year % 100
            != 0,
{
}

/// A moment of the years 1980 to 2107 is stored field by field: the years from
/// 1980 above the month and the day, the hour above the minute and half the
/// second, and the odd second with the hundredths.
pub proof fn lemma_stored_fields(at: DateTime)
    requires
        at.exists_in_calendar(),
        1980 <= at.year <= 2107,
    ensures
        at.packed().date == (at.year - 1980) * 512 + at.month * 32 + at.day,
        at.packed().time == at.hour * 2048 + at.minute * 32 + at.second / 2,
        at.packed().hundredths == at.second % 2 * 100 + at.millisecond / 10,
{
    time::lemma_packed_fields(at);
    lemma_existing_moments(at);
}

/// A moment before 1980 is stored as the first there is, and one after 2107 as
/// the last.
pub proof fn lemma_stored_bounds(at: DateTime)
    ensures
        at.year < 1980 ==> at.packed() == (Packed { date: 33, time: 0, hundredths: 0 }),
        at.year > 2107 ==> at.packed() == (Packed { date: 65439, time: 49021, hundredths: 199 }),
{
    let last = DateTime {
        year: 2107,
        month: 12,
        day: 31,
        hour: 23,
        minute: 59,
        second: 59,
        millisecond: 990,
    };
    let first = DateTime {
        year: 1980,
        month: 1,
        day: 1,
        hour: 0,
        minute: 0,
        second: 0,
        millisecond: 0,
    };
    lemma_stored_fields(last);
    lemma_stored_fields(first);
    time::lemma_pack_clamps(at);
}

/// Seconds are counted from the start of 1970: a day has 86400, and the first
/// of a month follows on the last of the month before.
pub proof fn lemma_counted_seconds(at: DateTime)
    requires
        at.exists_in_calendar(),
    ensures
        at.year == 1970 && at.month == 1 && at.day == 1 ==> at.unix_seconds() == 3600 * at.hour + 60
            * at.minute + at.second,
        at.unix_seconds() == (DateTime { hour: 0, minute: 0, second: 0, ..at }).unix_seconds()
            + 3600 * at.hour + 60 * at.minute + at.second,
        at.day > 1 ==> at.unix_seconds() == (DateTime { day: (at.day - 1) as u8, ..at }).unix_seconds()
            + 86400,
        at.day == 1 && at.month > 1 ==> {
            let before = (at.month - 1) as u8;
            let last = if before == 4 || before == 6 || before == 9 || before == 11 {
                30u8
            } else if before != 2 {
                31u8
            } else if at.year % 400 == 0 || at.year % 4 == 0 && at.year % 100 != 0 {
                29u8
            } else {
                28u8
            };
            at.unix_seconds() == (DateTime { month: before, day: last, ..at }).unix_seconds() + 86400
        },
        at.day == 1 && at.month == 1 && at.year > 0 ==> at.unix_seconds() == (DateTime {
            year: (at.year - 1) as u16,
            month: 12,
            day: 31,
            ..at
        }).unix_seconds() + 86400,
{
    let (year, month, day) = (at.year as int, at.month as int, at.day as int);
    time::lemma_day_number(year, month, day);
    time::lemma_day_number(1970, 1, 1);
    if at.day > 1 {
        time::lemma_day_number(year, month, day - 1);
    } else if at.month > 1 {
        let last = time::month_days(year, month - 1);
        time::lemma_day_number(year, month - 1, last);
    } else if at.year > 0 {
        time::lemma_day_number(year - 1, 12, 31);
        reveal_with_fuel(time::days_to_month, 13);
    }
}

/// What counting back gives is the moment that was counted, or the nearest
/// that can be stored.
pub proof fn lemma_counted_back(seconds: i64, at: DateTime)
    requires
        call_ensures(DateTime::from_unix_seconds, (seconds,), at),
    ensures
        at.exists_in_calendar(),
        1980 <= at.year <= 2107,
        315_532_800 <= seconds <= 4_354_819_199 ==> at.unix_seconds() == seconds && at.millisecond
            == 0,
        seconds < 315_532_800 ==> at.unix_seconds() == 315_532_800,
        seconds > 4_354_819_199 ==> at.unix_seconds() == 4_354_819_199,
{
    time::lemma_unix_bounds(at);
}

} // verus!
