//! Dates and times, in the shape FAT stores them.
//!
//! A stored time counts years from 1980 in seven bits, keeps only even
//! seconds in its main field, and puts the odd second beside the hundredths
//! of the creation time. A date of all zero bits is no date at all.
use vstd::prelude::*;

verus! {

/// The first year a stored date can hold.
pub const FIRST_YEAR: u16 = 1980;

/// The last year a stored date can hold.
pub const LAST_YEAR: u16 = 2107;

/// Days from the first of January 1970 to the first of January 1980.
pub const UNIX_TO_FAT_DAYS: i64 = 3652;

/// The first second of 1980, counted from 1970.
pub const FIRST_SECOND: i64 = 315_532_800;

/// The first second of 2108, counted from 1970.
pub const END_SECOND: i64 = 4_354_819_200;

/// Where a volume gets the time it stamps on what it writes.
pub trait Clock {
    /// The answers the clock may give.
    closed spec fn may_say(&self, now: DateTime) -> bool {
        arbitrary()
    }

    /// The time now. Two calls may answer differently.
    fn now(&self) -> (now: DateTime)
        ensures
            self.may_say(now),
    ;
}

/// A clock that always says the first of January 1980.
#[derive(Debug, Clone, Copy, Default)]
pub struct EpochClock;

impl Clock for EpochClock {
    open spec fn may_say(&self, now: DateTime) -> bool {
        now == DateTime::EPOCH()
    }

    fn now(&self) -> (now: DateTime) {
        DateTime::EPOCH()
    }
}

/// A clock made of a function.
#[derive(Debug)]
pub struct FnClock<F: Fn() -> DateTime>(F);

impl<F: Fn() -> DateTime> FnClock<F> {
    /// The function can be called.
    #[verifier::type_invariant]
    closed spec fn callable(self) -> bool {
        call_requires(self.0, ())
    }

    /// The function the clock asks.
    pub closed spec fn function(self) -> F {
        self.0
    }

    /// A clock that asks `now`.
    pub fn new(now: F) -> (clock: Self)
        requires
            call_requires(now, ()),
        ensures
            clock.function() == now,
    {
        FnClock(now)
    }
}

impl<F: Fn() -> DateTime> Clock for FnClock<F> {
    open spec fn may_say(&self, now: DateTime) -> bool {
        call_ensures(self.function(), (), now)
    }

    fn now(&self) -> (now: DateTime) {
        proof {
            use_type_invariant(self);
        }
        (self.0)()
    }
}

/// A date and a time of day.
#[derive(Debug, Clone, Copy, PartialEq, Eq, PartialOrd, Ord, Structural)]
pub struct DateTime {
    /// The year.
    pub year: u16,
    /// The month, from 1.
    pub month: u8,
    /// The day of the month, from 1.
    pub day: u8,
    /// The hour, up to 23.
    pub hour: u8,
    /// The minute, up to 59.
    pub minute: u8,
    /// The second, up to 59.
    pub second: u8,
    /// The millisecond, up to 999.
    pub millisecond: u16,
}

/// A date and time as a directory entry stores it.
#[derive(Debug, Clone, Copy, PartialEq, Eq, Structural)]
pub struct Packed {
    /// Seven bits of year, four of month, five of day.
    pub date: u16,
    /// Five bits of hour, six of minute, five of half the second.
    pub time: u16,
    /// The odd second and the hundredths, together up to 199.
    pub hundredths: u8,
}

/// Whether a year has a 29th of February.
pub open spec fn leap(year: int) -> bool {
    year % 4 == 0 && (year % 100 != 0 || year % 400 == 0)
}

/// The days of a year.
pub open spec fn year_days(year: int) -> int {
    if leap(year) {
        366
    } else {
        365
    }
}

/// The days of a month.
pub open spec fn month_days(year: int, month: int) -> int {
    if month == 2 {
        if leap(year) {
            29
        } else {
            28
        }
    } else if month == 4 || month == 6 || month == 9 || month == 11 {
        30
    } else if 1 <= month <= 12 {
        31
    } else {
        0
    }
}

/// The days of all years from 0 up to `year`.
pub open spec fn days_to_year(year: int) -> int
    decreases year,
{
    if year <= 0 {
        0
    } else {
        days_to_year(year - 1) + year_days(year - 1)
    }
}

/// The days of a year's months before `month`.
pub open spec fn days_to_month(year: int, month: int) -> int
    decreases month,
{
    if month <= 1 {
        0
    } else {
        days_to_month(year, month - 1) + month_days(year, month - 1)
    }
}

/// How many days a date is after the first of January 1970.
pub open spec fn day_number(year: int, month: int, day: int) -> int {
    days_to_year(year) + days_to_month(year, month) + day - 1 - days_to_year(1970)
}

/// The same count by closed formulas, for any month and day: years are
/// taken to start in March, and 400 of them repeat.
pub open spec fn civil_days(year: int, month: int, day: int) -> int {
    let y = if month <= 2 {
        year - 1
    } else {
        year
    } + 400;
    let m = if month > 2 {
        month - 3
    } else {
        month + 9
    };
    let of_era = y % 400;
    y / 400 * 146_097 + of_era * 365 + of_era / 4 - of_era / 100 + (153 * m + 2) / 5 + day - 1
        - 719_468 - 146_097
}

impl DateTime {
    /// The first moment a stored date can hold.
    #[allow(non_snake_case)]
    #[verifier::allow_in_spec]
    pub fn EPOCH() -> DateTime
        returns
            (DateTime {
                year: 1980,
                month: 1,
                day: 1,
                hour: 0,
                minute: 0,
                second: 0,
                millisecond: 0,
            }),
    {
        DateTime { year: 1980, month: 1, day: 1, hour: 0, minute: 0, second: 0, millisecond: 0 }
    }

    /// The last moment a stored date can hold.
    #[allow(non_snake_case)]
    #[verifier::allow_in_spec]
    pub fn LATEST() -> DateTime
        returns
            (DateTime {
                year: 2107,
                month: 12,
                day: 31,
                hour: 23,
                minute: 59,
                second: 59,
                millisecond: 990,
            }),
    {
        DateTime {
            year: 2107,
            month: 12,
            day: 31,
            hour: 23,
            minute: 59,
            second: 59,
            millisecond: 990,
        }
    }

    /// The date exists, and so does the time of day.
    pub open spec fn exists_in_calendar(self) -> bool {
        &&& 1 <= self.month <= 12
        &&& 1 <= self.day <= month_days(self.year as int, self.month as int)
        &&& self.hour <= 23
        &&& self.minute <= 59
        &&& self.second <= 59
        &&& self.millisecond <= 999
    }

    /// Whether one moment comes before another, field by field.
    pub open spec fn before(self, other: DateTime) -> bool {
        if self.year != other.year {
            self.year < other.year
        } else if self.month != other.month {
            self.month < other.month
        } else if self.day != other.day {
            self.day < other.day
        } else if self.hour != other.hour {
            self.hour < other.hour
        } else if self.minute != other.minute {
            self.minute < other.minute
        } else if self.second != other.second {
            self.second < other.second
        } else {
            self.millisecond < other.millisecond
        }
    }

    /// The moment moved to the nearest one a stored date can hold.
    pub open spec fn clamped(self) -> DateTime {
        if self.before(DateTime::EPOCH()) {
            DateTime::EPOCH()
        } else if DateTime::LATEST().before(self) {
            DateTime::LATEST()
        } else {
            self
        }
    }

    /// The moment as it is stored.
    pub open spec fn packed(self) -> Packed {
        let at = self.clamped();
        Packed {
            date: ((((at.year - 1980) as u16) << 9) | ((at.month as u16) << 5) | (at.day as u16)),
            time: (((at.hour as u16) << 11) | ((at.minute as u16) << 5) | ((at.second / 2) as u16)),
            hundredths: (((at.second % 2) * 100 + at.millisecond / 10 % 256) % 256) as u8,
        }
    }

    /// The moment a stored time stands for.
    pub open spec fn unpacked(packed: Packed) -> DateTime {
        if packed.date == 0 {
            DateTime::EPOCH()
        } else {
            let hundredths = if packed.hundredths > 199 {
                199u8
            } else {
                packed.hundredths
            };
            DateTime {
                year: (1980 + packed.date / 512) as u16,
                month: (packed.date / 32 % 16) as u8,
                day: (packed.date % 32) as u8,
                hour: (packed.time / 2048) as u8,
                minute: (packed.time / 32 % 64) as u8,
                second: (packed.time % 32 * 2 + hundredths / 100) as u8,
                millisecond: (hundredths % 100 * 10) as u16,
            }
        }
    }

    /// A date and time, if there is such a one.
    pub fn new(
        year: u16,
        month: u8,
        day: u8,
        hour: u8,
        minute: u8,
        second: u8,
        millisecond: u16,
    ) -> (result: Option<Self>)
        ensures
            ({
                let at = DateTime { year, month, day, hour, minute, second, millisecond };
                result == (if at.exists_in_calendar() {
                    Some(at)
                } else {
                    None
                })
            }),
    {
        if month < 1 || month > 12 || day < 1 || day > days_in_month(year, month) || hour > 23
            || minute > 59 || second > 59 || millisecond > 999 {
            return None;
        }
        Some(DateTime { year, month, day, hour, minute, second, millisecond })
    }

    /// The moment `seconds` after the first of January 1970, moved to the
    /// nearest one a stored date can hold.
    pub fn from_unix_seconds(seconds: i64) -> (at: Self)
        ensures
            seconds < FIRST_SECOND ==> at == DateTime::EPOCH(),
            seconds >= END_SECOND ==> at == DateTime::LATEST(),
            FIRST_SECOND <= seconds < END_SECOND ==> {
                &&& at.exists_in_calendar()
                &&& at.millisecond == 0
                &&& at.unix_seconds() == seconds
            },
    {
        if seconds < FIRST_SECOND {
            return DateTime::EPOCH();
        }
        if seconds >= END_SECOND {
            return DateTime::LATEST();
        }
        let seconds: u64 = seconds as u64;
        let rest: u64 = seconds % 86_400;
        let (year, month, day) = civil_from_days((seconds / 86_400) as u32);
        proof {
            lemma_day_number(year as int, month as int, day as int);
        }
        DateTime {
            year,
            month,
            day,
            hour: (rest / 3600) as u8,
            minute: (rest / 60 % 60) as u8,
            second: (rest % 60) as u8,
            millisecond: 0,
        }
    }

    /// How many seconds the moment is after the first of January 1970.
    pub open spec fn unix_seconds(self) -> int {
        civil_days(self.year as int, self.month as int, self.day as int) * 86_400 + self.hour
            * 3600 + self.minute * 60 + self.second
    }

    /// How many seconds the moment is after the first of January 1970.
    pub fn to_unix_seconds(&self) -> (seconds: i64)
        ensures
            seconds == self.unix_seconds(),
            self.exists_in_calendar() ==> seconds == day_number(
                self.year as int,
                self.month as int,
                self.day as int,
            ) * 86_400 + self.hour * 3600 + self.minute * 60 + self.second,
    {
        proof {
            if self.exists_in_calendar() {
                lemma_day_number(self.year as int, self.month as int, self.day as int);
            }
        }
        days_from_civil(self.year, self.month, self.day) * 86_400 + self.hour as i64 * 3600
            + self.minute as i64 * 60 + self.second as i64
    }

    /// How many days the date is after the first of January 1980.
    pub fn days_since_fat_epoch(&self) -> (days: i64)
        ensures
            days == civil_days(self.year as int, self.month as int, self.day as int)
                - UNIX_TO_FAT_DAYS,
            self.exists_in_calendar() ==> days == day_number(
                self.year as int,
                self.month as int,
                self.day as int,
            ) - day_number(1980, 1, 1),
    {
        proof {
            lemma_day_number(1980, 1, 1);
            if self.exists_in_calendar() {
                lemma_day_number(self.year as int, self.month as int, self.day as int);
            }
        }
        days_from_civil(self.year, self.month, self.day) - UNIX_TO_FAT_DAYS
    }

    /// Whether this moment comes before `other`.
    fn is_before(&self, other: &DateTime) -> (yes: bool)
        ensures
            yes == self.before(*other),
    {
        if self.year != other.year {
            self.year < other.year
        } else if self.month != other.month {
            self.month < other.month
        } else if self.day != other.day {
            self.day < other.day
        } else if self.hour != other.hour {
            self.hour < other.hour
        } else if self.minute != other.minute {
            self.minute < other.minute
        } else if self.second != other.second {
            self.second < other.second
        } else {
            self.millisecond < other.millisecond
        }
    }

    /// The nearest moment a stored date can hold.
    fn clamp_to_fat(&self) -> (at: Self)
        ensures
            at == self.clamped(),
            1980 <= at.year <= 2107,
    {
        let epoch = DateTime::EPOCH();
        let latest = DateTime::LATEST();
        if self.is_before(&epoch) {
            epoch
        } else if latest.is_before(self) {
            latest
        } else {
            *self
        }
    }

    /// The moment as a directory entry stores it. A moment outside the years
    /// a stored date can hold is moved to the nearest one inside them.
    pub fn pack(&self) -> (packed: Packed)
        ensures
            packed == self.packed(),
    {
        let at = self.clamp_to_fat();
        let hundredths: u16 = (at.second % 2) as u16 * 100 + at.millisecond / 10 % 256;
        Packed {
            date: ((at.year - FIRST_YEAR) << 9) | ((at.month as u16) << 5) | (at.day as u16),
            time: ((at.hour as u16) << 11) | ((at.minute as u16) << 5) | ((at.second / 2) as u16),
            hundredths: (hundredths % 256) as u8,
        }
    }

    /// The moment a directory entry's fields stand for. A date of all zero
    /// bits is taken for the first of January 1980.
    pub fn unpack(packed: Packed) -> (at: Self)
        ensures
            at == DateTime::unpacked(packed),
    {
        if packed.date == 0 {
            return DateTime::EPOCH();
        }
        let hundredths: u8 = if packed.hundredths > 199 {
            199
        } else {
            packed.hundredths
        };
        DateTime {
            year: FIRST_YEAR + packed.date / 512,
            month: (packed.date / 32 % 16) as u8,
            day: (packed.date % 32) as u8,
            hour: (packed.time / 2048) as u8,
            minute: (packed.time / 32 % 64) as u8,
            second: (packed.time % 32 * 2) as u8 + hundredths / 100,
            millisecond: (hundredths % 100) as u16 * 10,
        }
    }
}

impl Default for DateTime {
    /// The first of January 1980.
    fn default() -> (at: Self)
        ensures
            at == DateTime::EPOCH(),
    {
        DateTime::EPOCH()
    }
}

/// Whether a year has a 29th of February.
pub fn is_leap_year(year: u16) -> (yes: bool)
    ensures
        yes == leap(year as int),
{
    year % 4 == 0 && (year % 100 != 0 || year % 400 == 0)
}

/// The days of a month; none, where there is no such month.
fn days_in_month(year: u16, month: u8) -> (days: u8)
    ensures
        days == month_days(year as int, month as int),
{
    if month == 2 {
        if is_leap_year(year) {
            29
        } else {
            28
        }
    } else if month == 4 || month == 6 || month == 9 || month == 11 {
        30
    } else if 1 <= month && month <= 12 {
        31
    } else {
        0
    }
}

/// How many days a date is after the first of January 1970.
fn days_from_civil(year: u16, month: u8, day: u8) -> (days: i64)
    ensures
        days == civil_days(year as int, month as int, day as int),
        -1_000_000 <= days <= 30_000_000,
{
    let y: i64 = (if month <= 2 {
        year as i64 - 1
    } else {
        year as i64
    }) + 400;
    let m: i64 = if month > 2 {
        month as i64 - 3
    } else {
        month as i64 + 9
    };
    let of_era: i64 = y % 400;
    y / 400 * 146_097 + of_era * 365 + of_era / 4 - of_era / 100 + (153 * m + 2) / 5 + day as i64
        - 1 - 719_468 - 146_097
}

/// The date that is `days` days after the first of January 1970, for a day
/// in the years a stored date can hold.
#[verifier::rlimit(40)]
fn civil_from_days(days: u32) -> (date: (u16, u8, u8))
    requires
        3652 <= days < 50_404,
    ensures
        1 <= date.1 <= 12,
        1 <= date.2 <= month_days(date.0 as int, date.1 as int),
        civil_days(date.0 as int, date.1 as int, date.2 as int) == days,
{
    let shifted: u32 = days + 719_468;
    let era: u32 = shifted / 146_097;
    let of_era: u32 = shifted % 146_097;
    proof {
        lemma_year_of_era(of_era);
    }
    let year_of_era: u32 = (of_era - of_era / 1460 + of_era / 36_524 - of_era / 146_096) / 365;
    let of_year: u32 = of_era - (365 * year_of_era + year_of_era / 4 - year_of_era / 100);
    let index: u32 = (5 * of_year + 2) / 153;
    let day: u32 = of_year - (153 * index + 2) / 5 + 1;
    let month: u32 = if index < 10 {
        index + 3
    } else {
        index - 9
    };
    let year: u32 = year_of_era + 400 * era + if month <= 2 {
        1
    } else {
        0
    };
    proof {
        lemma_month_of_year(of_year as int, year as int);
        if month == 2 {
            lemma_leap_repeats(year_of_era + 1, era as int);
        }
        lemma_civil_day(year_of_era as int, era as int, index as int, day as int);
    }
    (year as u16, month as u8, day as u8)
}

/// Leap years repeat every 400 years.
proof fn lemma_leap_repeats(year: int, era: int)
    ensures
        leap(year + 400 * era) == leap(year),
{
}

/// The day that a date is, from the year, counted from March in its 400, and
/// the month, counted from March too.
proof fn lemma_civil_day(of_era: int, era: int, index: int, day: int)
    requires
        0 <= of_era < 400,
        0 <= era,
        0 <= index <= 11,
    ensures
        ({
            let month = if index < 10 {
                index + 3
            } else {
                index - 9
            };
            let year = of_era + 400 * era + if month <= 2 {
                1int
            } else {
                0
            };
            civil_days(year, month, day) == 146_097 * era + 365 * of_era + of_era / 4 - of_era / 100
                + (153 * index + 2) / 5 + day - 1 - 719_468
        }),
{
    lemma_march_count(of_era, era);
}

/// A year that starts in March, counted by the 400 that repeat.
proof fn lemma_march_count(of_era: int, era: int)
    requires
        0 <= of_era < 400,
        0 <= era,
    ensures
        (of_era + 400 * era + 400) / 400 == era + 1,
        (of_era + 400 * era + 400) % 400 == of_era,
{
}

/// The month and the day a day of a year that starts in March falls on.
proof fn lemma_month_of_year(day: int, year: int)
    requires
        0 <= day <= 365,
    ensures
        ({
            let index = (5 * day + 2) / 153;
            let of_month = day - (153 * index + 2) / 5 + 1;
            let month = if index < 10 {
                index + 3
            } else {
                index - 9
            };
            &&& 0 <= index <= 11
            &&& 1 <= of_month
            &&& month != 2 ==> of_month <= month_days(year, month)
            &&& month == 2 ==> of_month <= 29
            &&& month == 2 && of_month == 29 ==> day == 365
        }),
{
}

/// The year a day falls in, of the 400 that repeat: the days before that
/// year are no more than the day, and fewer than a year's days short of it.
proof fn lemma_year_of_era(day: u32)
    requires
        day < 146_097,
    ensures
        ({
            let year = (day - day / 1460 + day / 36_524 - day / 146_096) / 365;
            let before = 365 * year + year / 4 - year / 100;
            &&& 0 <= year < 400
            &&& before <= day
            &&& day - before <= 365
            &&& day - before == 365 ==> leap(year + 1)
        }),
{
    assert({
        let year = (day - day / 1460u32 + day / 36_524u32 - day / 146_096u32) / 365;
        let before = 365 * year + year / 4 - year / 100;
        &&& 0 <= year < 400
        &&& before <= day
        &&& day - before <= 365
        &&& day - before == 365 ==> (year + 1) % 4 == 0 && ((year + 1) % 100 != 0 || (year + 1)
            % 400 == 0)
    }) by (bit_vector)
        requires
            day < 146_097,
    ;
}

/// The days of the years before a year, in closed form.
proof fn lemma_days_to_year(year: int)
    requires
        0 <= year,
    ensures
        days_to_year(year) == 365 * year + (year + 3) / 4 - (year + 99) / 100 + (year + 399) / 400,
    decreases year,
{
    if year > 0 {
        let last = year - 1;
        lemma_days_to_year(last);
        lemma_multiples_of_4(last);
        lemma_multiples_of_100(last);
        lemma_multiples_of_400(last);
        lemma_multiples_of_multiples(last);
        assert(days_to_year(year) == days_to_year(last) + year_days(last));
    }
}

/// What the count of multiples of 4 gains at a year.
proof fn lemma_multiples_of_4(year: int)
    requires
        0 <= year,
    ensures
        (year + 4) / 4 == (year + 3) / 4 + if year % 4 == 0 {
            1int
        } else {
            0
        },
{
    assert((year + 4) / 4 == year / 4 + 1);
}

/// What the count of multiples of 100 gains at a year.
proof fn lemma_multiples_of_100(year: int)
    requires
        0 <= year,
    ensures
        (year + 100) / 100 == (year + 99) / 100 + if year % 100 == 0 {
            1int
        } else {
            0
        },
{
    assert((year + 100) / 100 == year / 100 + 1);
}

/// What the count of multiples of 400 gains at a year.
proof fn lemma_multiples_of_400(year: int)
    requires
        0 <= year,
    ensures
        (year + 400) / 400 == (year + 399) / 400 + if year % 400 == 0 {
            1int
        } else {
            0
        },
{
    assert((year + 400) / 400 == year / 400 + 1);
}

/// A multiple of 400 is one of 100, and that is one of 4.
proof fn lemma_multiples_of_multiples(year: int)
    ensures
        year % 100 == 0 ==> year % 4 == 0,
        year % 400 == 0 ==> year % 100 == 0,
{
}

/// The days of the months before a month, in closed form.
proof fn lemma_days_to_month(year: int, month: int)
    requires
        1 <= month <= 12,
    ensures
        month <= 2 ==> days_to_month(year, month) == (153 * (month + 9) + 2) / 5 - 306,
        month > 2 ==> days_to_month(year, month) == (153 * (month - 3) + 2) / 5 + year_days(year)
            - 306,
{
    reveal_with_fuel(days_to_month, 13);
}

/// The closed formula counts what the calendar counts.
pub proof fn lemma_day_number(year: int, month: int, day: int)
    requires
        0 <= year,
        1 <= month <= 12,
    ensures
        civil_days(year, month, day) == day_number(year, month, day),
{
    lemma_days_to_year(1970);
    lemma_days_to_month(year, month);
    if month <= 2 {
        lemma_march_years(year - 1);
    } else {
        lemma_march_years(year);
        assert(days_to_year(year + 1) == days_to_year(year) + year_days(year));
    }
}

/// The days up to the first of January after a year that starts in March,
/// by the 400 years that repeat.
proof fn lemma_march_years(year: int)
    requires
        -1 <= year,
    ensures
        days_to_year(year + 1) == ((year + 400) / 400 - 1) * 146_097 + (year + 400) % 400 * 365 + (
        year + 400) % 400 / 4 - (year + 400) % 400 / 100 + 366,
{
    lemma_days_to_year(year + 1);
    let q = (year + 400) / 400;
    let r = (year + 400) % 400;
    assert(year == 400 * (q - 1) + r);
    assert((year + 4) / 4 == 100 * (q - 1) + r / 4 + 1);
    assert((year + 100) / 100 == 4 * (q - 1) + r / 100 + 1);
}

/// What the fields of a stored moment hold.
pub(crate) proof fn lemma_packed_fields(at: DateTime)
    requires
        at.exists_in_calendar(),
        FIRST_YEAR <= at.year <= LAST_YEAR,
    ensures
        ({
            let stamp = at.packed();
            &&& stamp.date != 0
            &&& stamp.date / 512 == at.year - 1980
            &&& stamp.date / 32 % 16 == at.month
            &&& stamp.date % 32 == at.day
            &&& stamp.time / 2048 == at.hour
            &&& stamp.time / 32 % 64 == at.minute
            &&& stamp.time % 32 == at.second / 2
            &&& stamp.hundredths == at.second % 2 * 100 + at.millisecond / 10
        }),
{
    let kept = at.clamped();
    assert(kept.millisecond / 10 == at.millisecond / 10);
    assert(kept == (DateTime { millisecond: kept.millisecond, ..at }));
    let (year, month, day) = ((at.year - 1980) as u16, at.month as u16, at.day as u16);
    let (hour, minute, half) = (at.hour as u16, at.minute as u16, (at.second / 2) as u16);
    assert({
        let date = (year << 9) | (month << 5) | day;
        &&& date / 512 == year
        &&& date / 32 % 16 == month
        &&& date % 32 == day
        &&& date != 0
    }) by (bit_vector)
        requires
            year <= 127,
            1 <= month <= 12,
            1 <= day <= 31,
    ;
    assert({
        let time = (hour << 11) | (minute << 5) | half;
        &&& time / 2048 == hour
        &&& time / 32 % 64 == minute
        &&& time % 32 == half
    }) by (bit_vector)
        requires
            hour <= 23,
            minute <= 59,
            half <= 29,
    ;
}

/// A moment that exists, in the years a stored date can hold, comes back
/// from storage as it was, down to hundredths of a second.
pub proof fn lemma_pack_round_trip(at: DateTime)
    requires
        at.exists_in_calendar(),
        FIRST_YEAR <= at.year <= LAST_YEAR,
    ensures
        DateTime::unpacked(at.packed()) == (DateTime {
            millisecond: (at.millisecond / 10 * 10) as u16,
            ..at
        }),
{
    lemma_packed_fields(at);
}

/// Stored without its hundredths, such a moment comes back with its seconds
/// rounded down to even ones.
pub proof fn lemma_even_seconds(at: DateTime)
    requires
        at.exists_in_calendar(),
        FIRST_YEAR <= at.year <= LAST_YEAR,
    ensures
        DateTime::unpacked(Packed { hundredths: 0, ..at.packed() }) == (DateTime {
            second: (at.second / 2 * 2) as u8,
            millisecond: 0,
            ..at
        }),
{
    lemma_packed_fields(at);
}

/// Stored without its time, such a moment comes back as the start of its day.
pub proof fn lemma_start_of_day(at: DateTime)
    requires
        at.exists_in_calendar(),
        FIRST_YEAR <= at.year <= LAST_YEAR,
    ensures
        DateTime::unpacked(Packed { time: 0, hundredths: 0, ..at.packed() }) == (DateTime {
            hour: 0,
            minute: 0,
            second: 0,
            millisecond: 0,
            ..at
        }),
{
    lemma_packed_fields(at);
}

/// A moment outside the years a stored date can hold is stored as the
/// nearest one inside them, and what is stored is always inside them.
pub proof fn lemma_pack_clamps(at: DateTime)
    ensures
        at.packed() == at.clamped().packed(),
        at.year < FIRST_YEAR ==> at.packed() == DateTime::EPOCH().packed(),
        at.year > LAST_YEAR ==> at.packed() == DateTime::LATEST().packed(),
        FIRST_YEAR <= DateTime::unpacked(at.packed()).year <= LAST_YEAR,
{
}

/// The first moment is stored as the first of January of year nought, not
/// as a date of all zero bits; and a date of all zero bits is read as it.
pub proof fn lemma_epoch_is_a_date(time: u16, hundredths: u8)
    ensures
        DateTime::EPOCH().packed() == (Packed { date: 0x0021, time: 0, hundredths: 0 }),
        DateTime::unpacked(Packed { date: 0, time, hundredths }) == DateTime::EPOCH(),
{
    assert((0u16 << 9) | (1u16 << 5) | 1u16 == 0x0021) by (bit_vector);
    assert((0u16 << 11) | (0u16 << 5) | 0u16 == 0) by (bit_vector);
}

/// Later years start later.
proof fn lemma_years_ascend(a: int, b: int)
    requires
        0 <= a < b,
    ensures
        days_to_year(a) + year_days(a) <= days_to_year(b),
    decreases b - a,
{
    if a < b - 1 {
        lemma_years_ascend(a, b - 1);
    }
}

/// Later months start later, and every month ends within its year.
proof fn lemma_months_ascend(year: int, a: int, b: int)
    requires
        1 <= a < b <= 13,
    ensures
        days_to_month(year, a) + month_days(year, a) <= days_to_month(year, b),
        days_to_month(year, 13) == year_days(year),
{
    reveal_with_fuel(days_to_month, 14);
}

/// Time order is the order of the seconds counted from 1970.
pub proof fn lemma_unix_seconds_ascend(a: DateTime, b: DateTime)
    requires
        a.exists_in_calendar(),
        b.exists_in_calendar(),
        a.before(b),
    ensures
        a.unix_seconds() <= b.unix_seconds(),
        a.unix_seconds() == b.unix_seconds() ==> a == (DateTime {
            millisecond: a.millisecond,
            ..b
        }),
{
    let (ya, ma, da) = (a.year as int, a.month as int, a.day as int);
    let (yb, mb, db) = (b.year as int, b.month as int, b.day as int);
    lemma_day_number(ya, ma, da);
    lemma_day_number(yb, mb, db);
    lemma_months_ascend(ya, ma, 13);
    lemma_months_ascend(yb, mb, 13);
    if ya < yb {
        lemma_years_ascend(ya, yb);
        assert(days_to_month(yb, mb) >= 0) by {
            reveal_with_fuel(days_to_month, 13);
        }
    } else if ma < mb {
        lemma_months_ascend(ya, ma, mb);
    }
}

/// A date survives being counted in seconds: two moments in the years a
/// stored date can hold, at the same count and with no fraction, are the
/// same moment.
pub proof fn lemma_unix_round_trip(a: DateTime, b: DateTime)
    requires
        a.exists_in_calendar(),
        b.exists_in_calendar(),
        a.millisecond == b.millisecond,
        a.unix_seconds() == b.unix_seconds(),
    ensures
        a == b,
{
    if a != b {
        if a.before(b) {
            lemma_unix_seconds_ascend(a, b);
        } else {
            lemma_unix_seconds_ascend(b, a);
        }
    }
}

/// The counts of the first and the last second a stored date can hold.
pub proof fn lemma_unix_bounds(at: DateTime)
    requires
        at.exists_in_calendar(),
    ensures
        FIRST_YEAR <= at.year <= LAST_YEAR <==> FIRST_SECOND <= at.unix_seconds() < END_SECOND,
        DateTime::EPOCH().unix_seconds() == FIRST_SECOND,
        DateTime::LATEST().unix_seconds() == END_SECOND - 1,
{
    let first = DateTime::EPOCH();
    let end = DateTime { year: 2108, ..first };
    if at.before(first) {
        lemma_unix_seconds_ascend(at, first);
    } else if first.before(at) {
        lemma_unix_seconds_ascend(first, at);
    }
    if at.before(end) {
        lemma_unix_seconds_ascend(at, end);
    } else if end.before(at) {
        lemma_unix_seconds_ascend(end, at);
    }
}

} // verus!
