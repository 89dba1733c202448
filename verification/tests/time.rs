use resident_fat::time::{is_leap_year, DateTime, Packed};


fn at(
    year: u16,
    month: u8,
    day: u8,
    hour: u8,
    minute: u8,
    second: u8,
    millisecond: u16,
) -> DateTime {
    DateTime::new(year, month, day, hour, minute, second, millisecond)
        .expect("the test named a date that does not exist")
}

/// The epoch packs to a date that exists, which an all-zero field does
/// not: zero is month 0 of day 0.
#[test]
fn the_epoch_is_not_all_zeroes() {
    let packed = DateTime::EPOCH().pack();
    assert_eq!(packed.date, 0x0021, "1980-01-01 is year 0, month 1, day 1");
    assert_eq!(packed.time, 0);
    assert_eq!(packed.hundredths, 0);
}

/// An all-zero date reads back as the epoch rather than as month 0.
#[test]
fn an_all_zero_date_unpacks_to_the_epoch() {
    let zero = Packed {
        date: 0,
        time: 0,
        hundredths: 0,
    };
    assert_eq!(DateTime::unpack(zero), DateTime::EPOCH());
}

/// The last instant the format can express uses every bit of the year
/// field.
#[test]
fn the_ceiling_fills_the_year_field() {
    let packed = DateTime::LATEST().pack();
    assert_eq!(packed.date >> 9, 127, "2107 is 1980 plus a full seven bits");
    assert_eq!(packed.date, (127 << 9) | (12 << 5) | 31);
    // 23:59:59.99 -- the time field holds 58 seconds, the extra field
    // the odd second and the hundredths.
    assert_eq!(packed.time, (23 << 11) | (59 << 5) | 29);
    assert_eq!(packed.hundredths, 199);
    assert_eq!(DateTime::unpack(packed), DateTime::LATEST());
}

/// Dates below the epoch and above the ceiling are clamped, not wrapped.
///
/// Wrapping is the failure that matters: 1979 would become 2107 rather
/// than 1980, so a device with an unset clock would stamp its files a
/// century in the future instead of at the epoch.
#[test]
fn out_of_range_dates_clamp_to_the_ends() {
    let before = at(1979, 12, 31, 23, 59, 59, 0);
    assert_eq!(DateTime::unpack(before.pack()), DateTime::EPOCH());

    let after = at(2108, 1, 1, 0, 0, 0, 0);
    assert_eq!(DateTime::unpack(after.pack()), DateTime::LATEST());

    // And from the other direction: a Unix time from 1970, which is
    // what a clock that has never been set reports.
    assert_eq!(DateTime::from_unix_seconds(0), DateTime::EPOCH());
    assert_eq!(DateTime::from_unix_seconds(-1), DateTime::EPOCH());
    assert_eq!(DateTime::from_unix_seconds(i64::MAX / 2), DateTime::LATEST());
    assert_eq!(DateTime::from_unix_seconds(i64::MIN / 2), DateTime::EPOCH());
}

/// Seconds are stored halved, so an odd second survives only in the
/// creation timestamp's extra field.
#[test]
fn seconds_are_stored_two_at_a_time() {
    let odd = at(2026, 6, 15, 10, 30, 45, 0);
    let packed = odd.pack();
    assert_eq!(packed.time & 0x1F, 22, "45 seconds is stored as 22");
    assert_eq!(packed.hundredths, 100, "the odd second moves here");
    assert_eq!(DateTime::unpack(packed), odd, "the extra field restores it");

    // Without the extra field -- a modification time -- the odd second
    // is gone, and the result is the even second below.
    let without = DateTime::unpack(Packed {
        hundredths: 0,
        ..packed
    });
    assert_eq!(without, at(2026, 6, 15, 10, 30, 44, 0));
}

/// The extra field holds hundredths, not tenths, whatever it is called.
#[test]
fn the_creation_field_counts_hundredths() {
    let stamp = at(2026, 6, 15, 10, 30, 44, 990);
    assert_eq!(stamp.pack().hundredths, 99);
    assert_eq!(DateTime::unpack(stamp.pack()), stamp);

    // Sub-10 ms precision is not stored, and rounds down rather than up
    // -- a file must not claim to have been written in the future.
    let fine = at(2026, 6, 15, 10, 30, 44, 999);
    assert_eq!(fine.pack().hundredths, 99);
    assert_eq!(DateTime::unpack(fine.pack()).millisecond, 990);
}

/// The century rule, which is the half of the leap-year calculation
/// that gets skipped. Both cases fall inside FAT's range.
#[test]
fn leap_years_include_2000_and_exclude_2100() {
    assert!(is_leap_year(2000), "divisible by 400");
    assert!(!is_leap_year(2100), "a century that is not");
    assert!(is_leap_year(2024));
    assert!(!is_leap_year(2023));

    assert!(DateTime::new(2000, 2, 29, 0, 0, 0, 0).is_some());
    assert!(DateTime::new(2100, 2, 29, 0, 0, 0, 0).is_none());
    assert!(DateTime::new(2023, 2, 29, 0, 0, 0, 0).is_none());
    assert!(DateTime::new(2024, 2, 29, 0, 0, 0, 0).is_some());
}

/// Unix conversion agrees with the calendar across the century
/// boundary, which is where a naive "every fourth year" is a day out
/// from 2100-03-01 onwards.
#[test]
fn unix_conversion_survives_2100() {
    // 2100-02-28 is the last day of that February.
    let last = at(2100, 2, 28, 12, 0, 0, 0);
    let next = at(2100, 3, 1, 12, 0, 0, 0);
    assert_eq!(
        next.to_unix_seconds() - last.to_unix_seconds(),
        86_400,
        "2100 has no 29 February, so these are consecutive days"
    );
    assert_eq!(DateTime::from_unix_seconds(next.to_unix_seconds()), next);

    // 2000 does have one.
    let leap = at(2000, 2, 28, 12, 0, 0, 0);
    let after = at(2000, 3, 1, 12, 0, 0, 0);
    assert_eq!(after.to_unix_seconds() - leap.to_unix_seconds(), 2 * 86_400);
    assert_eq!(
        DateTime::from_unix_seconds(leap.to_unix_seconds() + 86_400),
        at(2000, 2, 29, 12, 0, 0, 0)
    );
}

/// The two epochs are a known number of days apart, and the FAT epoch
/// is day zero of its own count.
#[test]
fn the_epochs_line_up() {
    assert_eq!(DateTime::EPOCH().to_unix_seconds(), 315_532_800);
    assert_eq!(DateTime::EPOCH().days_since_fat_epoch(), 0);
    assert_eq!(
        at(1980, 1, 2, 0, 0, 0, 0).days_since_fat_epoch(),
        1,
        "the day after the epoch"
    );
}

/// Every representable second round-trips, sampled across the whole
/// range rather than at a few hand-picked dates.
#[test]
fn packing_round_trips_across_the_range() {
    let first = DateTime::EPOCH().to_unix_seconds();
    let last = DateTime::LATEST().to_unix_seconds();
    // A stride that is coprime with 60, 3600 and 86400, so the samples
    // do not all land on the same second, minute or hour of the day.
    let stride = 999_983;

    let mut at_second = first;
    while at_second <= last {
        let original = DateTime::from_unix_seconds(at_second);
        let back = DateTime::unpack(original.pack());
        assert_eq!(back, original, "{at_second} did not survive packing");
        assert_eq!(back.to_unix_seconds(), at_second);
        at_second += stride;
    }
}
