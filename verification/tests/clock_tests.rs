use chrono::{Datelike, Timelike};
use kvstore::clock::{timestamp, ClockReading};

fn reading(year: i32, month: u32, day: u32, hour: u32, minute: u32, second: u32) -> ClockReading {
    ClockReading { year, month, day, hour, minute, second }
}

#[test]
fn timestamp_is_date_then_time_of_day() {
    assert_eq!(timestamp(&reading(2024, 1, 31, 23, 59, 59)), "20240131T235959");
    assert_eq!(timestamp(&reading(1970, 1, 1, 0, 0, 0)), "19700101T000000");
    assert_eq!(timestamp(&reading(1999, 12, 9, 7, 5, 3)), "19991209T070503");
}

#[test]
fn early_years_are_filled_up_to_four_digits() {
    assert_eq!(timestamp(&reading(0, 1, 1, 0, 0, 0)), "00000101T000000");
    assert_eq!(timestamp(&reading(7, 2, 3, 4, 5, 6)), "00070203T040506");
    assert_eq!(timestamp(&reading(987, 10, 20, 11, 12, 13)), "09871020T111213");
    assert_eq!(timestamp(&reading(9999, 12, 31, 23, 59, 59)), "99991231T235959");
}

#[test]
fn years_outside_four_digits_take_a_sign() {
    assert_eq!(timestamp(&reading(10000, 1, 1, 0, 0, 0)), "+100000101T000000");
    assert_eq!(timestamp(&reading(262143, 12, 31, 0, 0, 0)), "+2621431231T000000");
    assert_eq!(timestamp(&reading(-1, 12, 31, 23, 59, 59)), "-00011231T235959");
    assert_eq!(timestamp(&reading(-12345, 6, 7, 8, 9, 10)), "-123450607T080910");
    assert_eq!(timestamp(&reading(i32::MIN, 1, 1, 0, 0, 0)), "-21474836480101T000000");
}

#[test]
fn timestamp_is_what_chrono_writes_for_the_same_moment() {
    let moments: [i64; 12] = [
        0,
        1,
        86_399,
        951_782_400,
        1_706_745_599,
        4_102_444_800,
        253_402_300_799,
        253_402_300_800,
        -1,
        -62_167_219_200,
        -62_167_219_201,
        -1_000_000_000_000,
    ];
    for secs in moments {
        let moment = chrono::DateTime::from_timestamp(secs, 0).unwrap();
        let read = reading(
            moment.year(),
            moment.month(),
            moment.day(),
            moment.hour(),
            moment.minute(),
            moment.second(),
        );
        assert_eq!(timestamp(&read), moment.format("%Y%m%dT%H%M%S").to_string());
    }
}

#[test]
fn timestamps_of_later_moments_sort_later() {
    let readings = [
        reading(1999, 12, 31, 23, 59, 59),
        reading(2000, 1, 1, 0, 0, 0),
        reading(2000, 1, 1, 0, 0, 1),
        reading(2000, 1, 1, 0, 1, 0),
        reading(2000, 1, 1, 1, 0, 0),
        reading(2000, 1, 2, 0, 0, 0),
        reading(2000, 2, 1, 0, 0, 0),
        reading(2001, 1, 1, 0, 0, 0),
    ];
    for pair in readings.windows(2) {
        assert!(timestamp(&pair[0]) < timestamp(&pair[1]));
    }
}
