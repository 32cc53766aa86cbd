//! The integer time helpers of the spaced-repetition scheduler.

use lexicon::fsrs::{days_to_seconds, seconds_to_days, start_of_day, Grade};

#[test]
fn start_of_day_is_five_in_the_morning() {
    assert_eq!(start_of_day(0), 18000);
    assert_eq!(start_of_day(90000), 86400 + 18000);
    assert_eq!(start_of_day(86399), 18000);
}

#[test]
fn whole_day_conversions() {
    assert_eq!(seconds_to_days(0), 0);
    assert_eq!(seconds_to_days(200000), 2);
    assert_eq!(seconds_to_days(86400), 1);
    assert_eq!(days_to_seconds(3), 259200);
    assert_eq!(days_to_seconds(0), 0);
}

#[test]
fn grades_number_one_through_four() {
    assert_eq!(Grade::Again.value(), 1);
    assert_eq!(Grade::Hard.value(), 2);
    assert_eq!(Grade::Good.value(), 3);
    assert_eq!(Grade::Easy.value(), 4);
}
