use pass_gen::report::{format_time, separator_line, u64_to_string, DecSeconds};

fn fmt(digits: u64, exp: i32) -> String {
    format_time(&DecSeconds { digits, exp })
}

#[test]
fn below_one_second() {
    assert_eq!(fmt(5, -1), "less than a second");
    assert_eq!(fmt(0, 0), "less than a second");
    assert_eq!(fmt(9999, -4), "less than a second");
}

#[test]
fn seconds_bucket() {
    assert_eq!(fmt(1, 0), "1 seconds");
    assert_eq!(fmt(599, -1), "60 seconds");
}

#[test]
fn threshold_falls_into_next_bucket() {
    assert_eq!(fmt(6, 1), "1 minutes");
    assert_eq!(fmt(36, 2), "1 hours");
    assert_eq!(fmt(864, 2), "1 days");
    assert_eq!(fmt(315576, 2), "1 years");
    assert_eq!(fmt(315576, 4), "1 centuries");
}

#[test]
fn just_below_thresholds() {
    assert_eq!(fmt(3599, 0), "60 minutes");
    assert_eq!(fmt(86399, 0), "24 hours");
    assert_eq!(fmt(31557599, 0), "365 days");
    assert_eq!(fmt(3155759999, 0), "100 years");
}

#[test]
fn rounding_ties_to_even() {
    assert_eq!(fmt(9, 1), "2 minutes");
    assert_eq!(fmt(15, 1), "2 minutes");
    assert_eq!(fmt(21, 1), "4 minutes");
}

#[test]
fn scientific_notation_at_a_billion_units() {
    assert_eq!(fmt(315576, 13), "1e+9 centuries");
    assert_eq!(fmt(4, 18), "1e+9 centuries");
    assert_eq!(fmt(2, 30), "6e+20 centuries");
}

#[test]
fn plain_just_below_a_billion_units() {
    assert_eq!(fmt(315575999684424, 4), "999999999 centuries");
    assert_eq!(fmt(3155759998106544, 3), "999999999 centuries");
}

#[test]
fn scientific_when_rounding_reaches_a_billion() {
    // 999999999.9 and 999999999.5 centuries round to a billion, so the
    // ten-digit plain number is never printed
    assert_eq!(fmt(3155759999684424, 3), "1e+9 centuries");
    assert_eq!(fmt(315575999842212, 4), "1e+9 centuries");
}

#[test]
fn separator_line_width() {
    let line = separator_line(60);
    assert_eq!(line.len(), 60);
    assert!(line.chars().all(|c| c == '-'));
    assert_eq!(separator_line(0), "");
}

#[test]
fn decimal_rendering() {
    assert_eq!(u64_to_string(0), "0");
    assert_eq!(u64_to_string(7), "7");
    assert_eq!(u64_to_string(1234567890), "1234567890");
}
