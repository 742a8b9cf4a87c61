use advent_puzzles::calibration::get_calibration_value;
use advent_puzzles::calibration::get_number;
use advent_puzzles::calibration::translate_digit;

#[test]
fn digits_only_lines() {
    assert_eq!(get_calibration_value("1abc2", false), 12);
    assert_eq!(get_calibration_value("pqr3stu8vwx", false), 38);
    assert_eq!(get_calibration_value("a1b2c3d4e5f", false), 15);
    assert_eq!(get_calibration_value("treb7uchet", false), 77);
}

#[test]
fn spelled_out_lines() {
    assert_eq!(get_calibration_value("two1nine", true), 29);
    assert_eq!(get_calibration_value("eightwothree", true), 83);
    assert_eq!(get_calibration_value("abcone2threexyz", true), 13);
    assert_eq!(get_calibration_value("xtwone3four", true), 24);
    assert_eq!(get_calibration_value("4nineeightseven2", true), 42);
    assert_eq!(get_calibration_value("zoneight234", true), 14);
    assert_eq!(get_calibration_value("7pqrstsixteen", true), 76);
}

#[test]
fn words_ignored_without_consider_text() {
    assert_eq!(get_calibration_value("two1nine", false), 11);
}

#[test]
fn translate_digit_words() {
    assert_eq!(translate_digit("one"), 1);
    assert_eq!(translate_digit("five"), 5);
    assert_eq!(translate_digit("nine"), 9);
    assert_eq!(translate_digit("ten"), 0);
    assert_eq!(translate_digit(""), 0);
}

#[test]
fn get_number_cases() {
    assert_eq!(get_number("7abc", false), Some(7));
    assert_eq!(get_number("abc", false), None);
    assert_eq!(get_number("", true), None);
    assert_eq!(get_number("oneabc", false), None);
    assert_eq!(get_number("oneabc", true), Some(1));
    assert_eq!(get_number("eightwo", true), Some(8));
    assert_eq!(get_number("xone", true), None);
}
