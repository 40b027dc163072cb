use trebuchet_cubes::calibration::{find_map_inc_strings, line_score, part1, part2, solve};
use trebuchet_cubes::error::ParseErrorKind;

const PART1_EXAMPLE_INPUT: &str = "
1abc2
pqr3stu8vwx
a1b2c3d4e5f
treb7uchet
";

const PART2_EXAMPLE_INPUT: &str = "
two1nine
eightwothree
abcone2threexyz
xtwone3four
4nineeightseven2
zoneight234
7pqrstsixteen
";

#[test]
fn test_part1() {
    let scores: Vec<u32> = PART1_EXAMPLE_INPUT
        .lines()
        .filter(|l| !l.is_empty())
        .map(|line| line_score(line, false).unwrap())
        .collect();
    assert_eq!(scores, vec![12, 38, 15, 77]);
    assert_eq!(part1(PART1_EXAMPLE_INPUT).unwrap(), 142);
}

#[test]
fn test_part2() {
    let scores: Vec<u32> = PART2_EXAMPLE_INPUT
        .lines()
        .filter(|l| !l.is_empty())
        .map(|line| line_score(line, true).unwrap())
        .collect();
    assert_eq!(scores, vec![29, 83, 13, 24, 42, 14, 76]);
    assert_eq!(part2(PART2_EXAMPLE_INPUT).unwrap(), 281);
}

#[test]
fn overlapping_words_are_both_found() {
    assert_eq!(find_map_inc_strings("twone", false), Some(2));
    assert_eq!(find_map_inc_strings("twone", true), Some(1));
    assert_eq!(line_score("twone", true).unwrap(), 21);
    assert_eq!(line_score("xtwone3four", true).unwrap(), 24);
}

#[test]
fn words_are_ignored_in_digit_mode() {
    assert_eq!(line_score("two1nine", false).unwrap(), 11);
    assert_eq!(line_score("a1b2c3d4e5f", false).unwrap(), 15);
}

#[test]
fn single_token_counts_twice() {
    assert_eq!(line_score("treb7uchet", false).unwrap(), 77);
    assert_eq!(line_score("xxsevenxx", true).unwrap(), 77);
    assert_eq!(line_score("zero", true).unwrap(), 0);
}

#[test]
fn finder_reports_no_token() {
    assert_eq!(find_map_inc_strings("abc", false), None);
    assert_eq!(find_map_inc_strings("", true), None);
    assert_eq!(find_map_inc_strings("tw o", false), None);
}

#[test]
fn line_without_digit_fails() {
    let e = line_score("pqrstu", false).unwrap_err();
    assert_eq!(e.kind, ParseErrorKind::NoDigit);
    assert_eq!(e.text, "pqrstu");
    let e = line_score("onetwo", false).unwrap_err();
    assert_eq!(e.kind, ParseErrorKind::NoDigit);
}

#[test]
fn blank_lines_are_skipped() {
    assert_eq!(solve("  \n\t\n1x2\r\n\n 3 \n", false).unwrap(), 12 + 33);
    assert_eq!(solve("", true).unwrap(), 0);
}

#[test]
fn total_stops_at_first_bad_line() {
    let e = solve("12\n  abc  \nxyz\n", false).unwrap_err();
    assert_eq!(e.kind, ParseErrorKind::NoDigit);
    assert_eq!(e.text, "abc");
}

// The full puzzle input is not shipped with the crate: this pins the
// end-to-end totals of both example inputs under both modes.
#[test]
fn regression() {
    assert_eq!(part1(PART1_EXAMPLE_INPUT).unwrap(), 142);
    assert_eq!(part2(PART1_EXAMPLE_INPUT).unwrap(), 142);
    assert_eq!(part2(PART2_EXAMPLE_INPUT).unwrap(), 281);
    let e = part1(PART2_EXAMPLE_INPUT).unwrap_err();
    assert_eq!(e.kind, ParseErrorKind::NoDigit);
    assert_eq!(e.text, "eightwothree");
}
