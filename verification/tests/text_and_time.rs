use what_stream::text::eq_ignore_case;
use what_stream::text::str_eq;
use what_stream::timefmt::format_elapsed;
use what_stream::trim_word_boundaries;

#[test]
fn trimming_strips_brackets_punctuation_and_spaces() {
    assert_eq!(trim_word_boundaries("(Rust)"), "Rust");
    assert_eq!(trim_word_boundaries("[{(deep"), "deep");
    assert_eq!(trim_word_boundaries("word,.!?-:}])"), "word");
    assert_eq!(trim_word_boundaries("\tword\u{a0}"), "word");
    assert_eq!(trim_word_boundaries("( word )"), "word");
    assert_eq!(trim_word_boundaries(""), "");
    assert_eq!(trim_word_boundaries("()"), "");
}

#[test]
fn leading_brackets_go_before_trailing_punctuation() {
    // the head set is only stripped at the front, the tail set only at
    // the back, then whitespace on both sides
    assert_eq!(trim_word_boundaries("(a)"), "a");
    assert_eq!(trim_word_boundaries(")a("), ")a(");
    assert_eq!(trim_word_boundaries(" (a) "), "(a)");
}

#[test]
fn case_fold_compares_ascii_only() {
    assert!(eq_ignore_case("RuSt", "rUsT"));
    assert!(!eq_ignore_case("rust", "rust "));
    assert!(eq_ignore_case("", ""));
    assert!(!eq_ignore_case("stra\u{df}e", "STRA\u{df}E2"));
}

#[test]
fn exact_equality_sees_every_character() {
    assert!(str_eq("abc", "abc"));
    assert!(!str_eq("abc", "abd"));
    assert!(!str_eq("abc", "ab"));
}

#[test]
fn minutes_alone_below_one_hour() {
    assert_eq!(format_elapsed(0), "0 minute");
    assert_eq!(format_elapsed(59), "0 minute");
    assert_eq!(format_elapsed(60), "1 minute");
    assert_eq!(format_elapsed(120), "2 minutes");
    assert_eq!(format_elapsed(3599), "59 minutes");
}

#[test]
fn hours_and_minutes_with_plurals() {
    assert_eq!(format_elapsed(3600), "1 hour 0 minute");
    assert_eq!(format_elapsed(3660), "1 hour 1 minute");
    assert_eq!(format_elapsed(3720), "1 hour 2 minutes");
    assert_eq!(format_elapsed(7200), "2 hours 0 minute");
    assert_eq!(format_elapsed(7380), "2 hours 3 minutes");
    assert_eq!(format_elapsed(36 * 3600 + 60), "36 hours 1 minute");
}

#[test]
fn negative_elapsed_seconds_read_as_negative_minutes() {
    assert_eq!(format_elapsed(-90), "-1 minute");
    assert_eq!(format_elapsed(-3900), "-5 minute");
    assert_eq!(format_elapsed(-30), "0 minute");
}
