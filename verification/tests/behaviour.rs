//! Further scenarios: the result cap, literal patterns, sequence formulas,
//! escapes and the `$` rule.

use brace_expansion::{expand, expand_with_max, EXPANSION_MAX};

#[test]
fn empty_pattern_has_no_expansion() {
    assert!(expand("").is_empty());
    assert!(expand_with_max("", 5).is_empty());
}

#[test]
fn cap_limits_a_comma_set() {
    assert_eq!(expand_with_max("{a,b,c}", 2), ["a", "b"]);
    assert_eq!(expand_with_max("{a,b}{c,d}", 3), ["ac", "ad", "bc"]);
    assert_eq!(expand_with_max("{1..9}", 4), ["1", "2", "3", "4"]);
}

#[test]
fn literal_pattern_survives_a_zero_cap() {
    assert_eq!(expand_with_max("foo", 0), ["foo"]);
    assert!(expand_with_max("{a,b}", 0).is_empty());
}

#[test]
fn expand_uses_the_default_cap() {
    assert_eq!(expand("{a,b}"), expand_with_max("{a,b}", EXPANSION_MAX));
    assert_eq!(expand("{1..200000}").len(), EXPANSION_MAX);
}

#[test]
fn plain_text_is_unchanged() {
    assert_eq!(expand("hello world"), ["hello world"]);
    assert_eq!(expand("a}b,c"), ["a}b,c"]);
    assert_eq!(expand("x{y"), ["x{y"]);
}

#[test]
fn stepped_numeric_sequences() {
    assert_eq!(expand("{-3..3..2}"), ["-3", "-1", "1", "3"]);
    assert_eq!(expand("{5..1..2}"), ["5", "3", "1"]);
    assert_eq!(expand("{1..3..-1}"), ["1", "2", "3"]);
    assert_eq!(expand("{7..7}"), ["7"]);
}

#[test]
fn padded_negative_numbers() {
    assert_eq!(expand("{-05..5..5}"), ["-05", "000", "005"]);
    assert_eq!(expand("{8..10..01}"), ["08", "09", "10"]);
}

#[test]
fn alphabetic_sequence_skips_backslash() {
    assert_eq!(expand("{Z..a}"), ["Z", "[", "", "]", "^", "_", "`", "a"]);
    assert_eq!(expand("{a..c..0}"), ["a", "b", "c"]);
    assert_eq!(expand("{e..a..2}"), ["e", "c", "a"]);
}

#[test]
fn signed_endpoint_is_not_a_sequence() {
    assert_eq!(expand("{+1..3}"), ["{+1..3}"]);
    assert_eq!(expand("{1..2..3..4}"), ["{1..2..3..4}"]);
    assert_eq!(expand("{ab..c}"), ["{ab..c}"]);
}

#[test]
fn empty_members_at_the_top() {
    assert_eq!(expand("{,a}"), ["a"]);
    assert_eq!(expand("x{,a}"), ["x", "xa"]);
}

#[test]
fn escaped_backslash_collapses() {
    assert_eq!(expand("a\\\\b"), ["a\\b"]);
    assert_eq!(expand("{a,b}\\."), ["a.", "b."]);
}

#[test]
fn dollar_set_stays_literal_before_others() {
    assert_eq!(expand("${a,b}{c,d}"), ["${a,b}c", "${a,b}d"]);
}

#[test]
fn sets_inside_sequences_and_sequences_inside_sets() {
    assert_eq!(expand("{a,{1..2}}"), ["a", "1", "2"]);
    assert_eq!(expand("{x,y}{1..2}"), ["x1", "x2", "y1", "y2"]);
}

#[test]
fn escaped_single_characters() {
    assert_eq!(expand("x\\,y"), ["x,y"]);
    assert_eq!(expand("x\\.y"), ["x.y"]);
    assert_eq!(expand("\\}"), ["}"]);
    assert_eq!(expand("a\\{b"), ["a{b"]);
}

#[test]
fn literal_sets_stay_literal() {
    assert_eq!(expand("{}x"), ["{}x"]);
    assert_eq!(expand("a{b..c..d}e"), ["a{b..c..d}e"]);
    assert_eq!(expand("x${a,b}y"), ["x${a,b}y"]);
    assert_eq!(expand("pre$x{a,b}"), ["pre$xa", "pre$xb"]);
    assert_eq!(expand_with_max("${a}", 0), Vec::<String>::new());
}

#[test]
fn two_sets_with_text_between() {
    assert_eq!(
        expand("<{a,b}-{1,2}>"),
        ["<a-1>", "<a-2>", "<b-1>", "<b-2>"]
    );
    assert_eq!(expand_with_max("{a,b}-{1,2,3}", 2), ["a-1", "a-2"]);
}

#[test]
fn escaped_marker_words_come_back_literally() {
    assert_eq!(expand("\\{SLASH\\}"), ["{SLASH}"]);
    assert_eq!(expand("\\,OPEN\\,"), [",OPEN,"]);
    assert_eq!(expand("\\\\CLOSE\\."), ["\\CLOSE."]);
}

#[test]
fn dangling_close_stops_at_line_end() {
    assert_eq!(expand("a{b},\n}c"), ["a{b},\n}c"]);
    assert_eq!(expand("a{b},\r}c"), ["a{b},\r}c"]);
    assert_eq!(expand("a{},b}c"), ["a}c", "abc"]);
}
