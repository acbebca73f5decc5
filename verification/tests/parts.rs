//! The building blocks on their own: comma splitting, the top-level flag and
//! escaping.

use brace_expansion::escape::{escape_braces, unescape_braces};
use brace_expansion::expand::{expand_inner, has_dangling_close, parse_comma_parts};

fn chars(s: &str) -> Vec<char> {
    s.chars().collect()
}

fn text(v: &[Vec<char>]) -> Vec<String> {
    v.iter().map(|c| c.iter().collect()).collect()
}

#[test]
fn comma_parts_rejoin_to_their_input() {
    let s = "a,{b,c},d{e}f,";
    let parts = parse_comma_parts(&chars(s), 0);
    assert_eq!(text(&parts), ["a", "{b,c}", "d{e}f", ""]);
    assert_eq!(text(&parts).join(","), s);
    assert_eq!(text(&parse_comma_parts(&chars(""), 0)), [""]);
}

#[test]
fn top_level_flag_drops_empty_members_only() {
    assert_eq!(text(&expand_inner(&chars("{,a}"), 10, true, 0)), ["a"]);
    assert_eq!(text(&expand_inner(&chars("{,a}"), 10, false, 0)), ["", "a"]);
    assert_eq!(text(&expand_inner(&chars("{Z..a}"), 10, true, 0))[2], "");
}

#[test]
fn escape_round_trip_keeps_escaped_characters() {
    let s = chars("\\{SLASH\\}\\\\x\\,OPEN");
    let back: String = unescape_braces(&escape_braces(&s)).iter().collect();
    assert_eq!(back, "{SLASH}\\x,OPEN");
}

#[test]
fn dangling_close_needs_the_same_line() {
    assert!(has_dangling_close(&chars(",b}c")));
    assert!(has_dangling_close(&chars(",,}")));
    assert!(!has_dangling_close(&chars(",\n}")));
    assert!(!has_dangling_close(&chars(",,")));
    assert!(!has_dangling_close(&chars("b")));
}
