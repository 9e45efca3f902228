use plua::lex::{Location, TokenKind};
use plua::text::push_decimal;

#[test]
fn a_location_starts_at_the_origin() {
    assert_eq!(Location::default().position(), (0, 0, 0));
}

#[test]
fn a_location_moves_along_its_line() {
    let loc = Location::default().increment(6, false);
    assert_eq!(loc.position(), (0, 6, 6));
    let loc = loc.increment_one(false);
    assert_eq!(loc.position(), (0, 7, 7));
}

#[test]
fn a_line_feed_moves_a_location_to_the_next_line() {
    let loc = Location::default().increment(6, false).increment_one(true);
    assert_eq!(loc.position(), (1, 0, 7));
    let loc = loc.increment(3, true);
    assert_eq!(loc.position(), (2, 0, 10));
}

#[test]
fn debug_shows_the_line_and_points_at_the_column() {
    let raw: Vec<char> = "local a = 1;\nreturn @;\nend".chars().collect();
    let loc = Location::default().increment(12, false).increment_one(true).increment(7, false);
    assert_eq!(loc.position(), (1, 7, 20));
    assert_eq!(
        loc.debug(&raw, "Unrecognized character while lexing:"),
        "Unrecognized character while lexing:\n\nreturn @;\n       ^ Near here"
    );
}

#[test]
fn debug_of_the_first_and_of_a_missing_line() {
    let raw: Vec<char> = "ab\ncd".chars().collect();
    assert_eq!(Location::default().debug(&raw, "m"), "m\n\nab\n^ Near here");
    let loc = Location::default().increment_one(true).increment_one(true).increment(2, false);
    assert_eq!(loc.debug(&raw, "m"), "m\n\n\n  ^ Near here");
    assert_eq!(Location::default().debug(&[], ""), "\n\n\n^ Near here");
}

#[test]
fn token_kinds_differ() {
    assert_eq!(TokenKind::Keyword, TokenKind::Keyword.clone());
    assert_ne!(TokenKind::Keyword, TokenKind::Identifier);
    assert_ne!(TokenKind::Number, TokenKind::Operator);
    assert_ne!(TokenKind::Syntax, TokenKind::Operator);
}

#[test]
fn numbers_are_written_in_decimal() {
    for (n, text) in [(0u32, "0"), (7, "7"), (10, "10"), (109, "109"), (4294967295, "4294967295")] {
        let mut out = String::from("n=");
        push_decimal(&mut out, n);
        assert_eq!(out, format!("n={}", text));
    }
}
