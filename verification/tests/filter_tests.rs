use submission_router::filter::{parse_line, parse_lines};

fn lines(xs: &[&str]) -> Vec<String> {
    xs.iter().map(|s| s.to_string()).collect()
}

#[test]
fn scenario_comment_and_padding() {
    let input = lines(&["// comment", "alice // her group", "  bob  ", ""]);
    let parsed = parse_lines(&input);
    assert_eq!(parsed, lines(&["alice", "bob"]));
}

#[test]
fn full_line_comment_dropped() {
    assert_eq!(parse_line("// anything at all"), None);
    assert_eq!(parse_line("//"), None);
    assert_eq!(parse_line("//x"), None);
}

#[test]
fn trailing_comment_stripped() {
    assert_eq!(parse_line("alice // her group"), Some("alice".to_string()));
    assert_eq!(parse_line("a//b//c"), Some("a".to_string()));
    assert_eq!(parse_line("name//"), Some("name".to_string()));
}

#[test]
fn whitespace_trimmed() {
    assert_eq!(parse_line("  bob  "), Some("bob".to_string()));
    assert_eq!(parse_line("\tcarol\t"), Some("carol".to_string()));
    assert_eq!(parse_line("dan"), Some("dan".to_string()));
}

#[test]
fn blank_lines_dropped() {
    assert_eq!(parse_line(""), None);
    assert_eq!(parse_line("   "), None);
    assert_eq!(parse_line("   // note"), None);
}

#[test]
fn inner_spaces_kept() {
    assert_eq!(parse_line("two words"), Some("two words".to_string()));
    assert_eq!(
        parse_line("  spaced  name  // tail"),
        Some("spaced  name".to_string())
    );
}

#[test]
fn single_slash_is_not_a_comment() {
    assert_eq!(parse_line("a/b"), Some("a/b".to_string()));
    assert_eq!(parse_line("/x"), Some("/x".to_string()));
}

#[test]
fn parsing_is_idempotent_on_parsed_lists() {
    let input = lines(&[
        "// header",
        "alice // her group",
        "  bob  ",
        "",
        "carol//note",
        "  ",
        "da n",
    ]);
    let once = parse_lines(&input);
    let twice = parse_lines(&once);
    assert_eq!(once, twice);
}

#[test]
fn no_entry_empty_or_with_comment_marker() {
    let input = lines(&["//x", " a // b", "c//d", "  ", "ef", " // ", "g / h"]);
    let parsed = parse_lines(&input);
    assert!(!parsed.is_empty());
    for e in &parsed {
        assert!(!e.is_empty());
        assert!(!e.contains("//"));
    }
}

#[test]
fn order_and_duplicates_kept() {
    let input = lines(&["b", "a", "b", "a"]);
    let parsed = parse_lines(&input);
    assert_eq!(parsed, lines(&["b", "a", "b", "a"]));
}

#[test]
fn empty_input_gives_empty_list() {
    let parsed = parse_lines(&Vec::new());
    assert!(parsed.is_empty());
}
