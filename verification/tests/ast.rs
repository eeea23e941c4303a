use turf::ast::{parse, parse_rule, Line};

#[test]
fn test_parse_simple_rule() {
    let rule = parse_rule("/src/foo/ @org/team");
    assert_eq!(rule.pattern, "/src/foo/");
    assert_eq!(rule.owners, vec!["@org/team"]);
    assert_eq!(rule.inline_comment, None);
}

#[test]
fn test_parse_rule_multiple_owners() {
    let rule = parse_rule("/src/foo/ @org/team1 @org/team2");
    assert_eq!(rule.pattern, "/src/foo/");
    assert_eq!(rule.owners, vec!["@org/team1", "@org/team2"]);
}

#[test]
fn test_parse_rule_with_inline_comment() {
    let rule = parse_rule("*.js @js-owner #This is a comment");
    assert_eq!(rule.pattern, "*.js");
    assert_eq!(rule.owners, vec!["@js-owner"]);
    assert_eq!(rule.inline_comment, Some("#This is a comment".to_string()));
}

#[test]
fn test_parse_rule_no_owners() {
    let rule = parse_rule("/apps/github");
    assert_eq!(rule.pattern, "/apps/github");
    assert!(rule.owners.is_empty());
    assert_eq!(rule.inline_comment, None);
}

#[test]
fn test_parse_file() {
    let input = "# Header comment\n\n/src/ @org/team1\n/lib/ @org/team2\n\n# Another section\n/docs/ @org/docs\n";
    let file = parse(input);
    assert_eq!(file.groups.len(), 3);

    // First group: just a comment
    assert_eq!(file.groups[0].lines.len(), 1);
    assert!(matches!(&file.groups[0].lines[0], Line::Comment(c) if c.text == "# Header comment"));

    // Second group: two rules
    assert_eq!(file.groups[1].lines.len(), 2);

    // Third group: comment + rule
    assert_eq!(file.groups[2].lines.len(), 2);
}

#[test]
fn test_parse_multiple_blank_lines() {
    let input = "/src/ @team1\n\n\n\n/lib/ @team2\n";
    let file = parse(input);
    assert_eq!(file.groups.len(), 2);
}

#[test]
fn test_parse_empty_input() {
    let file = parse("");
    assert!(file.groups.is_empty());
}

#[test]
fn test_parse_rule_pattern_with_inline_comment_no_owners() {
    // A pattern followed directly by a comment, with no owners in between.
    // This matters because `/foo #comment` should NOT treat `#comment` as an owner.
    let rule = parse_rule("/foo #needs an owner");
    assert_eq!(rule.pattern, "/foo");
    assert!(rule.owners.is_empty());
    assert_eq!(rule.inline_comment, Some("#needs an owner".to_string()));
}

#[test]
fn test_parse_no_trailing_newline() {
    // Files without a trailing newline should parse identically.
    let with = parse("/src/ @team\n");
    let without = parse("/src/ @team");
    assert_eq!(with, without);
}
