use turf::ast;
use turf::ast::Line;
use turf::sorter::{anchor_prefix, is_unanchored, may_overlap, sort_groups};

#[test]
fn test_is_unanchored() {
    assert!(is_unanchored("*.js"));
    assert!(is_unanchored("Makefile"));
    assert!(!is_unanchored("/src/foo/"));
    assert!(!is_unanchored("src/foo/bar.py"));
    assert!(!is_unanchored("/Makefile"));
}

#[test]
fn test_anchor_prefix() {
    assert_eq!(anchor_prefix("/src/sentry/api/"), "src/sentry/api/");
    assert_eq!(anchor_prefix("/bin/mock*"), "bin/");
    assert_eq!(
        anchor_prefix("/src/sentry/snuba/metrics/query.py"),
        "src/sentry/snuba/metrics/"
    );
    assert_eq!(anchor_prefix("*.js"), "");
    assert_eq!(anchor_prefix("/Makefile"), "");
}

#[test]
fn test_may_overlap_same_tree() {
    // Same directory tree → overlap
    assert!(may_overlap(
        "/src/sentry/api/",
        "/src/sentry/api/endpoints/relay/"
    ));
    // Different trees → no overlap
    assert!(!may_overlap("/src/sentry/api/", "/tests/sentry/relay/"));
}

#[test]
fn test_may_overlap_wildcards() {
    // ** always overlaps
    assert!(may_overlap("**/logs", "/src/foo/"));
    // Unanchored glob overlaps with everything
    assert!(may_overlap("*.js", "/src/foo.py"));
}

#[test]
fn test_may_overlap_unanchored_literals() {
    // Two different bare filenames can never match the same file.
    assert!(!may_overlap("Makefile", ".git-blame-ignore-revs"));
    assert!(!may_overlap("Makefile", ".envrc"));
    // Same bare filename does overlap (trivially).
    assert!(may_overlap("Makefile", "Makefile"));
    // Wildcard unanchored still overlaps conservatively.
    assert!(may_overlap("*.js", "Makefile"));
    // Unanchored directory patterns overlap conservatively.
    assert!(may_overlap("docs/", "logs/"));
}

#[test]
fn test_may_overlap_disjoint_anchored() {
    assert!(!may_overlap("/src/sentry/api/", "/src/sentry/relay/"));
    assert!(!may_overlap("/tests/foo/", "/src/foo/"));
}

#[test]
fn test_sort_same_owners() {
    let input = "/src/z/ @team\n/src/a/ @team\n/src/m/ @team\n";
    let mut file = ast::parse(input);
    sort_groups(&mut file);

    let rules: Vec<&str> = file.groups[0]
        .lines
        .iter()
        .filter_map(|l| match l {
            Line::Rule(r) => Some(r.pattern.as_str()),
            _ => None,
        })
        .collect();
    assert_eq!(rules, vec!["/src/a/", "/src/m/", "/src/z/"]);
}

#[test]
fn test_sort_different_owners_no_overlap() {
    // Different owners but different directory trees → safe to sort.
    let input = "/tests/z/ @team-test\n/src/a/ @team-src\n";
    let mut file = ast::parse(input);
    sort_groups(&mut file);

    let rules: Vec<&str> = file.groups[0]
        .lines
        .iter()
        .filter_map(|l| match l {
            Line::Rule(r) => Some(r.pattern.as_str()),
            _ => None,
        })
        .collect();
    assert_eq!(rules, vec!["/src/a/", "/tests/z/"]);
}

#[test]
fn test_sort_preserves_override_order() {
    // /src/foo/ comes before /src/foo/bar.py with different owners.
    // The specific rule overrides the general one — order must be preserved.
    let input = "/src/foo/ @team-general\n/src/foo/bar.py @team-specific\n";
    let mut file = ast::parse(input);
    sort_groups(&mut file);

    let rules: Vec<&str> = file.groups[0]
        .lines
        .iter()
        .filter_map(|l| match l {
            Line::Rule(r) => Some(r.pattern.as_str()),
            _ => None,
        })
        .collect();
    // Must stay in original order since they overlap and have different owners.
    assert_eq!(rules, vec!["/src/foo/", "/src/foo/bar.py"]);
}

#[test]
fn test_sort_mixed_overlap_and_independent() {
    // Three rules: two overlap (must keep order), one is independent (can sort).
    let input = "/src/z/ @team-a\n/src/z/specific.py @team-b\n/lib/a/ @team-c\n";
    let mut file = ast::parse(input);
    sort_groups(&mut file);

    let rules: Vec<&str> = file.groups[0]
        .lines
        .iter()
        .filter_map(|l| match l {
            Line::Rule(r) => Some(r.pattern.as_str()),
            _ => None,
        })
        .collect();
    // /lib/a/ can move to front (independent, sorts first).
    // /src/z/ must stay before /src/z/specific.py (overlap + different owners).
    assert_eq!(rules, vec!["/lib/a/", "/src/z/", "/src/z/specific.py"]);
}

#[test]
fn test_sort_preserves_comments() {
    let input = "## Header\n/src/z/ @team\n# About a\n/src/a/ @team\n";
    let mut file = ast::parse(input);
    sort_groups(&mut file);

    let lines: Vec<String> = file.groups[0]
        .lines
        .iter()
        .map(|l| match l {
            Line::Comment(c) => c.text.clone(),
            Line::Rule(r) => r.pattern.clone(),
        })
        .collect();
    // "## Header" stays pinned at the top (it's before any rule).
    // "# About a" is attached to /src/a/ and moves with it.
    assert_eq!(lines, vec!["## Header", "# About a", "/src/a/", "/src/z/"]);
}

#[test]
fn test_sort_trailing_comments() {
    let input = "/src/z/ @team\n/src/a/ @team\n# trailing\n";
    let mut file = ast::parse(input);
    sort_groups(&mut file);

    let lines: Vec<String> = file.groups[0]
        .lines
        .iter()
        .map(|l| match l {
            Line::Comment(c) => c.text.clone(),
            Line::Rule(r) => r.pattern.clone(),
        })
        .collect();
    assert_eq!(lines, vec!["/src/a/", "/src/z/", "# trailing"]);
}

#[test]
fn test_sort_unanchored_before_anchored() {
    // Unanchored patterns (no leading /) should sort before anchored ones.
    let input = "/src/z/ @team\n*.js @team\nMakefile @team\n/src/a/ @team\n";
    let mut file = ast::parse(input);
    sort_groups(&mut file);

    let rules: Vec<&str> = file.groups[0]
        .lines
        .iter()
        .filter_map(|l| match l {
            Line::Rule(r) => Some(r.pattern.as_str()),
            _ => None,
        })
        .collect();
    // Unanchored first (sorted among themselves), then anchored (sorted).
    assert_eq!(rules, vec!["*.js", "Makefile", "/src/a/", "/src/z/"]);
}

#[test]
fn test_sort_unanchored_before_anchored_mixed_owners() {
    // *.py was originally after /src/b/ with different owners and overlapping
    // patterns, so it must stay after /src/b/ (moving it before would change
    // who owns src/b/*.py files). /src/a/ and /src/b/ are disjoint and free to sort.
    let input = "/src/b/ @team-b\n*.py @team-a\n/src/a/ @team-a\n";
    let mut file = ast::parse(input);
    sort_groups(&mut file);

    let rules: Vec<&str> = file.groups[0]
        .lines
        .iter()
        .filter_map(|l| match l {
            Line::Rule(r) => Some(r.pattern.as_str()),
            _ => None,
        })
        .collect();
    assert_eq!(rules, vec!["/src/a/", "/src/b/", "*.py"]);
}
