use globset::GlobBuilder;
use turf::matcher::{codeowners_to_glob, compile_rules, find_owners, CompiledRule};

fn glob_matches(pattern: &str, path: &str) -> bool {
    let glob_pattern = codeowners_to_glob(pattern);
    let glob = GlobBuilder::new(&glob_pattern)
        .literal_separator(true)
        .build()
        .unwrap()
        .compile_matcher();
    glob.is_match(path)
}

#[test]
fn test_rooted_directory() {
    assert!(glob_matches("/src/sentry/api/", "src/sentry/api/foo.py"));
    assert!(glob_matches(
        "/src/sentry/api/",
        "src/sentry/api/sub/foo.py"
    ));
    assert!(!glob_matches("/src/sentry/api/", "src/sentry/utils/foo.py"));
}

#[test]
fn test_rooted_file() {
    assert!(glob_matches("/src/foo.py", "src/foo.py"));
    assert!(!glob_matches("/src/foo.py", "other/src/foo.py"));
    assert!(!glob_matches("/src/foo.py", "src/bar.py"));
}

#[test]
fn test_wildcard_extension() {
    assert!(glob_matches("*.js", "app.js"));
    assert!(glob_matches("*.js", "src/deep/nested/app.js"));
    assert!(!glob_matches("*.js", "app.py"));
}

#[test]
fn test_wildcard_in_path() {
    assert!(glob_matches("/bin/mock*", "bin/mock-server"));
    assert!(glob_matches("/bin/mock*", "bin/mock_test"));
    assert!(!glob_matches("/bin/mock*", "bin/other"));
}

#[test]
fn test_double_star() {
    assert!(glob_matches("**/logs", "logs"));
    assert!(glob_matches("**/logs", "src/logs"));
    assert!(glob_matches("**/logs", "deep/nested/logs"));
}

#[test]
fn test_unanchored_with_slash() {
    // `docs/*` has a slash in the middle, so it's anchored to root
    assert!(glob_matches("docs/*", "docs/README.md"));
    assert!(!glob_matches("docs/*", "docs/sub/README.md"));
    assert!(!glob_matches("docs/*", "other/docs/README.md"));
}

#[test]
fn test_catch_all() {
    assert!(glob_matches("*", "anything.txt"));
    assert!(glob_matches("*", "src/deep/file.py"));
}

#[test]
fn test_last_match_wins() {
    let input = "* @default\n*.js @js-team\n/src/special.js @special\n";
    let file = turf::ast::parse(input);
    let rules = compile_rules(&file);

    assert_eq!(find_owners("README.md", &rules), &["@default"]);
    assert_eq!(find_owners("app.js", &rules), &["@js-team"]);
    assert_eq!(find_owners("src/app.js", &rules), &["@js-team"]);
    assert_eq!(find_owners("src/special.js", &rules), &["@special"]);
}

#[test]
fn test_directory_override() {
    let input =
        "/src/sentry/snuba/ @snuba\n/src/sentry/snuba/metrics/query.py @snuba @telemetry\n";
    let file = turf::ast::parse(input);
    let rules = compile_rules(&file);

    assert_eq!(find_owners("src/sentry/snuba/foo.py", &rules), &["@snuba"]);
    assert_eq!(
        find_owners("src/sentry/snuba/metrics/query.py", &rules),
        &["@snuba", "@telemetry"]
    );
}

#[test]
fn test_bare_filename_matches_anywhere() {
    assert!(glob_matches("Makefile", "Makefile"));
    assert!(glob_matches("Makefile", "src/Makefile"));
    assert!(glob_matches("Makefile", "src/deep/nested/Makefile"));
    assert!(!glob_matches("Makefile", "Makefile.bak"));
}

#[test]
fn test_no_rules_means_unowned() {
    let rules: Vec<CompiledRule> = vec![];
    assert!(find_owners("any/file.py", &rules).is_empty());
}
