use turf::ast::parse;
use turf::commands::{
    codeowners_candidates, exit_status, first_existing, format_action, format_source, FormatAction,
};
use turf::disputed::{
    dead_rules, disputed_report, disputed_status, disputed_summary, file_outcome, outcomes_are_fit,
    rules_are_numbered,
};
use turf::matcher::RuleSet;
use turf::numbering::rule_line_numbers;
use turf::who_owns::{
    files_in_scope, files_of_query, scope_prefix, who_owns_report, who_owns_summary,
};

fn words(ws: &[&str]) -> Vec<String> {
    ws.iter().map(|w| w.to_string()).collect()
}

fn outcomes(set: &RuleSet, files: &[&str]) -> Vec<Vec<(usize, Option<usize>)>> {
    files.iter().filter_map(|f| file_outcome(set, f)).collect()
}

#[test]
fn a_check_compares_input_and_output() {
    assert_eq!(format_action("a\n", "a\n", true, false, true), FormatAction::Formatted);
    assert_eq!(format_action("a", "a\n", true, false, true), FormatAction::NotFormatted);
    assert_eq!(format_action("a", "a\n", true, true, false), FormatAction::NotFormatted);
}

#[test]
fn writing_needs_a_path() {
    assert_eq!(format_action("a", "b", false, true, true), FormatAction::Write);
    assert_eq!(format_action("a", "b", false, true, false), FormatAction::MissingPath);
    assert_eq!(format_action("a", "b", false, false, true), FormatAction::Print);
    assert_eq!(format_action("a", "b", false, false, false), FormatAction::Print);
}

#[test]
fn exit_statuses() {
    assert_eq!(exit_status(FormatAction::Formatted), 0);
    assert_eq!(exit_status(FormatAction::NotFormatted), 1);
    assert_eq!(exit_status(FormatAction::Write), 0);
    assert_eq!(exit_status(FormatAction::MissingPath), 2);
    assert_eq!(exit_status(FormatAction::Print), 0);
    assert_eq!(disputed_status(0), 0);
    assert_eq!(disputed_status(1), 1);
    assert_eq!(disputed_status(7), 1);
}

#[test]
fn formatted_text_passes_the_check() {
    let text = "/b/ @x\n/a/ @y\n\n\n# c\n";
    let out = format_source(text, false);
    assert_eq!(out, "/a/ @y\n/b/ @x\n\n# c\n");
    assert_eq!(
        format_action(&out, &format_source(&out, false), true, false, true),
        FormatAction::Formatted
    );
    assert_eq!(format_action(text, &out, true, false, true), FormatAction::NotFormatted);
    assert_eq!(format_source(text, true), "/b/ @x\n/a/ @y\n\n# c\n");
}

#[test]
fn places_are_tried_in_order() {
    assert_eq!(
        codeowners_candidates(),
        words(&["CODEOWNERS", ".github/CODEOWNERS", "docs/CODEOWNERS"])
    );
    assert_eq!(first_existing(&vec![false, true, true]), Some(1));
    assert_eq!(first_existing(&vec![true, false]), Some(0));
    assert_eq!(first_existing(&vec![false, false]), None);
    assert_eq!(first_existing(&vec![]), None);
}

#[test]
fn scopes_are_directories_below_the_root() {
    assert_eq!(scope_prefix(false, false, "src/api"), Some("src/api/".to_string()));
    assert_eq!(scope_prefix(false, false, "src/"), Some("src/".to_string()));
    assert_eq!(scope_prefix(false, false, ""), Some("/".to_string()));
    assert_eq!(scope_prefix(false, true, ""), None);
    assert_eq!(scope_prefix(true, false, "src/a.rs"), None);
}

#[test]
fn files_are_limited_to_the_scope() {
    let files = words(&["a", "src", "src/a", "src/b/c", "srcs/d", "x/src/e"]);
    assert_eq!(files_in_scope(files.clone(), &None), files);
    assert_eq!(
        files_in_scope(files, &Some("src/".to_string())),
        words(&["src/a", "src/b/c"])
    );
}

#[test]
fn queries_are_about_a_file_a_directory_or_all() {
    let files = words(&["a", "src/api/x", "src/api2/x", "src/api"]);
    assert_eq!(files_of_query(true, false, "not/tracked", files.clone()), words(&["not/tracked"]));
    assert_eq!(files_of_query(false, true, "", files.clone()), files);
    assert_eq!(files_of_query(false, false, "src/api", files.clone()), words(&["src/api/x"]));
    assert_eq!(files_of_query(false, false, "docs", files), words(&[]));
}

#[test]
fn owners_are_reported_line_by_line() {
    let files = words(&["a.rs", "b c", "d"]);
    let owners = vec![words(&["@x", "@y"]), words(&[]), words(&["z@w.v"])];
    let report = who_owns_report(&files, &owners, false);
    assert_eq!(report.text, "a.rs @x @y\nd z@w.v\n");
    assert_eq!((report.owned, report.unowned), (2, 1));
    let report = who_owns_report(&files, &owners, true);
    assert_eq!(report.text, "a.rs @x @y\nb c (unowned)\nd z@w.v\n");
    assert_eq!((report.owned, report.unowned), (2, 1));
    let report = who_owns_report(&vec![], &vec![], true);
    assert_eq!((report.text.as_str(), report.owned, report.unowned), ("", 0, 0));
}

#[test]
fn the_number_of_owned_files_is_summed_up() {
    assert_eq!(who_owns_summary(10, 2, 12), "\n10 owned, 2 unowned, 12 total files");
    assert_eq!(who_owns_summary(0, 0, 0), "\n0 owned, 0 unowned, 0 total files");
}

#[test]
fn outcomes_of_a_file() {
    let set = RuleSet::new(&parse("* @a\n/src/ @b\n*.rs @a\n")).unwrap();
    assert_eq!(
        file_outcome(&set, "src/x.rs"),
        Some(vec![(0, None), (1, Some(2)), (2, None)])
    );
    assert_eq!(file_outcome(&set, "src/x"), Some(vec![(0, Some(1)), (1, None)]));
    let set = RuleSet::new(&parse("/src/ @b\n")).unwrap();
    assert_eq!(file_outcome(&set, "x"), None);
}

#[test]
fn dead_rules_are_reported_with_their_overriders() {
    let text = "# c\n/src/ @a\n*.js @c\n/lib/ @a @d\n\n* @b\n/src/y @e\n";
    let set = RuleSet::new(&parse(text)).unwrap();
    let per_file = outcomes(&set, &["src/x", "src/y", "src/z.js", "lib/w"]);
    assert!(outcomes_are_fit(set.rules.len(), &per_file));
    let dead = dead_rules(set.rules.len(), &per_file);
    let found: Vec<usize> = dead.iter().map(|d| d.rule).collect();
    assert_eq!(found, vec![0, 1, 2]);
    assert_eq!(dead[0].total, 3);
    assert_eq!(dead[0].overrides, vec![(3, 2), (4, 1)]);
    for rule in &dead {
        assert_eq!(rule.overrides.iter().map(|o| o.1).sum::<usize>(), rule.total);
    }
    let numbers = rule_line_numbers(text);
    assert!(rules_are_numbered(&set, &numbers));
    assert_eq!(
        disputed_report(&set, &numbers, &dead),
        "line 2: /src/ @a is fully overridden (3 files):\n\
         \x20 line 6: * @b (2 files)\n\
         \x20 line 7: /src/y @e (1 files)\n\
         \n\
         line 3: *.js @c is fully overridden (1 files):\n\
         \x20 line 6: * @b (1 files)\n\
         \n\
         line 4: /lib/ @a @d is fully overridden (1 files):\n\
         \x20 line 6: * @b (1 files)\n\
         \n"
    );
    assert_eq!(disputed_summary(dead.len()), "3 dead rules found.");
}

#[test]
fn rules_that_decide_a_file_are_not_dead() {
    let set = RuleSet::new(&parse("* @a\n/src/ @b\n*.rs @a\n/docs/ @d\n")).unwrap();
    let per_file = outcomes(&set, &["src/x.rs", "src/x", "y", "z.rs"]);
    let dead = dead_rules(set.rules.len(), &per_file);
    assert!(dead.is_empty());
    assert_eq!(disputed_report(&set, &vec![1, 2, 3, 4], &dead), "");
    assert_eq!(disputed_summary(0), "No disputed rules found.");
    // Without the file that it decides, `/src/` is dead.
    let per_file = outcomes(&set, &["src/x.rs", "y"]);
    let dead = dead_rules(set.rules.len(), &per_file);
    assert_eq!(dead.len(), 1);
    assert_eq!((dead[0].rule, dead[0].total), (1, 1));
    assert_eq!(dead[0].overrides, vec![(2, 1)]);
}

#[test]
fn malformed_rules_keep_the_line_numbers_of_the_others() {
    let text = "[ @z\n/src/ @a\n\n* @b\n";
    let set = RuleSet::new(&parse(text)).unwrap();
    let per_file = outcomes(&set, &["src/x"]);
    let dead = dead_rules(set.rules.len(), &per_file);
    assert_eq!(
        disputed_report(&set, &rule_line_numbers(text), &dead),
        "line 2: /src/ @a is fully overridden (1 files):\n\x20 line 4: * @b (1 files)\n\n"
    );
}

#[test]
fn unfit_outcomes_are_told() {
    assert!(outcomes_are_fit(2, &vec![vec![(0, Some(1)), (1, None)], vec![]]));
    assert!(!outcomes_are_fit(1, &vec![vec![(0, None), (1, None)]]));
    assert!(!outcomes_are_fit(2, &vec![vec![(1, None), (0, None)]]));
    assert!(!outcomes_are_fit(2, &vec![vec![(0, None), (0, None)]]));
    assert!(!outcomes_are_fit(2, &vec![vec![(0, Some(2))]]));
}

#[test]
fn missing_line_numbers_are_told() {
    let set = RuleSet::new(&parse("/a @x\n/b @y\n")).unwrap();
    assert!(rules_are_numbered(&set, &vec![1, 2]));
    assert!(!rules_are_numbered(&set, &vec![1]));
}
