use turf::ast::parse;
use turf::limits::{fits, MAX_GLOB_DEPTH};
use turf::matcher::{codeowners_to_glob, compile_rules, find_owners, pattern_fits, RuleSet};
use turf::text::chars_of;

fn matches(pattern: &str, path: &str) -> bool {
    let file = parse(&format!("{pattern} @x\n"));
    let set = RuleSet::new(&file).unwrap();
    assert_eq!(set.rules.len(), 1, "{pattern}");
    !set.find_owners(path).is_empty()
}

#[test]
fn globs_of_patterns() {
    assert_eq!(codeowners_to_glob("*.js"), "**/*.js");
    assert_eq!(codeowners_to_glob("Makefile"), "**/Makefile");
    assert_eq!(codeowners_to_glob("docs/"), "**/docs/**");
    assert_eq!(codeowners_to_glob("/docs/"), "docs/**");
    assert_eq!(codeowners_to_glob("src/api"), "src/api");
    assert_eq!(codeowners_to_glob("/Makefile"), "Makefile");
    assert_eq!(codeowners_to_glob("src/*/x/"), "src/*/x/**");
    assert_eq!(codeowners_to_glob(""), "**/");
    assert_eq!(codeowners_to_glob("/"), "");
    assert_eq!(codeowners_to_glob("//"), "/**");
}

#[test]
fn bare_names_match_at_any_depth() {
    for path in ["Makefile", "a/Makefile", "a/b/c/Makefile", "/Makefile"] {
        assert!(matches("Makefile", path), "{path}");
    }
    for path in ["Makefile2", "xMakefile", "Makefile/a", "a/Makefile/b", "makefile", ""] {
        assert!(!matches("Makefile", path), "{path}");
    }
}

#[test]
fn bare_directories_match_what_is_inside() {
    for path in ["docs/a", "x/docs/a", "x/y/docs/a/b", "docs/", "/docs/a", "docs/a\nb"] {
        assert!(matches("docs/", path), "{path}");
    }
    for path in ["docs", "x/docs", "mydocs/a", "docs2/a", "a"] {
        assert!(!matches("docs/", path), "{path}");
    }
}

#[test]
fn rooted_directories_match_what_is_inside() {
    for pattern in ["/src/api/", "src/api/"] {
        for path in ["src/api/a.rs", "src/api/b/c.rs", "src/api/"] {
            assert!(matches(pattern, path), "{pattern} {path}");
        }
        for path in ["src/api", "x/src/api/a.rs", "src/api2/a.rs", "src/a"] {
            assert!(!matches(pattern, path), "{pattern} {path}");
        }
    }
    assert!(matches("//", "/a"));
    assert!(!matches("//", "a"));
}

#[test]
fn rooted_files_match_one_path() {
    for pattern in ["/src/a.rs", "src/a.rs"] {
        assert!(matches(pattern, "src/a.rs"));
        for path in ["x/src/a.rs", "src/a.rs/b", "src/a.rsx", "src/axrs"] {
            assert!(!matches(pattern, path), "{pattern} {path}");
        }
    }
    assert!(matches("/a]!^,b", "a]!^,b"));
    assert!(matches("/", ""));
    assert!(!matches("/", "a"));
}

#[test]
fn globs_match_only_below_their_literal_start() {
    for pattern in ["/src/*.rs", "/src/a?c.rs", "/src/[ab]*", "/src/{a,b}/**", "/src/**/x"] {
        for path in ["lib/a.rs", "sr", "srcx/abc.rs", "a/src/abc.rs", "Src/a.rs"] {
            assert!(!matches(pattern, path), "{pattern} {path}");
        }
    }
    assert!(matches("/src/*.rs", "src/a.rs"));
    assert!(!matches("/src/*.rs", "src/a/b.rs"));
    assert!(matches("/src/a?c.rs", "src/abc.rs"));
    assert!(matches("/src/[ab]*", "src/bc"));
    assert!(matches("/src/{a,b}/**", "src/b/x"));
}

#[test]
fn malformed_patterns_are_dropped() {
    let file = parse("[ @a\n/x @b\na{b @c\n/y @d\n");
    let rules = compile_rules(&file);
    let left: Vec<(usize, &str)> = rules.iter().map(|r| (r.position, r.pattern.as_str())).collect();
    assert_eq!(left, vec![(1, "/x"), (3, "/y")]);
    assert_eq!(rules[0].owners, vec!["@b".to_string()]);
    assert_eq!(find_owners("y", &rules).to_vec(), vec!["@d".to_string()]);
}

#[test]
fn the_last_matching_rule_wins() {
    let file = parse("* @a\n/src/ @b @c\n# comment\n\n/src/gen/\n*.md @d\n");
    let set = RuleSet::new(&file).unwrap();
    assert_eq!(set.find_owners("README").to_vec(), vec!["@a"]);
    assert_eq!(set.find_owners("src/a.rs").to_vec(), vec!["@b", "@c"]);
    assert!(set.find_owners("src/gen/a.rs").is_empty());
    assert_eq!(set.find_owners("src/gen/a.md").to_vec(), vec!["@d"]);
    assert_eq!(set.find_all_matching("src/gen/a.md"), vec![0, 1, 2, 3]);
    assert_eq!(set.find_all_matching("src/a.rs"), vec![0, 1]);
}

#[test]
fn no_matching_rule_means_no_owners() {
    let set = RuleSet::new(&parse("/src/ @a\n")).unwrap();
    assert!(set.find_owners("lib/a").is_empty());
    assert!(set.find_all_matching("lib/a").is_empty());
    let none = RuleSet::new(&parse("# nothing\n")).unwrap();
    assert!(none.rules.is_empty());
}

/// The most that a repeated text may be repeated, with something before it.
fn most(before: &str, unit: &str) -> usize {
    let fit = |n: usize| fits(&chars_of(&format!("{before}{}", unit.repeat(n))));
    let mut low = 0;
    let mut high = 1_400_000 / unit.len() + 2;
    while high - low > 1 {
        let middle = (low + high) / 2;
        if fit(middle) {
            low = middle;
        } else {
            high = middle;
        }
    }
    low
}

fn compiles(pattern: &str) -> bool {
    match RuleSet::new(&parse(&format!("{pattern} @x\n"))) {
        Some(set) => set.rules.len() == 1,
        None => false,
    }
}

#[test]
fn long_names_are_compiled_up_to_the_limit() {
    let n = most("", "a");
    assert_eq!(n, 327674);
    let name = "a".repeat(n);
    let set = RuleSet::new(&parse(&format!("/{name} @x"))).unwrap();
    assert!(!set.find_owners(&name).is_empty());
    assert!(!pattern_fits(&format!("/{name}a")));
    assert!(RuleSet::new(&parse(&format!("/x @y\n/{name}a @x"))).is_none());
}

#[test]
fn long_wildcards_are_compiled_up_to_the_limit() {
    for unit in ["*", "?", "[a-z]", "[!x]", "[x]", "[!a-c0-9]"] {
        assert!(compiles(&format!("/{}", unit.repeat(most("", unit)))), "{unit}");
    }
}

#[test]
fn wide_characters_are_compiled_up_to_the_limit() {
    for unit in ["🦀", "é", "中", "[🦀]"] {
        assert!(compiles(&format!("/{}", unit.repeat(most("", unit)))), "{unit}");
    }
}

#[test]
fn long_classes_are_compiled() {
    for member in ["a", "{", "az"] {
        assert!(compiles(&format!("/[{}]", member.repeat(400_000))), "{member}");
    }
    assert!(compiles(&format!("/[{}]", "🦀é-ü".repeat(100_000))));
}

#[test]
fn many_classes_are_compiled_up_to_the_limit() {
    let all: String = ('"'..'~').filter(|c| *c != ']' && *c != '-').collect();
    let odd: String = ('"'..'~').step_by(2).filter(|c| *c != ']' && *c != '-').collect();
    for class in [format!("[{all}]"), format!("[!{odd}]"), format!("[{odd}]")] {
        assert!(compiles(&format!("/{}", class.repeat(most("", &class)))), "{class}");
    }
}

#[test]
fn many_depths_are_compiled_up_to_the_limit() {
    for unit in ["/**/a", "**/a", "/**"] {
        assert!(compiles(&format!("/b{}", unit.repeat(most("b", unit)))), "{unit}");
        assert!(compiles(&format!("/{}", unit.repeat(most("", unit)))), "{unit}");
    }
}

#[test]
fn long_alternatives_are_compiled_up_to_the_limit() {
    for unit in ["a,", "ab,", "*,", "?b,", "🦀a,", "é,", "**/,", "**/a,", "a*,", "*a,", "[ab],", "x/**,"] {
        let n = most("{", unit);
        assert!(compiles(&format!("/{{{}}}", unit.repeat(n))), "{unit}");
    }
}

#[test]
fn many_alternatives_are_compiled_up_to_the_limit() {
    for unit in [
        "{a}", "{a,b}", "{ab,cd*}", "{**/a,**/b*}", "{}", "{ab,ac,d}", "{é,ü}", "{🦀,b}", "{[a],b}",
        "{*,a}", "{a,b,*}", "{,,,,a}", "{**/,**/}", "{**/,a}", "{a*,ab}", "{a,*}", "{ab,ac*}",
    ] {
        assert!(compiles(&format!("/{}", unit.repeat(most("", unit)))), "{unit}");
    }
}

#[test]
fn braces_side_by_side_do_not_nest() {
    assert!(compiles(&format!("/{}", "{a,b}".repeat(MAX_GLOB_DEPTH + 1))));
    assert!(compiles(&format!("/{}", "[{]".repeat(MAX_GLOB_DEPTH + 1))));
}

#[test]
fn nested_alternatives_are_compiled_up_to_the_limit() {
    let open = "{".repeat(MAX_GLOB_DEPTH);
    let close = "}".repeat(MAX_GLOB_DEPTH);
    let set = RuleSet::new(&parse(&format!("/{open}a,b{close} @x"))).unwrap();
    assert!(!set.find_owners("b").is_empty());
    assert!(!pattern_fits(&format!("/{open}{{a}}{close}")));
    assert!(RuleSet::new(&parse(&format!("/{open}{{a}}{close} @x"))).is_none());
}

#[test]
fn mixed_alternatives_are_compiled_up_to_the_limit() {
    for inner in ["**/x", "/**/[!a-z]*?x", "[ab]", "[}]*"] {
        let open = "a*{b*,**/c*".repeat(MAX_GLOB_DEPTH);
        let close = "d}*e,f*".repeat(MAX_GLOB_DEPTH);
        assert!(compiles(&format!("/{open}{inner}{close}")), "{inner}");
        let open = "a{b,c".repeat(MAX_GLOB_DEPTH - 1);
        let close = "}e,f".repeat(MAX_GLOB_DEPTH - 1);
        assert!(compiles(&format!("/{open}{{{inner},q}}{close}")), "{inner}");
    }
}

#[test]
fn braces_in_classes_close_nothing() {
    // Each class holds a brace that closes nothing, so the alternatives nest.
    let open = "{[}]".repeat(MAX_GLOB_DEPTH + 1);
    let close = "}".repeat(MAX_GLOB_DEPTH + 1);
    assert!(!pattern_fits(&format!("/{open}{close}")));
    let open = "{[]}]".repeat(MAX_GLOB_DEPTH + 1);
    assert!(!pattern_fits(&format!("/{open}{close}")));
    let open = "{[!]}]".repeat(MAX_GLOB_DEPTH + 1);
    assert!(!pattern_fits(&format!("/{open}{close}")));
    // Escaped or not, the braces must not nest too deep.
    let open = "{\\}".repeat(MAX_GLOB_DEPTH + 1);
    assert!(!pattern_fits(&format!("/{open}{close}")));
}

#[test]
fn patterns_without_classes_are_kept_if_their_braces_are_balanced() {
    for pattern in ["a", "*", "**", "/**", "?-!^,]", "a,b", "{a,b}", "/{a,{b,c}}/d", "{}", "/a\\b"] {
        assert!(compiles(pattern), "{pattern}");
    }
    for pattern in ["{", "}", "/a{b", "a}b", "}{", "{{}", "{}}"] {
        assert!(!compiles(pattern), "{pattern}");
    }
}
