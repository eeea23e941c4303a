use turf::ast::{parse, Comment, File, Line};
use turf::commands::format_source;
use turf::formatter::{self, natural_owner_column};
use turf::matcher::RuleSet;
use turf::numbering::rule_line_numbers;
use turf::sorter::{may_overlap, sort_group, sort_groups};
use turf::text::lines;

const MESSY: &str = "\n\n  # top\r\n*.js\t@web   @js # scripts\n/src/b/ @b\n# on a\n/src/a/ @a\n\n\n\
    # alone\n\n/docs/ docs@example.com\nMakefile\n/lib/x.rs @a\n# end\n   \n";

const PATHS: [&str; 12] = [
    "x.js", "src/a/x.js", "src/a/y.rs", "src/b/z", "src/c", "docs/a/b", "docs", "Makefile",
    "a/Makefile", "lib/x.rs", "lib/y.rs", "src/lib/x.rs",
];

fn patterns(file: &File) -> Vec<String> {
    file.groups
        .iter()
        .flat_map(|g| &g.lines)
        .filter_map(|l| match l {
            Line::Rule(rule) => Some(rule.pattern.clone()),
            Line::Comment(_) => None,
        })
        .collect()
}

fn sorted(text: &str) -> File {
    let mut file = parse(text);
    sort_groups(&mut file);
    file
}

fn owners(text: &str, path: &str) -> Vec<String> {
    RuleSet::new(&parse(text)).unwrap().find_owners(path).to_vec()
}

#[test]
fn formatted_text_reads_back() {
    let file = parse(MESSY);
    assert_eq!(parse(&formatter::format(&file)), file);
    let file = sorted(MESSY);
    assert_eq!(parse(&formatter::format(&file)), file);
}

#[test]
fn formatted_text_in_full() {
    assert_eq!(
        format_source(MESSY, false),
        "# top\n\
         *.js      @web @js # scripts\n\
         # on a\n\
         /src/a/   @a\n\
         /src/b/   @b\n\
         \n\
         # alone\n\
         \n\
         /docs/    docs@example.com\n\
         Makefile\n\
         /lib/x.rs @a\n\
         # end\n"
    );
}

#[test]
fn formatting_is_idempotent() {
    for text in [MESSY, "", "\n", "#", "a", "a @b", "/x#y @z #", "\u{3000}é @ä\n"] {
        for no_sort in [false, true] {
            let once = format_source(text, no_sort);
            assert_eq!(format_source(&once, no_sort), once);
        }
    }
}

#[test]
fn formatted_text_ends_with_one_line_feed() {
    for text in [MESSY, "", "a @b", "a @b\n\n\n"] {
        let out = format_source(text, false);
        assert!(out.ends_with('\n'));
        assert!(!out.ends_with("\n\n"));
    }
    assert_eq!(format_source("", false), "\n");
}

#[test]
fn blank_lines_stand_alone_between_groups() {
    let out = lines(&format_source("\n\na @x\n\n\n\nb @y\n \n\t\nc\n\n", false));
    assert_eq!(out, vec!["a @x", "", "b @y", "", "c"]);
}

#[test]
fn owners_of_a_group_start_at_one_column() {
    let out = lines(&format_source("/a @x\n/long/pattern/ @y\n/é @z\n", true));
    assert_eq!(out[0].find('@'), Some(15));
    assert_eq!(out[1].find('@'), Some(15));
    assert_eq!(out[2].find('@'), Some(15));
}

#[test]
fn groups_below_the_cap_share_a_column() {
    let long = "x".repeat(95);
    let wide = "y".repeat(89);
    let out = lines(&format_source(&format!("/a @x\n\n{wide} @y\n\n{long} @z\nb @z\n"), true));
    assert_eq!(out[0].find('@'), Some(90));
    assert_eq!(out[2].find('@'), Some(90));
    assert_eq!(out[4].find('@'), Some(96));
    assert_eq!(out[5].find('@'), Some(96));
}

#[test]
fn natural_columns_count_bytes() {
    let file = parse("/a @x\n/éé @y\n/unowned\n\n# none\n/unowned\n");
    assert_eq!(natural_owner_column(&file.groups[0]), Some(6));
    assert_eq!(natural_owner_column(&file.groups[1]), None);
}

#[test]
fn rules_have_the_smallest_order() {
    // `/b/x` and `*.md` overlap `/b/` and have other owners, so they cannot come before it.
    let file = sorted("/c/ @a\n/b/ @b\n/b/x @a\n*.md @a\n/a/ @a\n");
    assert_eq!(patterns(&file), vec!["/a/", "/b/", "*.md", "/b/x", "/c/"]);
    let file = sorted("/src/x @a\n/src/ @b\n/src/a @a\n");
    assert_eq!(patterns(&file), vec!["/src/x", "/src/", "/src/a"]);
}

#[test]
fn conflicting_rules_keep_their_order() {
    let file = sorted("z* @a\na* @b\nz* @b\n*b @a\n");
    assert_eq!(patterns(&file), vec!["z*", "a*", "z*", "*b"]);
}

#[test]
fn equal_patterns_keep_their_order() {
    let file = sorted("/b @a\n/a @a # one\n/a @a # two\n");
    assert_eq!(
        formatter::format(&file),
        "/a @a # one\n/a @a # two\n/b @a\n"
    );
}

#[test]
fn rules_of_the_same_owners_are_free() {
    let file = sorted("/b/** @a\n*.x @a\n/a/ @a\n/b @a\n");
    assert_eq!(patterns(&file), vec!["*.x", "/a/", "/b", "/b/**"]);
}

#[test]
fn owners_are_compared_as_sets() {
    let file = sorted("/src/b.py @a @b\n/src/a.py @b @a\n");
    assert_eq!(file, parse("/src/a.py @b @a\n/src/b.py @a @b\n"));
    let file = sorted("/src/b.py @a @b\n/src/a.py @b @a @b\n");
    assert_eq!(patterns(&file), vec!["/src/a.py", "/src/b.py"]);
    let file = sorted("/src/b.py @a @b\n/src/a.py @b\n");
    assert_eq!(patterns(&file), vec!["/src/b.py", "/src/a.py"]);
}

#[test]
fn sorting_is_idempotent() {
    let once = sorted(MESSY);
    let mut twice = once.clone();
    sort_groups(&mut twice);
    assert_eq!(twice, once);
}

#[test]
fn sorting_keeps_all_lines() {
    let before = parse(MESSY);
    let after = sorted(MESSY);
    assert_eq!(before.groups.len(), after.groups.len());
    for (b, a) in before.groups.iter().zip(&after.groups) {
        assert_eq!(b.lines.len(), a.lines.len());
        for line in &b.lines {
            let count = |ls: &Vec<Line>| ls.iter().filter(|l| *l == line).count();
            assert_eq!(count(&b.lines), count(&a.lines));
        }
    }
}

#[test]
fn comments_move_with_the_rule_below() {
    let mut file = parse("# head\n/c @x\n# of b\n# more\n/b @x\n# tail\n");
    sort_group(&mut file.groups[0]);
    assert_eq!(
        formatter::format(&file),
        "# head\n# of b\n# more\n/b @x\n/c @x\n# tail\n"
    );
}

#[test]
fn formatting_keeps_the_owners() {
    let text = "*.js @web\n/src/b/ @b\n/src/a/ @a\n/src/a/x.js\n\n/docs/ @d\nMakefile @m\n/lib/ @l\n/lib/x.rs @x\n";
    let out = format_source(text, false);
    for path in PATHS {
        assert_eq!(owners(text, path), owners(&out, path), "{path}");
        assert_eq!(owners(MESSY, path), owners(&format_source(MESSY, false), path), "{path}");
    }
}

#[test]
fn alternatives_and_escapes_may_overlap_what_they_may_stand_for() {
    for (a, b) in [
        ("/src/{a,b}/", "/src/a/"),
        ("/{src,lib}/", "/src/"),
        ("/src/\\a/", "/src/a/"),
        ("{x,y}", "x"),
        ("a\\b", "ab"),
        ("/src/*.{ts,tsx}", "/src/x"),
    ] {
        assert!(may_overlap(a, b), "{a} {b}");
        assert!(may_overlap(b, a), "{a} {b}");
    }
    let text = "/{src,lib}/ @a\n/src/ @b\n";
    assert_eq!(patterns(&sorted(text)), vec!["/{src,lib}/", "/src/"]);
    for path in ["src/x", "lib/x"] {
        assert_eq!(owners(text, path), owners(&format_source(text, false), path));
    }
}

#[test]
fn alternatives_and_escapes_are_told_apart_by_what_is_before_them() {
    for (a, b) in [
        ("/src/*.{ts,tsx}", "/tests/"),
        ("/src/{a,b}/", "/lib/"),
        ("/src/\\a/", "/lib/a/"),
        ("/src/{a,b}/", "/src2/{a,b}/"),
    ] {
        assert!(!may_overlap(a, b), "{a} {b}");
        assert!(!may_overlap(b, a), "{a} {b}");
    }
    let file = sorted("/tests/ @a\n/src/*.{ts,tsx} @b\n");
    assert_eq!(patterns(&file), vec!["/src/*.{ts,tsx}", "/tests/"]);
}

#[test]
fn an_empty_pattern_may_overlap_anything() {
    assert!(may_overlap("", "Makefile"));
    assert!(may_overlap("/src/", ""));
    assert!(may_overlap("", ""));
}

#[test]
fn patterns_told_apart_match_no_file_in_common() {
    let all = ["/src/{a,b}/", "/lib/{x,y}.rs", "/src/a/", "/src/b/*.rs", "/docs/x?", "Makefile", "x.js", "*.js", "src/", "/src/**"];
    for a in all {
        for b in all {
            assert_eq!(may_overlap(a, b), may_overlap(b, a));
            if !may_overlap(a, b) {
                for path in PATHS.into_iter().chain(["src\\a/x", "lib\\x.rs", "a\\x.js", "a\\Makefile"]) {
                    let both = !owners(&format!("{a} @x"), path).is_empty()
                        && !owners(&format!("{b} @x"), path).is_empty();
                    assert!(!both, "{a} {b} {path}");
                }
            }
        }
        assert!(may_overlap(a, a));
    }
}

#[test]
fn comments_are_preserved_as_written() {
    let file = parse("# note  \n\t#  x\u{a0}\t\r\n/a @b  #  why?  \n/b @c \u{a0}\r\n");
    assert_eq!(
        formatter::format(&file),
        "# note  \n#  x\u{a0}\t\n/a @b #  why?  \n/b @c\n"
    );
    assert_eq!(file.groups[0].lines[0], Line::Comment(Comment { text: "# note  ".to_string() }));
    let text = formatter::format(&file);
    assert_eq!(format_source(&text, false), text);
}

#[test]
fn blank_lines_separate_groups_that_read_alone() {
    let texts = ["", "a @x", "a @x\r", "# c\n", "b\n\n", "\n/c @d #e"];
    for a in texts {
        for b in texts {
            let mut groups = parse(a).groups;
            groups.extend(parse(b).groups);
            assert_eq!(parse(&format!("{a}\n\n{b}")).groups, groups);
        }
    }
}

#[test]
fn line_ends_and_leading_blank_lines_make_no_difference() {
    for text in [MESSY, "", "a @x", "# c \n/a @b # d \n"] {
        assert_eq!(parse(&text.replace('\n', "\r\n")), parse(text));
        assert_eq!(parse(&format!("\n \t\r\n\u{3000}\n{text}")), parse(text));
        assert_eq!(parse(&format!("{text}\n")), parse(text));
    }
}

#[test]
fn rule_numbers_point_at_the_rules() {
    let numbers = rule_line_numbers(MESSY);
    let raw = lines(MESSY);
    let all = patterns(&parse(MESSY));
    assert_eq!(numbers, vec![4, 5, 7, 12, 13, 14]);
    assert_eq!(numbers.len(), all.len());
    for (number, pattern) in numbers.iter().zip(&all) {
        assert!(raw[number - 1].trim().starts_with(pattern.as_str()));
    }
    assert_eq!(rule_line_numbers("# a\n\n#b"), Vec::<usize>::new());
}
