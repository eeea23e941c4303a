use turf::text::{
    chars_less, chars_of, has_prefix, lines, push_decimal, push_joined, same_string_set, same_strings,
    same_text, string_of, trimmed_end, trimmed_start, whitespace, without_returns,
};

fn words(ws: &[&str]) -> Vec<String> {
    ws.iter().map(|w| w.to_string()).collect()
}

fn decimal(n: usize) -> String {
    let mut out = String::new();
    push_decimal(&mut out, n);
    out
}

#[test]
fn lines_end_at_line_feeds() {
    assert_eq!(lines(""), words(&[]));
    assert_eq!(lines("\n"), words(&[""]));
    assert_eq!(lines("a\nb"), words(&["a", "b"]));
    assert_eq!(lines("a\n\nb\n"), words(&["a", "", "b"]));
}

#[test]
fn lines_drop_one_carriage_return() {
    assert_eq!(lines("a\r\nb\r\r\nc\r"), words(&["a", "b\r", "c\r"]));
    assert_eq!(lines("\r\n\r"), words(&["", "\r"]));
}

#[test]
fn lines_agree_with_std() {
    for text in ["", "x", "x\r", "\r\n", "a\rb\n\rc\r\n\nd", "é\n\u{2028}z\n"] {
        let expected: Vec<String> = text.lines().map(|l| l.to_string()).collect();
        assert_eq!(lines(text), expected);
    }
}

#[test]
fn white_space_agrees_with_std() {
    for c in '\0'..=char::MAX {
        assert_eq!(whitespace(c), c.is_whitespace(), "{c:?}");
    }
}

#[test]
fn trimming_agrees_with_std() {
    for text in ["", " ", "a", "  a b\t", "\u{3000}x\u{a0}", "\u{200b} y ", "\r\nz\u{85}", "x \r\r", "\r"] {
        let cs = chars_of(text);
        assert_eq!(string_of(trimmed_start(&cs)), text.trim_start());
        assert_eq!(string_of(trimmed_end(&cs)), text.trim_end());
        assert_eq!(string_of(without_returns(&cs)), text.trim_end_matches('\r'));
    }
}

#[test]
fn characters_come_back_as_strings() {
    assert_eq!(string_of(&chars_of("aé🦀/")), "aé🦀/");
    assert_eq!(chars_of("é🦀"), vec!['é', '🦀']);
}

#[test]
fn decimals_have_no_leading_zeros() {
    assert_eq!(decimal(0), "0");
    assert_eq!(decimal(9), "9");
    assert_eq!(decimal(10), "10");
    assert_eq!(decimal(90210), "90210");
    assert_eq!(decimal(usize::MAX), usize::MAX.to_string());
}

#[test]
fn lexicographic_order_agrees_with_std() {
    let all = ["", "/", "/a", "/a/", "/a/b", "/ab", "*.js", "Z", "a", "é", "\u{ffff}", "🦀"];
    for a in all {
        for b in all {
            assert_eq!(chars_less(&chars_of(a), &chars_of(b)), a < b, "{a} {b}");
        }
    }
}

#[test]
fn joining_puts_one_space_between_words() {
    let mut out = "x".to_string();
    push_joined(&mut out, &words(&[]));
    assert_eq!(out, "x");
    push_joined(&mut out, &words(&["@a"]));
    assert_eq!(out, "x@a");
    push_joined(&mut out, &words(&["@b", "c@d.e", "@f"]));
    assert_eq!(out, "x@a@b c@d.e @f");
}

#[test]
fn strings_are_compared_in_order() {
    assert!(same_strings(&words(&["@a", "@b"]), &words(&["@a", "@b"])));
    assert!(!same_strings(&words(&["@a", "@b"]), &words(&["@b", "@a"])));
    assert!(!same_strings(&words(&["@a"]), &words(&["@a", "@b"])));
    assert!(same_text("é", "é"));
    assert!(!same_text("é", "e"));
    assert!(!same_text("a", "ab"));
}

#[test]
fn string_sets_have_no_order() {
    assert!(same_string_set(&words(&["@a", "@b"]), &words(&["@b", "@a"])));
    assert!(same_string_set(&words(&["@a", "@b", "@a"]), &words(&["@b", "@a"])));
    assert!(same_string_set(&words(&[]), &words(&[])));
    assert!(!same_string_set(&words(&["@a"]), &words(&["@a", "@b"])));
    assert!(!same_string_set(&words(&["@a", "@b"]), &words(&["@a"])));
    assert!(!same_string_set(&words(&["@a"]), &words(&[])));
}

#[test]
fn prefixes_are_found_at_the_start() {
    assert!(has_prefix(&chars_of("src/a"), &chars_of("src/")));
    assert!(has_prefix(&chars_of("src/a"), &chars_of("")));
    assert!(!has_prefix(&chars_of("src"), &chars_of("src/")));
    assert!(!has_prefix(&chars_of("a/src/"), &chars_of("src/")));
}
