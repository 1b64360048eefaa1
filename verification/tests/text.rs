use drain::text::{
    ascii_blank, blank, chars_of, comes_before, contains_text, ends_with, find_text, is_text,
    split_ascii_words, split_fields, split_lines, split_words, starts_with, string_of,
    strip_prefix, trim_blank, trim_class, Class,
};

const SAMPLES: [&str; 12] = [
    "",
    " ",
    "one",
    "  two words ",
    "a\nb\n",
    "a\r\nb\r\n\r\n",
    "tab\tand\u{a0}no-break\u{2003}space",
    "\n\n",
    "\r",
    "last line without end",
    "caf\u{e9} \u{1f50b}\nx",
    "a\rb\nc\r",
];

fn strings(v: Vec<&[char]>) -> Vec<String> {
    v.into_iter().map(|s| s.iter().collect()).collect()
}

#[test]
fn blanks_are_white_space() {
    for c in '\0'..=char::MAX {
        assert_eq!(blank(c), c.is_whitespace(), "{:?}", c);
        assert_eq!(ascii_blank(c), c.is_ascii_whitespace(), "{:?}", c);
    }
}

#[test]
fn text_survives_its_characters() {
    for s in SAMPLES {
        assert_eq!(string_of(chars_of(s).as_slice()), s);
    }
}

#[test]
fn texts_are_cut_as_strings_are() {
    for s in SAMPLES {
        let c = chars_of(s);
        let lines: Vec<&str> = s.lines().collect();
        assert_eq!(strings(split_lines(&c)), lines, "{:?}", s);
        let words: Vec<&str> = s.split_whitespace().collect();
        assert_eq!(strings(split_words(&c)), words, "{:?}", s);
        let words: Vec<&str> = s.split_ascii_whitespace().collect();
        assert_eq!(strings(split_ascii_words(&c)), words, "{:?}", s);
        let fields: Vec<&str> = s.split('\t').collect();
        assert_eq!(strings(split_fields(&c, '\t')), fields, "{:?}", s);
        assert_eq!(string_of(trim_blank(&c)), s.trim(), "{:?}", s);
    }
}

#[test]
fn quotes_are_trimmed() {
    let c = chars_of("\"\"glass\"x\"");
    assert_eq!(string_of(trim_class(&c, Class::Only('"'))), "glass\"x");
    let c = chars_of("\"\"");
    assert_eq!(string_of(trim_class(&c, Class::Only('"'))), "");
}

#[test]
fn texts_are_found() {
    let c = chars_of("abcabc");
    assert_eq!(find_text(&c, &chars_of("bc"), 0), Some(1));
    assert_eq!(find_text(&c, &chars_of("bc"), 2), Some(4));
    assert_eq!(find_text(&c, &chars_of("bd"), 0), None);
    assert_eq!(find_text(&c, &chars_of(""), 6), Some(6));
    assert!(contains_text(&c, "cab"));
    assert!(!contains_text(&c, "abca b"));
    assert!(starts_with(&c, "abc"));
    assert!(!starts_with(&c, "bc"));
    assert!(ends_with(&c, "bc"));
    assert!(!ends_with(&c, "ab"));
    assert_eq!(strip_prefix(&c, "abc").map(string_of), Some("abc".to_string()));
    assert_eq!(strip_prefix(&c, "b"), None);
    assert!(is_text(&c, "abcabc"));
    assert!(!is_text(&c, "abcab"));
}

#[test]
fn dictionary_order_is_that_of_strings() {
    let words = ["", "2026-01-02", "2026-01-10", "2026-1-1", "a", "aa", "b", "\u{e9}", "\u{1f50b}"];
    for a in words {
        for b in words {
            assert_eq!(comes_before(&chars_of(a), &chars_of(b)), a < b, "{:?} {:?}", a, b);
        }
    }
}

#[test]
fn appended_lines_add_up() {
    let ledger = "2026-01-01\tglass\t3.0\n2026-01-02\tglass\t1.0\n";
    let added = "2026-01-03\ttile\t9.5\n\n";
    let whole = format!("{}{}", ledger, added);
    let mut parts = strings(split_lines(&chars_of(ledger)));
    parts.extend(strings(split_lines(&chars_of(added))));
    assert_eq!(strings(split_lines(&chars_of(&whole))), parts);
}
