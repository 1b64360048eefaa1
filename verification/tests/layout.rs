use drain::layout::{join, join_slices, push_left, push_repeated, push_right, replace};
use drain::text::chars_of;

#[test]
fn columns_are_padded() {
    for s in ["", "a", "glass", "\u{e9}\u{e9}", "much too long"] {
        for w in [0usize, 1, 5, 7] {
            let mut left = String::from("|");
            push_left(&mut left, &chars_of(s), w);
            assert_eq!(left, format!("|{:<width$}", s, width = w));
            let mut right = String::from("|");
            push_right(&mut right, &chars_of(s), w);
            assert_eq!(right, format!("|{:>width$}", s, width = w));
        }
    }
}

#[test]
fn parts_are_joined() {
    let none: Vec<String> = Vec::new();
    assert_eq!(join(&none, ", "), "");
    let parts = vec!["a".to_string(), "".to_string(), "c".to_string()];
    assert_eq!(join(&parts, ", "), "a, , c");
    let (a, b) = (chars_of("x"), chars_of("yz"));
    assert_eq!(join_slices(&vec![a.as_slice(), b.as_slice()], ' '), "x yz");
}

#[test]
fn characters_are_repeated_and_replaced() {
    let mut s = String::from("<");
    push_repeated(&mut s, '\u{25cf}', 3);
    assert_eq!(s, "<\u{25cf}\u{25cf}\u{25cf}");
    assert_eq!(replace(&chars_of("a\tb\t"), '\t', "  "), "a  b  ");
}
