use drain::clipboard::{b64_encode, copy};

#[test]
fn base64_known_texts() {
    for (plain, coded) in [
        ("", ""),
        ("f", "Zg=="),
        ("fo", "Zm8="),
        ("foo", "Zm9v"),
        ("foob", "Zm9vYg=="),
        ("fooba", "Zm9vYmE="),
        ("foobar", "Zm9vYmFy"),
    ] {
        assert_eq!(b64_encode(plain.as_bytes()), coded);
    }
    assert_eq!(b64_encode(&[0xfb, 0xff, 0xbf]), "+/+/");
}

#[test]
fn base64_length_is_four_for_three() {
    for n in 0..40usize {
        assert_eq!(b64_encode(&vec![0xa5; n]).len(), (n + 2) / 3 * 4);
    }
}

#[test]
fn copy_wraps_the_bytes_of_the_text() {
    assert_eq!(copy("foo"), "\x1b]52;c;Zm9v\x07");
    assert_eq!(copy("\u{e9}"), "\x1b]52;c;w6k=\x07");
}
