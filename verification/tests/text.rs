use reth_kit::text::{
    chars_of, find_in, has_prefix, is_whitespace, same_text, slice_of, string_of, string_of_range,
    trim_bounds,
};

#[test]
fn white_space_is_unicode_white_space() {
    for n in 0..=0x10ffffu32 {
        if let Some(c) = char::from_u32(n) {
            assert_eq!(is_whitespace(c), c.is_whitespace(), "U+{n:04X}");
        }
    }
}

#[test]
fn strings_and_characters() {
    let s = "héllo wörld";
    let v = chars_of(s);
    assert_eq!(v, s.chars().collect::<Vec<char>>());
    assert_eq!(string_of(&v), s);
    assert_eq!(string_of_range(&v, 1, 4), "éll");
    assert_eq!(slice_of(&v, 6, 11), vec!['w', 'ö', 'r', 'l', 'd']);
    assert!(same_text("abc", "abc"));
    assert!(!same_text("abc", "abd"));
    assert!(!same_text("abc", "ab"));
    assert!(same_text("", ""));
}

#[test]
fn find_gives_the_first_occurrence() {
    let hay = chars_of("abcabcäabc");
    assert_eq!(find_in(&hay, &chars_of("abc"), 0), Some(0));
    assert_eq!(find_in(&hay, &chars_of("abc"), 1), Some(3));
    assert_eq!(find_in(&hay, &chars_of("abc"), 4), Some(7));
    assert_eq!(find_in(&hay, &chars_of("abc"), 8), None);
    assert_eq!(find_in(&hay, &chars_of("x"), 0), None);
    assert_eq!(find_in(&hay, &chars_of(""), 10), Some(10));
    assert_eq!(find_in(&hay, &chars_of(""), 11), None);
    assert_eq!(find_in(&hay, &chars_of("äabc"), 0), Some(6));
    assert!(has_prefix(&hay, &chars_of("abca")));
    assert!(!has_prefix(&hay, &chars_of("b")));
    assert!(has_prefix(&hay, &chars_of("")));
    assert!(!has_prefix(&chars_of("ab"), &chars_of("abc")));
}

#[test]
fn trim_bounds_agree_with_trim() {
    for s in ["  a b \t", "", "   ", "x", "\u{2003}y\u{a0}", "\n\nline\r\n"] {
        let v = chars_of(s);
        let (lo, hi) = trim_bounds(&v, 0, v.len());
        assert_eq!(string_of_range(&v, lo, hi), s.trim());
    }
    let v = chars_of("ab  cd  ef");
    let (lo, hi) = trim_bounds(&v, 2, 8);
    assert_eq!((lo, hi), (4, 6));
}
