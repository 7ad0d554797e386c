use crush::chars::{
    byte_length, has_part, has_prefix, is_whitespace, owned, same_str, to_chars, to_text, trimmed,
    width,
};
use crush::lines::{split_lines, split_words};

#[test]
fn whitespace_is_that_of_unicode() {
    for u in 0..=0x10ffffu32 {
        if let Some(c) = char::from_u32(u) {
            assert_eq!(is_whitespace(c), c.is_whitespace(), "{u:x}");
            assert_eq!(width(c), c.len_utf8(), "{u:x}");
        }
    }
}

#[test]
fn texts_and_characters_convert() {
    let s = "a é 🗜️";
    assert_eq!(to_text(&to_chars(s)), s);
    assert_eq!(owned(s), s);
    assert_eq!(byte_length(s), s.len());
    assert!(same_str(s, "a é 🗜️"));
    assert!(!same_str(s, "a e 🗜️"));
    assert_eq!(to_text(trimmed(&to_chars(" \t x y\u{a0}"))), "x y");
}

#[test]
fn parts_and_prefixes_are_found() {
    let s = to_chars("abcabd");
    assert!(has_part(&s, &to_chars("abd")));
    assert!(has_part(&s, &[]));
    assert!(!has_part(&s, &to_chars("abe")));
    assert!(!has_part(&[], &to_chars("a")));
    assert!(has_prefix(&s, &to_chars("abc")));
    assert!(!has_prefix(&s, &to_chars("abd")));
}

#[test]
fn lines_and_words_split_as_in_std() {
    for s in ["", "\n", "a", "a\n", "a\r\nb\r", "\n\n", "x\r\r\ny", " a  b\u{2003}c ", "é\u{85}f"] {
        let cs = to_chars(s);
        let lines: Vec<String> = split_lines(&cs).iter().map(|l| to_text(l)).collect();
        let expect: Vec<String> = s.lines().map(|l| l.to_string()).collect();
        assert_eq!(lines, expect, "{s:?}");
        let words: Vec<String> = split_words(&cs).iter().map(|w| to_text(w)).collect();
        let expect: Vec<String> = s.split_whitespace().map(|w| w.to_string()).collect();
        assert_eq!(words, expect, "{s:?}");
    }
}
