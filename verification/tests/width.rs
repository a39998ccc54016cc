use unicode_ellipsis::{grapheme_width, str_width};

#[test]
fn test_str_width() {
    assert_eq!(str_width("aaa"), 3);
    assert_eq!(str_width("a"), 1);
    assert_eq!(str_width("💎💎"), 4);
    assert_eq!(str_width("💎"), 2);
    assert_eq!(str_width("大大"), 4);
    assert_eq!(str_width("大"), 2);
    assert_eq!(str_width("🇨🇦🇨🇦"), 4);
    assert_eq!(str_width("🇨🇦"), 2);
    assert_eq!(str_width("हिन्दी"), 5);
    assert_eq!(str_width("हि"), 2);
}

#[test]
fn test_grapheme_width() {
    assert_eq!(grapheme_width("a"), 1);
    assert_eq!(grapheme_width("💎"), 2);
    assert_eq!(grapheme_width("大"), 2);
    assert_eq!(grapheme_width("🇨🇦"), 2);
    assert_eq!(grapheme_width("हि"), 2);
}
