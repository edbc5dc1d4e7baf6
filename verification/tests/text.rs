use transcribe_rs::text::{is_whitespace, trim};

#[test]
fn whitespace_is_the_unicode_property() {
    for code in 0..=0x10ffff_u32 {
        if let Some(c) = char::from_u32(code) {
            assert_eq!(is_whitespace(c), c.is_whitespace(), "{:x}", code);
        }
    }
}

#[test]
fn trims_like_the_standard_library() {
    for s in [
        "", " ", "a", " a", "a ", "  a b \u{a0}\u{3000}", "\n\tпривет\r\n", "\u{200b}x\u{200b}",
        "  \u{2028} ",
    ] {
        assert_eq!(trim(s), s.trim());
    }
}

#[test]
fn trimming_twice_is_trimming_once() {
    let once = trim("  a  b  ");
    assert_eq!(once, "a  b");
    assert_eq!(trim(&once), once);
}
