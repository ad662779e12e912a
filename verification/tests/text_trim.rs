use openepl::text::trim_text;

#[test]
fn trim_text_matches_str_trim_on_ascii_white_space() {
    for s in ["", "   ", "abc", "  abc", "abc  ", "\t a b \r\n", "\u{b}x\u{c}"] {
        assert_eq!(trim_text(s), s.trim());
    }
}

#[test]
fn trim_text_matches_str_trim_on_unicode_white_space() {
    for s in [
        "\u{85}x\u{a0}",
        "\u{1680}\u{2000}mid dle\u{200a}\u{2028}",
        "\u{2029}\u{202f}\u{205f}\u{3000}",
        "\u{3000}名前\u{3000}",
        "\u{200b}zero width stays\u{200b}",
    ] {
        assert_eq!(trim_text(s), s.trim());
    }
}

#[test]
fn trim_text_keeps_inner_white_space() {
    assert_eq!(trim_text("  a  b  "), "a  b");
}
