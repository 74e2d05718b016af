use space_tts::inject::{
    detect_xkb_layout, dotool_command, in_input_group, parse_gsettings_layout,
    parse_localectl_layout, sanitize, split_layout,
};

#[test]
fn sanitize_newlines_to_spaces() {
    assert_eq!(sanitize("line1\nline2"), "line1 line2");
    assert_eq!(sanitize("line1\r\nline2"), "line1  line2");
    assert_eq!(sanitize("line1\rline2"), "line1 line2");
}

#[test]
fn sanitize_removes_null_and_control_chars() {
    assert_eq!(sanitize("line1\nline2\0foo\x01bar"), "line1 line2foobar");
}

#[test]
fn sanitize_strips_whitespace() {
    assert_eq!(sanitize("  hello  "), "hello");
}

#[test]
fn sanitize_empty_after_strip() {
    assert_eq!(sanitize("\n\0\x01"), "");
}

#[test]
fn sanitize_preserves_unicode() {
    assert_eq!(sanitize("café résumé"), "café résumé");
}

#[test]
fn sanitize_removes_delete_and_c1_controls() {
    // U+007F (DEL) and U+0080-U+009F (C1 controls)
    assert_eq!(sanitize("a\x7Fb"), "ab");
    assert_eq!(sanitize("a\u{0080}b"), "ab");
    assert_eq!(sanitize("a\u{009F}b"), "ab");
    // U+00A0 (non-breaking space) should be kept
    assert_eq!(sanitize("a\u{00A0}b"), "a\u{00A0}b");
}

#[test]
fn parse_gsettings_single_layout() {
    let output = "[('xkb', 'us+altgr-intl')]\n";
    assert_eq!(
        parse_gsettings_layout(output),
        Some("us+altgr-intl".to_string())
    );
}

#[test]
fn parse_gsettings_multiple_layouts() {
    let output = "[('xkb', 'fr'), ('xkb', 'us')]\n";
    assert_eq!(parse_gsettings_layout(output), Some("fr".to_string()));
}

#[test]
fn parse_gsettings_no_xkb() {
    let output = "@as []\n";
    assert_eq!(parse_gsettings_layout(output), None);
}

#[test]
fn parse_localectl_with_variant() {
    let output = "   System Locale: LANG=fr_FR.UTF-8\n       VC Keymap: us\n      X11 Layout: us\n     X11 Variant: altgr-intl\n";
    assert_eq!(
        parse_localectl_layout(output),
        Some("us+altgr-intl".to_string())
    );
}

#[test]
fn parse_localectl_without_variant() {
    let output =
        "   System Locale: LANG=en_US.UTF-8\n       VC Keymap: us\n      X11 Layout: us\n";
    assert_eq!(parse_localectl_layout(output), Some("us".to_string()));
}

#[test]
fn sanitize_trims_unicode_space_and_keeps_inner_tabs_out() {
    assert_eq!(sanitize("\u{3000}a\tb\u{2003}"), "ab");
    assert_eq!(sanitize("\u{00A0}a b\u{00A0}"), "a b");
    assert_eq!(sanitize(""), "");
    assert_eq!(sanitize("\r\n"), "");
}

#[test]
fn parse_gsettings_edge_cases() {
    assert_eq!(parse_gsettings_layout("[('xkb', '')]"), None);
    assert_eq!(parse_gsettings_layout("[('xkb', 'de"), None);
    assert_eq!(parse_gsettings_layout(""), None);
    assert_eq!(
        parse_gsettings_layout("  [('ibus', 'x'), ('xkb', 'ch+fr')]  "),
        Some("ch+fr".to_string())
    );
}

#[test]
fn parse_localectl_edge_cases() {
    assert_eq!(parse_localectl_layout(""), None);
    assert_eq!(parse_localectl_layout("X11 Variant: dvorak\n"), None);
    assert_eq!(
        parse_localectl_layout("X11 Layout: us\r\nX11 Variant:   \r\n"),
        Some("us".to_string())
    );
    assert_eq!(
        parse_localectl_layout("X11 Layout: us\nX11 Layout: fr\nX11 Variant: a\nX11 Variant: b"),
        Some("fr+b".to_string())
    );
    assert_eq!(
        parse_localectl_layout("X11 Layout:\n"),
        Some("".to_string())
    );
}

#[test]
fn layout_detection_falls_back_in_order() {
    assert_eq!(
        detect_xkb_layout(Some("[('xkb', 'fr')]"), Some("X11 Layout: de\n")),
        "fr"
    );
    assert_eq!(
        detect_xkb_layout(Some("@as []"), Some("X11 Layout: de\n")),
        "de"
    );
    assert_eq!(detect_xkb_layout(None, Some("X11 Layout: de\n")), "de");
    assert_eq!(detect_xkb_layout(Some("@as []"), Some("nothing")), "us");
    assert_eq!(detect_xkb_layout(None, None), "us");
}

#[test]
fn layout_splits_at_first_plus() {
    assert_eq!(
        split_layout("us+altgr-intl"),
        ("us".to_string(), Some("altgr-intl".to_string()))
    );
    assert_eq!(split_layout("fr"), ("fr".to_string(), None));
    assert_eq!(
        split_layout("a+b+c"),
        ("a".to_string(), Some("b+c".to_string()))
    );
    assert_eq!(split_layout("+"), ("".to_string(), Some("".to_string())));
}

#[test]
fn typing_command_wraps_sanitized_text() {
    assert_eq!(
        dotool_command(" hello\nworld "),
        Some("type hello world\n".to_string())
    );
    assert_eq!(dotool_command("\n\0"), None);
    assert_eq!(dotool_command(""), None);
}

#[test]
fn input_group_is_found_among_groups() {
    assert!(in_input_group("wheel input audio\n"));
    assert!(in_input_group("input"));
    assert!(!in_input_group("wheel inputs audio"));
    assert!(!in_input_group(""));
}
