use space_tts::text::{
    char_is_whitespace, chars_of, concat_all, find_in, has_prefix, has_suffix, same, same_str,
    split_lines, split_whitespace, string_of, trim_bounds, trim_end_len, trim_end_matches_len,
    trim_start_len,
};

fn chars(s: &str) -> Vec<char> {
    s.chars().collect()
}

fn strings(parts: Vec<Vec<char>>) -> Vec<String> {
    parts.into_iter().map(|p| p.into_iter().collect()).collect()
}

#[test]
fn white_space_is_what_std_calls_white_space() {
    for code in 0..=0x10FFFFu32 {
        if let Some(c) = char::from_u32(code) {
            assert_eq!(char_is_whitespace(c), c.is_whitespace(), "U+{code:04X}");
        }
    }
}

#[test]
fn strings_and_characters_convert_both_ways() {
    assert_eq!(chars_of("aé😀"), vec!['a', 'é', '😀']);
    assert_eq!(chars_of(""), Vec::<char>::new());
    assert_eq!(string_of(&['a', 'é', '😀']), "aé😀");
    assert_eq!(string_of(&[]), "");
}

#[test]
fn trimming_matches_std() {
    let cases = ["", " ", "a", "  a b  ", "\t\na\u{3000}", "\u{00A0}x\u{2003}y\r\n", "   "];
    for case in cases {
        let v = chars(case);
        let (a, b) = trim_bounds(&v);
        let got: String = v[a..b].iter().collect();
        assert_eq!(got, case.trim(), "{case:?}");
        let n = trim_end_len(&v);
        let got: String = v[..n].iter().collect();
        assert_eq!(got, case.trim_end(), "{case:?}");
        let i = trim_start_len(&v);
        let got: String = v[i..].iter().collect();
        assert_eq!(got, case.trim_start(), "{case:?}");
    }
    let v = chars("wait.!? ,");
    assert_eq!(trim_end_matches_len(&v, &['.', '!', '?', ' ', ',']), 4);
    assert_eq!(trim_end_matches_len(&v, &['.', '!', '?', ',']), 8);
    assert_eq!(trim_end_matches_len(&chars("..."), &['.']), 0);
    assert_eq!(trim_end_matches_len(&chars("abc"), &[]), 3);
}

#[test]
fn finding_matches_std() {
    let cases = [
        ("hello world", "o"),
        ("hello world", "world"),
        ("hello world", "worlds"),
        ("aaa", "aa"),
        ("abc", ""),
        ("", ""),
        ("", "a"),
        ("été chaud", "chaud"),
        ("abcabc", "cab"),
    ];
    for (hay, needle) in cases {
        let want = hay.find(needle).map(|byte| hay[..byte].chars().count());
        assert_eq!(find_in(&chars(hay), &chars(needle)), want, "{hay:?} {needle:?}");
        assert_eq!(
            has_prefix(&chars(hay), &chars(needle)),
            hay.starts_with(needle),
            "{hay:?} {needle:?}"
        );
        assert_eq!(
            has_suffix(&chars(hay), &chars(needle)),
            hay.ends_with(needle),
            "{hay:?} {needle:?}"
        );
    }
}

#[test]
fn comparison_is_by_characters() {
    assert!(same(&chars("abc"), &chars("abc")));
    assert!(!same(&chars("abc"), &chars("abd")));
    assert!(!same(&chars("abc"), &chars("ab")));
    assert!(same(&[], &[]));
    assert!(same_str("é", "é"));
    assert!(!same_str("e", "é"));
}

#[test]
fn words_match_std() {
    let cases = ["", "  ", "a", " a  bb\tccc\n", "one\u{3000}two", "x y z"];
    for case in cases {
        let want: Vec<String> = case.split_whitespace().map(|w| w.to_string()).collect();
        assert_eq!(strings(split_whitespace(&chars(case))), want, "{case:?}");
    }
    assert_eq!(
        concat_all(&split_whitespace(&chars(" ab  c d "))),
        vec!['a', 'b', 'c', 'd']
    );
}

#[test]
fn lines_match_std() {
    let cases = [
        "",
        "\n",
        "a",
        "a\n",
        "a\nb",
        "a\r\nb\r\n",
        "a\r",
        "a\r\r\n",
        "\n\n",
        "a\n\nb\n",
        "\r\n",
    ];
    for case in cases {
        let want: Vec<String> = case.lines().map(|l| l.to_string()).collect();
        assert_eq!(strings(split_lines(&chars(case))), want, "{case:?}");
    }
}
