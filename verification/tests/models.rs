use space_tts::models::{
    model_display_name, model_file_name, model_listing_line, name_before_or_same,
    parse_model_listing, resolve_model_path, sort_models, ListedModel, ModelPath,
};

#[test]
fn model_files_are_known_by_their_names() {
    assert_eq!(model_display_name("ggml-base.bin"), Some("base".to_string()));
    assert_eq!(model_display_name("ggml-tiny.bin"), Some("tiny".to_string()));
    assert_eq!(
        model_display_name("ggml-large-v3.q5.bin"),
        Some("large-v3.q5".to_string())
    );
    assert_eq!(model_display_name("ggml-.bin"), Some(String::new()));
    assert_eq!(model_display_name("other.bin"), None);
    assert_eq!(model_display_name("ggml-base.txt"), None);
    assert_eq!(model_display_name("ggml-"), None);
    assert_eq!(model_display_name(".bin"), None);
    assert_eq!(model_display_name("ggml.bin"), None);
    assert_eq!(model_display_name(""), None);
    assert_eq!(model_display_name("GGML-base.bin"), None);
}

#[test]
fn model_names_give_file_names() {
    assert_eq!(model_file_name("small"), "ggml-small.bin");
    assert_eq!(model_file_name(""), "ggml-.bin");
    assert_eq!(
        model_display_name(&model_file_name("médium")),
        Some("médium".to_string())
    );
}

#[test]
fn model_argument_is_resolved_in_order() {
    assert_eq!(resolve_model_path(true, true, true), ModelPath::AsGiven);
    assert_eq!(resolve_model_path(true, false, false), ModelPath::AsGiven);
    assert_eq!(resolve_model_path(false, true, true), ModelPath::InModelsDir);
    assert_eq!(resolve_model_path(false, true, false), ModelPath::InModelsDir);
    assert_eq!(
        resolve_model_path(false, false, true),
        ModelPath::ByNameInModelsDir
    );
    assert_eq!(resolve_model_path(false, false, false), ModelPath::InModelsDir);
}

fn pairs(output: &str) -> Vec<(String, String)> {
    parse_model_listing(output)
        .into_iter()
        .map(|m| (m.name, m.path))
        .collect()
}

#[test]
fn listing_is_read_line_by_line() {
    assert_eq!(
        pairs("base\t/models/ggml-base.bin\ntiny\t/models/ggml-tiny.bin\n"),
        vec![
            ("base".to_string(), "/models/ggml-base.bin".to_string()),
            ("tiny".to_string(), "/models/ggml-tiny.bin".to_string()),
        ]
    );
    assert_eq!(
        pairs("a\tb\tc\r\n\nno tab here\n\tpath only\nname only\t\nlast\tline"),
        vec![
            ("a".to_string(), "b\tc".to_string()),
            ("last".to_string(), "line".to_string()),
        ]
    );
    assert_eq!(pairs(""), Vec::<(String, String)>::new());
}

#[test]
fn listing_lines_are_read_back() {
    let mut listing = String::new();
    listing.push_str(&model_listing_line("base", "/m/ggml-base.bin"));
    listing.push_str(&model_listing_line("tiny", "/m/ggml-tiny.bin"));
    assert_eq!(listing, "base\t/m/ggml-base.bin\ntiny\t/m/ggml-tiny.bin\n");
    assert_eq!(
        pairs(&listing),
        vec![
            ("base".to_string(), "/m/ggml-base.bin".to_string()),
            ("tiny".to_string(), "/m/ggml-tiny.bin".to_string()),
        ]
    );
}

fn chars(s: &str) -> Vec<char> {
    s.chars().collect()
}

#[test]
fn names_are_ordered_as_strings_are() {
    let names = [
        "", "a", "A", "ab", "abc", "b", "base", "tiny", "é", "z", "large-v3", "large", "😀",
        "\u{FFFF}", "e\u{301}",
    ];
    for a in names {
        for b in names {
            assert_eq!(name_before_or_same(&chars(a), &chars(b)), a <= b, "{a:?} {b:?}");
        }
    }
}

#[test]
fn models_are_sorted_by_name() {
    let listed = |name: &str, path: &str| ListedModel {
        name: name.to_string(),
        path: path.to_string(),
    };
    let sorted = sort_models(vec![
        listed("tiny", "ggml-tiny.bin"),
        listed("base", "ggml-base.bin"),
        listed("small", "ggml-small.bin"),
        listed("base.en", "ggml-base.en.bin"),
        listed("", "ggml-.bin"),
        listed("large-v3", "ggml-large-v3.bin"),
    ]);
    let got: Vec<(String, String)> = sorted.into_iter().map(|m| (m.name, m.path)).collect();
    let want: Vec<(String, String)> = [
        ("", "ggml-.bin"),
        ("base", "ggml-base.bin"),
        ("base.en", "ggml-base.en.bin"),
        ("large-v3", "ggml-large-v3.bin"),
        ("small", "ggml-small.bin"),
        ("tiny", "ggml-tiny.bin"),
    ]
    .iter()
    .map(|(n, p)| (n.to_string(), p.to_string()))
    .collect();
    assert_eq!(got, want);
    assert!(sort_models(Vec::new()).is_empty());
    // equal names keep their order
    let sorted = sort_models(vec![listed("a", "2"), listed("b", "x"), listed("a", "1")]);
    let got: Vec<String> = sorted.into_iter().map(|m| m.path).collect();
    assert_eq!(got, vec!["2", "1", "x"]);
}
