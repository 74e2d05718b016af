use space_tts::setup::{
    apply_input_key, language_code, language_name, Backend, InputKey, InputOutcome, LANGUAGES,
};

#[test]
fn languages_of_the_menu() {
    let names = [
        "English",
        "Français",
        "Deutsch",
        "Español",
        "Italiano",
        "Português",
        "日本語",
        "中文",
    ];
    let codes = ["en", "fr", "de", "es", "it", "pt", "ja", "zh"];
    assert_eq!(LANGUAGES, 8);
    for i in 0..LANGUAGES {
        assert_eq!(language_name(i), names[i]);
        assert_eq!(language_code(i), codes[i]);
    }
    assert_eq!(language_code(8), "en");
    assert_eq!(language_code(usize::MAX), "en");
}

#[test]
fn backend_holds_its_paths() {
    let local = Backend::Local { model_path: "/m/ggml-base.bin".to_string() };
    let remote = Backend::Remote {
        ssh_target: "me@host".to_string(),
        remote_model_path: "/r/ggml-base.bin".to_string(),
    };
    assert!(matches!(local, Backend::Local { model_path } if model_path == "/m/ggml-base.bin"));
    assert!(matches!(
        remote,
        Backend::Remote { ssh_target, remote_model_path }
            if ssh_target == "me@host" && remote_model_path == "/r/ggml-base.bin"
    ));
}

#[test]
fn text_field_editing() {
    let mut input: Vec<char> = Vec::new();
    assert!(matches!(apply_input_key(&mut input, InputKey::Backspace), InputOutcome::Editing));
    assert!(input.is_empty());
    assert!(matches!(apply_input_key(&mut input, InputKey::Enter), InputOutcome::Editing));
    for c in "  me@hosts ".chars() {
        assert!(matches!(
            apply_input_key(&mut input, InputKey::Char(c)),
            InputOutcome::Editing
        ));
    }
    assert!(matches!(apply_input_key(&mut input, InputKey::Other), InputOutcome::Editing));
    assert!(matches!(apply_input_key(&mut input, InputKey::Backspace), InputOutcome::Editing));
    assert!(matches!(apply_input_key(&mut input, InputKey::Backspace), InputOutcome::Editing));
    assert_eq!(input.iter().collect::<String>(), "  me@host");
    match apply_input_key(&mut input, InputKey::Enter) {
        InputOutcome::Confirmed(text) => assert_eq!(text, "me@host"),
        _ => panic!("expected a confirmation"),
    }
    assert_eq!(input.iter().collect::<String>(), "  me@host");
    assert!(matches!(apply_input_key(&mut input, InputKey::Esc), InputOutcome::Cancelled));

    let mut blank: Vec<char> = vec![' ', '\t'];
    assert!(matches!(apply_input_key(&mut blank, InputKey::Enter), InputOutcome::Editing));
}
