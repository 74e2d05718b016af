use space_tts::cli::{find_arg_value, has_flag, parse_invocation, Invocation};
use space_tts::hotkey::{apply_key_event, is_keyboard, name_is_excluded};

fn args(list: &[&str]) -> Vec<String> {
    list.iter().map(|a| a.to_string()).collect()
}

#[test]
fn value_follows_the_first_flag() {
    let a = args(&["prog", "--model", "small", "--language", "fr", "--model", "big"]);
    assert_eq!(find_arg_value(&a, "--model"), Some("small".to_string()));
    assert_eq!(find_arg_value(&a, "--language"), Some("fr".to_string()));
    assert_eq!(find_arg_value(&a, "--debug"), None);
    assert_eq!(find_arg_value(&args(&["prog", "--model"]), "--model"), None);
    assert_eq!(
        find_arg_value(&args(&["--model", "--model"]), "--model"),
        Some("--model".to_string())
    );
    assert_eq!(find_arg_value(&args(&[]), "--model"), None);
}

#[test]
fn flags_are_found_anywhere() {
    let a = args(&["prog", "--server", "--debug"]);
    assert!(has_flag(&a, "--debug"));
    assert!(has_flag(&a, "--server"));
    assert!(!has_flag(&a, "--list-models"));
    assert!(!has_flag(&a, "--deb"));
    assert!(!has_flag(&args(&[]), "--debug"));
}

#[test]
fn invocations() {
    assert!(matches!(
        parse_invocation(&args(&["prog"])),
        Invocation::Client
    ));
    assert!(matches!(
        parse_invocation(&args(&["prog", "--debug"])),
        Invocation::Client
    ));
    assert!(matches!(
        parse_invocation(&args(&["prog", "--server", "--list-models"])),
        Invocation::ListModels
    ));
    assert!(matches!(
        parse_invocation(&args(&["prog", "--server"])),
        Invocation::ServerWithoutModel
    ));
    assert!(matches!(
        parse_invocation(&args(&["prog", "--server", "--model"])),
        Invocation::ServerWithoutModel
    ));
    match parse_invocation(&args(&["prog", "--server", "--model", "m.bin"])) {
        Invocation::Server { model, language } => {
            assert_eq!(model, "m.bin");
            assert_eq!(language, "en");
        }
        _ => panic!("expected a server"),
    }
    match parse_invocation(&args(&["prog", "--language", "fr", "--model", "m", "--server"])) {
        Invocation::Server { model, language } => {
            assert_eq!(model, "m");
            assert_eq!(language, "fr");
        }
        _ => panic!("expected a server"),
    }
}

#[test]
fn keyboards_are_told_from_buttons() {
    assert!(is_keyboard(true, true, "AT Set 2 keyboard"));
    assert!(!is_keyboard(false, true, "AT Set 2 keyboard"));
    assert!(!is_keyboard(true, false, "AT Set 2 keyboard"));
    assert!(!is_keyboard(true, true, "Power Button"));
    assert!(!is_keyboard(true, true, "Sleep Button"));
    assert!(!is_keyboard(true, true, "ASUS LED Controller"));
    assert!(!is_keyboard(true, true, "Logitech USB Receiver Consumer Control"));
    assert!(!is_keyboard(true, true, "Logitech USB Receiver System Control"));
    assert!(is_keyboard(true, true, ""));
    let lower: Vec<char> = "my power button".chars().collect();
    assert!(name_is_excluded(&lower));
    let upper: Vec<char> = "My Power Button".chars().collect();
    assert!(!name_is_excluded(&upper));
}

#[test]
fn hotkey_press_toggles_listening() {
    assert!(apply_key_event(false, true, 57, 57, 1));
    assert!(!apply_key_event(true, true, 57, 57, 1));
    // release and repeat do nothing
    assert!(apply_key_event(true, true, 57, 57, 0));
    assert!(!apply_key_event(false, true, 57, 57, 2));
    // other keys and other events do nothing
    assert!(!apply_key_event(false, true, 58, 57, 1));
    assert!(!apply_key_event(false, false, 57, 57, 1));
}
