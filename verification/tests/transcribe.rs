use space_tts::transcribe::{
    filter_hallucinations, finish_transcript, has_repetition, initial_prompt, is_filler_text,
    is_long_filler_text, is_repetitive, keep_remainder,
};

#[test]
fn filter_full_hallucination() {
    assert_eq!(filter_hallucinations("Merci d'avoir regardé la vidéo!"), "");
    assert_eq!(filter_hallucinations("Merci d'avoir regardé."), "");
    assert_eq!(filter_hallucinations("Thanks for watching"), "");
    assert_eq!(filter_hallucinations("Sous-titrage Société Radio-Canada"), "");
    assert_eq!(filter_hallucinations("Sous-titrage"), "");
    assert_eq!(filter_hallucinations("Subscribe"), "");
}

#[test]
fn filter_repetitive_hallucination() {
    assert_eq!(filter_hallucinations("MerciMerciMerci"), "");
    assert_eq!(filter_hallucinations("merci merci merci"), "");
    assert_eq!(filter_hallucinations("Thank you. Thank you. Thank you."), "");
    assert_eq!(filter_hallucinations("you you you you"), "");
}

#[test]
fn filter_trailing_hallucination() {
    assert_eq!(
        filter_hallucinations("Bonjour tout le monde. Merci d'avoir regardé la vidéo!"),
        "Bonjour tout le monde"
    );
    assert_eq!(
        filter_hallucinations("Bonjour. Sous-titrage Société Radio-Canada"),
        "Bonjour"
    );
}

#[test]
fn filter_trailing_merci() {
    assert_eq!(
        filter_hallucinations("Il fait beau aujourd'hui. Merci!"),
        "Il fait beau aujourd'hui"
    );
    assert_eq!(
        filter_hallucinations("Il fait beau aujourd'hui. Merci !"),
        "Il fait beau aujourd'hui"
    );
}

#[test]
fn filter_keeps_real_text() {
    assert_eq!(
        filter_hallucinations("Bonjour, je suis Matthieu"),
        "Bonjour, je suis Matthieu"
    );
    // "merci" as part of real speech should be kept
    assert_eq!(
        filter_hallucinations("Je te remercie pour ton aide"),
        "Je te remercie pour ton aide"
    );
    // Short patterns used in real speech must NOT be stripped mid-sentence
    assert_eq!(
        filter_hallucinations("Je veux activer le sous-titrage automatique"),
        "Je veux activer le sous-titrage automatique"
    );
    assert_eq!(
        filter_hallucinations("I need to subscribe to the service"),
        "I need to subscribe to the service"
    );
}

#[test]
fn transcribe_filter_full_hallucination() {
    assert_eq!(filter_hallucinations("Merci d'avoir regardé la vidéo!"), "");
    assert_eq!(filter_hallucinations("Merci d'avoir regardé."), "");
    assert_eq!(filter_hallucinations("Thanks for watching"), "");
}

#[test]
fn transcribe_filter_trailing_hallucination() {
    assert_eq!(
        filter_hallucinations("Bonjour tout le monde. Merci d'avoir regardé la vidéo!"),
        "Bonjour tout le monde"
    );
}

#[test]
fn transcribe_filter_trailing_merci() {
    assert_eq!(
        filter_hallucinations("Il fait beau aujourd'hui. Merci!"),
        "Il fait beau aujourd'hui"
    );
    assert_eq!(
        filter_hallucinations("Il fait beau aujourd'hui. Merci !"),
        "Il fait beau aujourd'hui"
    );
}

#[test]
fn transcribe_filter_keeps_real_text() {
    assert_eq!(
        filter_hallucinations("Bonjour, je suis Matthieu"),
        "Bonjour, je suis Matthieu"
    );
    // "merci" as part of real speech should be kept
    assert_eq!(
        filter_hallucinations("Je te remercie pour ton aide"),
        "Je te remercie pour ton aide"
    );
}

fn chars(s: &str) -> Vec<char> {
    s.chars().collect()
}

fn word_list(words: &[&str]) -> Vec<Vec<char>> {
    words.iter().map(|w| chars(w)).collect()
}

#[test]
fn every_filler_phrase_alone_is_discarded() {
    let fillers = [
        "merci d'avoir regardé",
        "merci d'avoir regardé la vidéo",
        "merci d'avoir regardé cette vidéo",
        "merci de votre attention",
        "sous-titres réalisés par",
        "sous-titrage société radio-canada",
        "like and subscribe",
        "please subscribe",
        "thanks for watching",
        "thank you for watching",
        "sous-titres par",
        "sous-titrage st'",
        "sous-titrage",
        "société radio-canada",
        "subscribe",
        "merci",
    ];
    for filler in fillers {
        assert_eq!(filter_hallucinations(filler), "", "{filler}");
        assert_eq!(filter_hallucinations(&filler.to_uppercase()), "", "{filler}");
        assert_eq!(filter_hallucinations(&format!("{filler} !?., ")), "", "{filler}");
        assert!(is_filler_text(&chars(filler)));
    }
    assert!(!is_filler_text(&chars("merci beaucoup")));
    assert!(!is_filler_text(&chars(" merci")));
}

#[test]
fn long_fillers_are_cut_off_the_end_only() {
    let long = [
        "merci d'avoir regardé",
        "merci d'avoir regardé la vidéo",
        "merci d'avoir regardé cette vidéo",
        "merci de votre attention",
        "sous-titres réalisés par",
        "sous-titrage société radio-canada",
        "like and subscribe",
        "please subscribe",
        "thanks for watching",
        "thank you for watching",
    ];
    for filler in long {
        assert_eq!(
            filter_hallucinations(&format!("Voici le texte. {filler}.")),
            "Voici le texte",
            "{filler}"
        );
    }
    // A filler in the middle of a sentence is part of the sentence.
    assert_eq!(
        filter_hallucinations("He said thanks for watching and left"),
        "He said thanks for watching and left"
    );
    // The short ones are never cut off.
    assert_eq!(
        filter_hallucinations("Voici le sous-titrage"),
        "Voici le sous-titrage"
    );
    // The longest filler at the end decides where the cut is.
    assert_eq!(
        filter_hallucinations("Bien. Like and subscribe"),
        "Bien"
    );
    assert_eq!(
        chars_to_string(&keep_remainder(&chars("Bon. Please like and subscribe!"))),
        "Bon. Please"
    );
}

fn chars_to_string(v: &[char]) -> String {
    v.iter().collect()
}

#[test]
fn what_is_left_after_the_cut_is_checked_again() {
    assert_eq!(
        filter_hallucinations("Subscribe. Thanks for watching!"),
        ""
    );
    assert_eq!(
        filter_hallucinations("Thanks for watching. Please subscribe"),
        ""
    );
    assert_eq!(
        filter_hallucinations("ha ha ha. Thanks for watching"),
        ""
    );
    assert_eq!(filter_hallucinations("... thanks for watching"), "");
}

#[test]
fn lone_merci_rule() {
    assert_eq!(filter_hallucinations("Tres bien, merci"), "Tres bien");
    assert_eq!(filter_hallucinations("Tres bien. Merci !! "), "Tres bien");
    // Part of a word: kept.
    assert_eq!(filter_hallucinations("Grand-merci"), "Grand-merci");
    // Upper case is no lone Merci.
    assert_eq!(filter_hallucinations("Tres bien. MERCI"), "Tres bien. MERCI");
    // Followed by a full stop: kept, only the stop goes.
    assert_eq!(filter_hallucinations("Tres bien. Merci."), "Tres bien. Merci");
}

#[test]
fn output_is_trimmed() {
    assert_eq!(filter_hallucinations("  Bonjour à tous.  "), "Bonjour à tous");
    assert_eq!(filter_hallucinations("Vraiment ?!,"), "Vraiment");
    assert_eq!(filter_hallucinations("\tOui alors. . "), "Oui alors.");
    assert_eq!(filter_hallucinations(""), "");
    assert_eq!(filter_hallucinations("   "), "");
    assert_eq!(filter_hallucinations("?!"), "");
}

#[test]
fn non_ascii_text_passes_through() {
    assert_eq!(filter_hallucinations("été"), "été");
    assert_eq!(filter_hallucinations("Ça a été un été chaud"), "Ça a été un été chaud");
    assert_eq!(filter_hallucinations("ééé"), "");
    assert_eq!(filter_hallucinations("こんにちは"), "こんにちは");
}

#[test]
fn repetition_rules() {
    // No words at all.
    assert!(is_repetitive(""));
    assert!(is_repetitive("?!..."));
    // A unit of up to twelve characters, three times or more.
    assert!(is_repetitive("abcabcabc"));
    assert!(is_repetitive("aaa"));
    assert!(!is_repetitive("aa"));
    assert!(!is_repetitive("abcabc"));
    assert!(is_repetitive("abcdefghijklabcdefghijklabcdefghijkl"));
    assert!(!is_repetitive("abcdefghijklmabcdefghijklmabcdefghijklm"));
    assert!(is_repetitive("ab, ab. ab!"));
    // One word three times in a row, anywhere.
    assert!(is_repetitive("well no no no then"));
    assert!(!is_repetitive("well no no then no"));
    // A phrase of two or three words three times, at the start.
    assert!(is_repetitive("thank you thank you thank you very much"));
    assert!(is_repetitive("one two three one two three one two three four"));
    assert!(!is_repetitive("so thank you thank you thank you"));
    assert!(!is_repetitive("thank you thank you"));
    assert!(!is_repetitive("bonjour tout le monde"));
}

#[test]
fn repetition_on_given_words() {
    assert!(has_repetition(&word_list(&[])));
    assert!(has_repetition(&word_list(&["a", "a", "a"])));
    assert!(has_repetition(&word_list(&["ab", "cab", "c", "abc"])));
    assert!(has_repetition(&word_list(&["x", "b", "b", "b"])));
    assert!(has_repetition(&word_list(&["a", "b", "a", "b", "a", "b", "c"])));
    assert!(has_repetition(&word_list(&[
        "a", "b", "c", "a", "b", "c", "a", "b", "c", "d"
    ])));
    assert!(!has_repetition(&word_list(&["c", "a", "b", "a", "b", "a", "b"])));
    assert!(!has_repetition(&word_list(&["a", "b", "a", "b"])));
    assert!(!has_repetition(&word_list(&["hello"])));
}

#[test]
fn engine_answer_is_finished() {
    assert_eq!(finish_transcript(None), "");
    assert_eq!(
        finish_transcript(Some("  Bonjour tout le monde. \n".to_string())),
        "Bonjour tout le monde"
    );
    assert_eq!(finish_transcript(Some(" Thanks for watching! ".to_string())), "");
}

#[test]
fn prompts_by_language() {
    assert_eq!(
        initial_prompt("fr"),
        "Bonjour, ceci est une transcription en français."
    );
    assert_eq!(initial_prompt("de"), "Hallo, dies ist eine Transkription auf Deutsch.");
    assert_eq!(initial_prompt("es"), "Hola, esta es una transcripción en español.");
    assert_eq!(initial_prompt("it"), "Ciao, questa è una trascrizione in italiano.");
    assert_eq!(initial_prompt("pt"), "Olá, esta é uma transcrição em português.");
    assert_eq!(initial_prompt("ja"), "こんにちは、これは日本語の文字起こしです。");
    assert_eq!(initial_prompt("zh"), "你好，这是中文转录。");
    assert_eq!(initial_prompt("en"), "Hello, this is an English transcription.");
    assert_eq!(initial_prompt("xx"), "Hello, this is an English transcription.");
    assert_eq!(initial_prompt(""), "Hello, this is an English transcription.");
}

#[test]
fn case_and_letters_follow_unicode() {
    // lower case by the Unicode tables: accented capitals, and the final sigma
    assert_eq!(filter_hallucinations("SOCIÉTÉ RADIO-CANADA"), "");
    assert_eq!(filter_hallucinations("MERCI D'AVOIR REGARDÉ LA VIDÉO"), "");
    assert_eq!(filter_hallucinations("ΑΣ ΑΣ"), "ΑΣ ΑΣ");
    assert_eq!(filter_hallucinations("ΑΣΑΣΑΣ"), "ΑΣΑΣΑΣ");
    assert_eq!(filter_hallucinations("ΑΣ ΑΣ ΑΣ"), "");
    // letters and digits of any script count as word characters, marks do not
    assert!(is_repetitive("été, été; été"));
    assert!(is_repetitive("7-7-7"));
    assert!(is_repetitive("日本 日本 日本"));
    assert!(is_repetitive("a-b a+b a=b"));
    assert!(!is_repetitive("a-b a+c a=d"));
    assert!(is_repetitive("a.b a,b a b"));
}

#[test]
fn the_cut_lies_in_the_text_as_written() {
    // lower case is longer than the text here: the cut is found in the text
    assert_eq!(
        filter_hallucinations("İstanbul. Thanks for watching"),
        "İstanbul"
    );
    assert_eq!(
        filter_hallucinations("İİİ İstanbul'a gidiyorum. MERCI D'AVOIR REGARDÉ LA VIDÉO !"),
        "İİİ İstanbul'a gidiyorum"
    );
    // the Kelvin sign has a shorter lower case in bytes
    assert_eq!(filter_hallucinations("\u{212A}é thanks for watching"), "\u{212A}é");
    assert_eq!(
        chars_to_string(&keep_remainder(&chars("İ. Please subscribe"))),
        "İ"
    );
    // the cut may fall inside a word: what follows is the filler and nothing more
    assert_eq!(
        chars_to_string(&keep_remainder(&chars("xthanks for watching."))),
        "x"
    );
    // nothing to cut
    assert_eq!(
        chars_to_string(&keep_remainder(&chars(" thanks for watching you "))),
        "thanks for watching you"
    );
    assert_eq!(chars_to_string(&keep_remainder(&chars(""))), "");
}

#[test]
fn long_fillers_are_told_from_short_ones() {
    assert!(is_long_filler_text(&chars("thanks for watching!!")));
    assert!(is_long_filler_text(&chars("sous-titres réalisés par ., ")));
    assert!(!is_long_filler_text(&chars("subscribe")));
    assert!(!is_long_filler_text(&chars("merci")));
    assert!(!is_long_filler_text(&chars("Thanks for watching")));
    assert!(!is_long_filler_text(&chars("")));
}
