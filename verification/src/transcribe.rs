//! What a recognition engine returns, cleaned before it is typed.
//!
//! Speech models trained on subtitles tend to answer silence and noise with
//! closing credits ("thanks for watching") or with one word over and over.
//! The filter here discards such transcripts and cuts such endings off.

use crate::text::{
    chars_of, concat, concat_all, contains_char, contents, ends_with, has_suffix, is_alphanumeric,
    is_whitespace, char_is_alphanumeric, char_is_whitespace, lowercase, same, same_str,
    split_whitespace, string_of, to_lowercase, to_vec, trim, trim_bounds, trim_end,
    trim_end_len, trim_end_matches, trim_end_matches_len, words,
};
use crate::protocol::ProtocolError;
use vstd::prelude::*;
use vstd::slice::slice_subrange;

verus! {

// ---------------------------------------------------------------------------
// The transcription capability
// ---------------------------------------------------------------------------

/// Why a segment has no transcript.
#[derive(Debug)]
pub enum TranscribeError {
    /// The in-process engine failed in a way that is surfaced.
    Engine(String),
    /// The server answered with a failure report; holds its text.
    Remote(String),
    /// The server sent a message that has no place at this point.
    UnexpectedMessage,
    /// The server's bytes are no message.
    Protocol(ProtocolError),
    /// The pipe to the server failed; holds the system's description.
    Io(String),
}

/// Turns one speech segment (mono, 16 kHz) into text.
pub trait Transcriber {
    fn transcribe(&mut self, audio_i16: &[i16]) -> Result<String, TranscribeError>;
}

/// The sentence that primes the engine for a language, given by its code.
/// Unknown codes get the English one.
pub open spec fn initial_prompt_for(language: Seq<char>) -> Seq<char> {
    if language == "fr"@ {
        "Bonjour, ceci est une transcription en français."@
    } else if language == "de"@ {
        "Hallo, dies ist eine Transkription auf Deutsch."@
    } else if language == "es"@ {
        "Hola, esta es una transcripción en español."@
    } else if language == "it"@ {
        "Ciao, questa è una trascrizione in italiano."@
    } else if language == "pt"@ {
        "Olá, esta é uma transcrição em português."@
    } else if language == "ja"@ {
        "こんにちは、これは日本語の文字起こしです。"@
    } else if language == "zh"@ {
        "你好，这是中文转录。"@
    } else {
        "Hello, this is an English transcription."@
    }
}

/// The sentence that primes the engine for `language`.
pub fn initial_prompt(language: &str) -> (r: &'static str)
    ensures
        r@ == initial_prompt_for(language@),
{
    if same_str(language, "fr") {
        "Bonjour, ceci est une transcription en français."
    } else if same_str(language, "de") {
        "Hallo, dies ist eine Transkription auf Deutsch."
    } else if same_str(language, "es") {
        "Hola, esta es una transcripción en español."
    } else if same_str(language, "it") {
        "Ciao, questa è una trascrizione in italiano."
    } else if same_str(language, "pt") {
        "Olá, esta é uma transcrição em português."
    } else if same_str(language, "ja") {
        "こんにちは、これは日本語の文字起こしです。"
    } else if same_str(language, "zh") {
        "你好，这是中文转录。"
    } else {
        "Hello, this is an English transcription."
    }
}

// ---------------------------------------------------------------------------
// Repetition
// ---------------------------------------------------------------------------

/// Longest unit, in characters, that counts as a tile.
pub const MAX_TILE: usize = 12;

/// Fewest repeats that count as repetition.
pub const MIN_REPEATS: usize = 3;

/// The letters, digits and white space of `text`, in order.
pub open spec fn word_chars(text: Seq<char>) -> Seq<char>
    decreases text.len(),
{
    if text.len() == 0 {
        text
    } else {
        let front = word_chars(text.drop_last());
        let c = text.last();
        if is_alphanumeric(c) || is_whitespace(c) {
            front.push(c)
        } else {
            front
        }
    }
}

/// `s` is its first `unit` characters, written at least three times.
pub open spec fn is_tiling(s: Seq<char>, unit: int) -> bool {
    &&& 1 <= unit <= MAX_TILE
    &&& unit <= s.len()
    &&& (s.len() as int) % unit == 0
    &&& (s.len() as int) / unit >= MIN_REPEATS
    &&& forall|i: int| 0 <= i < s.len() ==> #[trigger] s[i] == s[i % unit]
}

/// `s` is a short unit written at least three times.
pub open spec fn is_tiled(s: Seq<char>) -> bool {
    exists|unit: int| is_tiling(s, unit)
}

/// The same word stands at `at` and at the two places behind it.
pub open spec fn is_triple(words: Seq<Seq<char>>, at: int) -> bool {
    &&& 0 <= at
    &&& at + 2 < words.len()
    &&& words[at] == words[at + 1]
    &&& words[at + 1] == words[at + 2]
}

/// Some word stands three times in a row.
pub open spec fn has_word_run(words: Seq<Seq<char>>) -> bool {
    exists|at: int| is_triple(words, at)
}

/// `words` starts with its first `size` words, three times in a row.
pub open spec fn starts_with_phrase(words: Seq<Seq<char>>, size: int) -> bool {
    &&& size > 0
    &&& words.len() >= MIN_REPEATS * size
    &&& forall|j: int| 0 <= j < MIN_REPEATS * size ==> #[trigger] words[j] == words[j % size]
}

/// The words say one thing over and over: there are none; or, written
/// without spaces, they are a unit of at most twelve characters at least
/// three times; or one word stands three times in a row; or they start with
/// a phrase of two or three words three times in a row.
pub open spec fn repeats(words: Seq<Seq<char>>) -> bool {
    ||| words.len() == 0
    ||| is_tiled(concat(words))
    ||| has_word_run(words)
    ||| starts_with_phrase(words, 2)
    ||| starts_with_phrase(words, 3)
}

/// The text, punctuation aside, says one thing over and over.
pub open spec fn is_repetitive_text(text: Seq<char>) -> bool {
    repeats(words(word_chars(text)))
}

/// The letters, digits and white space of `text`.
fn keep_word_chars(text: &[char]) -> (r: Vec<char>)
    ensures
        r@ == word_chars(text@),
{
    let mut out: Vec<char> = Vec::new();
    let mut i: usize = 0;
    assert(text@.take(0) =~= Seq::<char>::empty());
    while i < text.len()
        invariant
            i <= text.len(),
            out@ == word_chars(text@.take(i as int)),
        decreases text.len() - i,
    {
        let c: char = text[i];
        assert(text@.take(i + 1).drop_last() =~= text@.take(i as int));
        if char_is_alphanumeric(c) || char_is_whitespace(c) {
            out.push(c);
        }
        i += 1;
    }
    assert(text@.take(text.len() as int) =~= text@);
    out
}

/// Tests one unit length.
fn tiles(s: &[char], unit: usize) -> (r: bool)
    ensures
        r == is_tiling(s@, unit as int),
{
    if unit < 1 || unit > MAX_TILE || unit > s.len() || s.len() % unit != 0 || s.len() / unit
        < MIN_REPEATS {
        return false;
    }
    let mut i: usize = 0;
    while i < s.len()
        invariant
            i <= s.len(),
            1 <= unit <= s.len(),
            forall|j: int| 0 <= j < i ==> #[trigger] s@[j] == s@[j % (unit as int)],
        decreases s.len() - i,
    {
        if s[i] != s[i % unit] {
            return false;
        }
        i += 1;
    }
    true
}

/// Tests every unit length.
fn tiled(s: &[char]) -> (r: bool)
    ensures
        r == is_tiled(s@),
{
    let mut unit: usize = 1;
    while unit <= MAX_TILE
        invariant
            1 <= unit <= MAX_TILE + 1,
            forall|u: int| 1 <= u < unit ==> !is_tiling(s@, u),
        decreases MAX_TILE + 1 - unit,
    {
        if tiles(s, unit) {
            return true;
        }
        unit += 1;
    }
    false
}

/// Looks for a word three times in a row.
fn word_run(words: &Vec<Vec<char>>) -> (r: bool)
    ensures
        r == has_word_run(contents(words@)),
{
    if words.len() < MIN_REPEATS {
        return false;
    }
    let mut at: usize = 0;
    while at + 2 < words.len()
        invariant
            at + 2 <= words.len(),
            forall|k: int| 0 <= k < at ==> !is_triple(contents(words@), k),
        decreases words.len() - at,
    {
        if same(words[at].as_slice(), words[at + 1].as_slice()) && same(
            words[at + 1].as_slice(),
            words[at + 2].as_slice(),
        ) {
            assert(is_triple(contents(words@), at as int));
            return true;
        }
        at += 1;
    }
    false
}

/// Tests whether the words start with a phrase three times in a row.
fn phrase_start(words: &Vec<Vec<char>>, size: usize) -> (r: bool)
    requires
        0 < size <= 3,
    ensures
        r == starts_with_phrase(contents(words@), size as int),
{
    if words.len() < MIN_REPEATS * size {
        return false;
    }
    let mut j: usize = 0;
    while j < MIN_REPEATS * size
        invariant
            j <= MIN_REPEATS * size,
            0 < size <= 3,
            MIN_REPEATS * size <= words.len(),
            forall|k: int|
                0 <= k < j ==> #[trigger] contents(words@)[k] == contents(words@)[k % (
                size as int)],
        decreases MIN_REPEATS * size - j,
    {
        if !same(words[j].as_slice(), words[j % size].as_slice()) {
            assert(contents(words@)[j as int] != contents(words@)[j as int % (size as int)]);
            return false;
        }
        j += 1;
    }
    true
}

/// True when the words say one thing over and over.
pub fn has_repetition(words: &Vec<Vec<char>>) -> (r: bool)
    ensures
        r == repeats(contents(words@)),
{
    if words.len() == 0 {
        return true;
    }
    let all = concat_all(words);
    if tiled(all.as_slice()) {
        return true;
    }
    if word_run(words) {
        return true;
    }
    phrase_start(words, 2) || phrase_start(words, 3)
}

/// The same on characters.
fn is_repetitive_chars(text: &[char]) -> (r: bool)
    ensures
        r == is_repetitive_text(text@),
{
    let cleaned = keep_word_chars(text);
    let found = split_whitespace(cleaned.as_slice());
    has_repetition(&found)
}

/// True when the text, punctuation aside, says one thing over and over:
/// "MerciMerciMerci", "merci merci merci", "thank you. thank you. thank you."
/// The caller lowers the case first.
pub fn is_repetitive(text: &str) -> (r: bool)
    ensures
        r == is_repetitive_text(text@),
{
    let chars = chars_of(text);
    is_repetitive_chars(chars.as_slice())
}

// ---------------------------------------------------------------------------
// Filler phrases
// ---------------------------------------------------------------------------

/// Number of long filler phrases.
pub const LONG_FILLERS: usize = 10;

/// Number of short filler phrases.
pub const SHORT_FILLERS: usize = 6;

/// Closing credits that are long enough to be cut off the end of a
/// transcript. In lower case.
pub open spec fn long_fillers() -> Seq<Seq<char>> {
    seq![
        "merci d'avoir regardé"@,
        "merci d'avoir regardé la vidéo"@,
        "merci d'avoir regardé cette vidéo"@,
        "merci de votre attention"@,
        "sous-titres réalisés par"@,
        "sous-titrage société radio-canada"@,
        "like and subscribe"@,
        "please subscribe"@,
        "thanks for watching"@,
        "thank you for watching"@,
    ]
}

/// Phrases that are fillers only when they are the whole transcript: in a
/// sentence they may be meant. In lower case.
pub open spec fn short_fillers() -> Seq<Seq<char>> {
    seq![
        "sous-titres par"@,
        "sous-titrage st'"@,
        "sous-titrage"@,
        "société radio-canada"@,
        "subscribe"@,
        "merci"@,
    ]
}

/// The marks that may end a sentence.
pub open spec fn sentence_marks() -> Seq<char> {
    seq!['.', '!', '?', ',']
}

/// The marks that may end a sentence, and the space.
pub open spec fn marks_and_space() -> Seq<char> {
    seq!['.', '!', '?', ' ', ',']
}

/// The exclamation mark.
pub open spec fn bang() -> Seq<char> {
    seq!['!']
}

/// A lower-case text without the marks and spaces at its end.
pub open spec fn stripped(lower: Seq<char>) -> Seq<char> {
    trim_end_matches(lower, marks_and_space())
}

/// The text, marks at its end aside, is a filler phrase and nothing more.
pub open spec fn is_filler(lower: Seq<char>) -> bool {
    long_fillers().contains(stripped(lower)) || short_fillers().contains(stripped(lower))
}

/// A transcript that is dropped whole: repetition or a filler phrase.
pub open spec fn is_noise(lower: Seq<char>) -> bool {
    is_repetitive_text(lower) || is_filler(lower)
}

/// The lower-case text, marks and spaces at its end aside, is a long filler
/// and nothing more.
pub open spec fn is_long_filler(lower: Seq<char>) -> bool {
    long_fillers().contains(stripped(lower))
}

/// What stands in `text` from `at` on is a long filler and nothing more,
/// whatever its case and the marks at its end.
pub open spec fn filler_from(text: Seq<char>, at: int) -> bool {
    0 <= at < text.len() && is_long_filler(lowercase(text.skip(at)))
}

/// The first position at or behind `from` from which on `text` is a long
/// filler and nothing more.
pub open spec fn filler_cut_from(text: Seq<char>, from: int) -> Option<int>
    decreases text.len() - from,
{
    if from < 0 || from >= text.len() {
        None
    } else if filler_from(text, from) {
        Some(from)
    } else {
        filler_cut_from(text, from + 1)
    }
}

/// Where the genuine text ends and a long filler behind it starts: the
/// first position from which on `text` is a long filler and nothing more.
pub open spec fn filler_cut(text: Seq<char>) -> Option<int> {
    filler_cut_from(text, 0)
}

/// The text without a long filler at its end: what stands in front of the
/// filler, as it was written.
pub open spec fn without_filler_suffix(text: Seq<char>) -> Seq<char> {
    match filler_cut(text) {
        Some(at) => text.take(at),
        None => text,
    }
}

/// The text without a lone "Merci" at its end: one that only exclamation
/// marks and white space follow, and that starts the text or follows a
/// space or a sentence mark.
pub open spec fn without_lone_merci(text: Seq<char>) -> Seq<char> {
    let core = trim_end(trim_end_matches(trim_end(text), bang()));
    if ends_with(core, "Merci"@) || ends_with(core, "merci"@) {
        let before = text.take(core.len() - 5);
        if before.len() == 0 || marks_and_space().contains(before.last()) {
            before
        } else {
            text
        }
    } else {
        text
    }
}

/// The text without white space around it and without sentence marks at its
/// end.
pub open spec fn tidy(text: Seq<char>) -> Seq<char> {
    trim(trim_end_matches(trim(text), sentence_marks()))
}

/// What is kept of a transcript that is not dropped whole.
pub open spec fn remainder(text: Seq<char>) -> Seq<char> {
    tidy(without_lone_merci(without_filler_suffix(text)))
}

/// The transcript as it is passed on: empty where it is noise, or where
/// nothing but noise is left once a filler at its end is cut off.
pub open spec fn filtered(text: Seq<char>) -> Seq<char> {
    let lower = lowercase(text);
    if is_noise(lower) {
        Seq::empty()
    } else {
        let kept = remainder(text);
        if kept.len() == 0 || is_noise(lowercase(kept)) {
            Seq::empty()
        } else {
            kept
        }
    }
}

/// The `i`-th long filler.
fn long_filler(i: usize) -> (r: &'static str)
    requires
        i < LONG_FILLERS,
    ensures
        r@ == long_fillers()[i as int],
{
    if i == 0 {
        "merci d'avoir regardé"
    } else if i == 1 {
        "merci d'avoir regardé la vidéo"
    } else if i == 2 {
        "merci d'avoir regardé cette vidéo"
    } else if i == 3 {
        "merci de votre attention"
    } else if i == 4 {
        "sous-titres réalisés par"
    } else if i == 5 {
        "sous-titrage société radio-canada"
    } else if i == 6 {
        "like and subscribe"
    } else if i == 7 {
        "please subscribe"
    } else if i == 8 {
        "thanks for watching"
    } else {
        "thank you for watching"
    }
}

/// The `i`-th short filler.
fn short_filler(i: usize) -> (r: &'static str)
    requires
        i < SHORT_FILLERS,
    ensures
        r@ == short_fillers()[i as int],
{
    if i == 0 {
        "sous-titres par"
    } else if i == 1 {
        "sous-titrage st'"
    } else if i == 2 {
        "sous-titrage"
    } else if i == 3 {
        "société radio-canada"
    } else if i == 4 {
        "subscribe"
    } else {
        "merci"
    }
}

/// The sentence marks, with the space if `with_space`.
fn marks(with_space: bool) -> (r: Vec<char>)
    ensures
        with_space ==> r@ == marks_and_space(),
        !with_space ==> r@ == sentence_marks(),
{
    let mut set: Vec<char> = Vec::new();
    set.push('.');
    set.push('!');
    set.push('?');
    if with_space {
        set.push(' ');
    }
    set.push(',');
    assert(with_space ==> set@ =~= marks_and_space());
    assert(!with_space ==> set@ =~= sentence_marks());
    set
}

/// True when `core` is one of the long fillers.
fn is_long_phrase(core: &[char]) -> (r: bool)
    ensures
        r == long_fillers().contains(core@),
{
    let mut i: usize = 0;
    while i < LONG_FILLERS
        invariant
            i <= LONG_FILLERS,
            forall|k: int| 0 <= k < i ==> long_fillers()[k] != core@,
        decreases LONG_FILLERS - i,
    {
        let phrase = chars_of(long_filler(i));
        if same(core, phrase.as_slice()) {
            assert(long_fillers().contains(core@));
            return true;
        }
        i += 1;
    }
    false
}

/// True when `core` is one of the short fillers.
fn is_short_phrase(core: &[char]) -> (r: bool)
    ensures
        r == short_fillers().contains(core@),
{
    let mut j: usize = 0;
    while j < SHORT_FILLERS
        invariant
            j <= SHORT_FILLERS,
            forall|k: int| 0 <= k < j ==> short_fillers()[k] != core@,
        decreases SHORT_FILLERS - j,
    {
        let phrase = chars_of(short_filler(j));
        if same(core, phrase.as_slice()) {
            assert(short_fillers().contains(core@));
            return true;
        }
        j += 1;
    }
    false
}

/// True when the lower-case text, marks at its end aside, is a long filler
/// and nothing more.
pub fn is_long_filler_text(lower: &[char]) -> (r: bool)
    ensures
        r == is_long_filler(lower@),
{
    let set = marks(true);
    let n: usize = trim_end_matches_len(lower, set.as_slice());
    is_long_phrase(slice_subrange(lower, 0, n))
}

/// True when the lower-case text, marks at its end aside, is a filler phrase
/// and nothing more.
pub fn is_filler_text(lower: &[char]) -> (r: bool)
    ensures
        r == is_filler(lower@),
{
    let set = marks(true);
    let n: usize = trim_end_matches_len(lower, set.as_slice());
    let core = slice_subrange(lower, 0, n);
    is_long_phrase(core) || is_short_phrase(core)
}

/// True when `text` from `at` on is a long filler and nothing more.
fn is_filler_from(text: &[char], at: usize) -> (r: bool)
    requires
        at < text@.len(),
    ensures
        r == filler_from(text@, at as int),
{
    let tail = slice_subrange(text, at, text.len());
    assert(tail@ =~= text@.skip(at as int));
    let written = string_of(tail);
    let lower = to_lowercase(written.as_str());
    let lower_chars = chars_of(lower.as_str());
    is_long_filler_text(lower_chars.as_slice())
}

/// Cuts a long filler off the end: the length of what stands in front of
/// it.
fn cut_filler_suffix(text: &[char]) -> (r: usize)
    ensures
        r <= text@.len(),
        text@.take(r as int) == without_filler_suffix(text@),
{
    let mut at: usize = 0;
    while at < text.len()
        invariant
            at <= text.len(),
            filler_cut_from(text@, at as int) == filler_cut(text@),
        decreases text.len() - at,
    {
        if is_filler_from(text, at) {
            return at;
        }
        at += 1;
    }
    assert(text@.take(text@.len() as int) =~= text@);
    text.len()
}

/// Cuts a lone "Merci" off the end.
fn cut_lone_merci(text: &[char]) -> (r: usize)
    ensures
        r <= text@.len(),
        text@.take(r as int) == without_lone_merci(text@),
{
    let a: usize = trim_end_len(text);
    let first = slice_subrange(text, 0, a);
    let mut set: Vec<char> = Vec::new();
    set.push('!');
    assert(set@ =~= bang());
    let b: usize = trim_end_matches_len(first, set.as_slice());
    let second = slice_subrange(first, 0, b);
    let c: usize = trim_end_len(second);
    let core = slice_subrange(second, 0, c);
    assert(text@.take(text@.len() as int) =~= text@);
    let upper = chars_of("Merci");
    let lower = chars_of("merci");
    proof {
        reveal_strlit("Merci");
        reveal_strlit("merci");
    }
    if has_suffix(core, upper.as_slice()) || has_suffix(core, lower.as_slice()) {
        let at: usize = c - 5;
        let separators = marks(true);
        if at == 0 || contains_char(separators.as_slice(), text[at - 1]) {
            at
        } else {
            text.len()
        }
    } else {
        text.len()
    }
}

/// Trims white space and the marks at the end.
fn tidy_up(text: &[char]) -> (r: Vec<char>)
    ensures
        r@ == tidy(text@),
{
    let (a, b) = trim_bounds(text);
    let first = slice_subrange(text, a, b);
    let set = marks(false);
    let n: usize = trim_end_matches_len(first, set.as_slice());
    let second = slice_subrange(first, 0, n);
    let (c, d) = trim_bounds(second);
    to_vec(slice_subrange(second, c, d))
}

/// What is kept of a transcript that is not dropped whole: the text without
/// a long filler at its end, without a lone "Merci" behind that, trimmed.
pub fn keep_remainder(text: &[char]) -> (r: Vec<char>)
    ensures
        r@ == remainder(text@),
{
    let first: usize = cut_filler_suffix(text);
    let head = slice_subrange(text, 0, first);
    let second: usize = cut_lone_merci(head);
    tidy_up(slice_subrange(head, 0, second))
}

/// True when a lower-case transcript is dropped whole.
pub fn is_noise_text(lower: &[char]) -> (r: bool)
    ensures
        r == is_noise(lower@),
{
    is_repetitive_chars(lower) || is_filler_text(lower)
}

/// Removes what the engine made up: returns the empty string for a
/// transcript that is repetition or a filler phrase, and otherwise the
/// transcript without a filler at its end, unless what is left is noise
/// itself.
pub fn filter_hallucinations(text: &str) -> (r: String)
    ensures
        r@ == filtered(text@),
{
    let lower = to_lowercase(text);
    let lower_chars = chars_of(lower.as_str());
    if is_noise_text(lower_chars.as_slice()) {
        return String::new();
    }
    let text_chars = chars_of(text);
    let kept = keep_remainder(text_chars.as_slice());
    if kept.len() == 0 {
        return String::new();
    }
    let kept_text = string_of(kept.as_slice());
    let kept_lower = to_lowercase(kept_text.as_str());
    let kept_lower_chars = chars_of(kept_lower.as_str());
    if is_noise_text(kept_lower_chars.as_slice()) {
        return String::new();
    }
    kept_text
}

/// What the in-process engine's answer becomes: nothing where the engine
/// failed, else its text, trimmed and filtered.
pub open spec fn finished(raw: Option<Seq<char>>) -> Seq<char> {
    match raw {
        Some(text) => filtered(trim(text)),
        None => Seq::empty(),
    }
}

/// Finishes the in-process engine's answer. A failure of the engine (`None`)
/// is not an error of the pipeline: it gives the empty transcript.
pub fn finish_transcript(raw: Option<String>) -> (r: String)
    ensures
        r@ == finished(
            match raw {
                Some(text) => Some(text@),
                None => None,
            },
        ),
{
    match raw {
        Some(text) => {
            let chars = chars_of(text.as_str());
            let (a, b) = trim_bounds(chars.as_slice());
            let trimmed = string_of(slice_subrange(chars.as_slice(), a, b));
            filter_hallucinations(trimmed.as_str())
        },
        None => String::new(),
    }
}

// ---------------------------------------------------------------------------
// Laws
// ---------------------------------------------------------------------------

/// A transcript that is a known filler phrase, whatever its case and the
/// marks at its end, is discarded.
pub proof fn lemma_filler_is_discarded(text: Seq<char>)
    requires
        is_filler(lowercase(text)),
    ensures
        filtered(text) == Seq::<char>::empty(),
{
}

/// A transcript that says one thing over and over is discarded.
pub proof fn lemma_repetition_is_discarded(text: Seq<char>)
    requires
        is_repetitive_text(lowercase(text)),
    ensures
        filtered(text) == Seq::<char>::empty(),
{
}

/// What is passed on has no white space around it.
pub proof fn lemma_filtered_is_trimmed(text: Seq<char>)
    ensures
        trim(filtered(text)) == filtered(text),
{
    let out = filtered(text);
    if out.len() > 0 {
        let cut = without_lone_merci(without_filler_suffix(text));
        crate::text::lemma_trim_is_trimmed(trim_end_matches(trim(cut), sentence_marks()));
    }
}

/// A transcript that is not noise and ends neither with a long filler nor
/// with a lone "Merci" comes through unchanged but for trimming.
pub proof fn lemma_plain_text_is_kept(text: Seq<char>)
    requires
        !is_noise(lowercase(text)),
        filler_cut(text) is None,
        without_lone_merci(text) == text,
        tidy(text).len() > 0,
        !is_noise(lowercase(tidy(text))),
    ensures
        filtered(text) == tidy(text),
{
}

/// The cut lies where the filler starts: from there on the text is a long
/// filler and nothing more, and from no earlier position it is.
pub proof fn lemma_filler_cut_is_first(text: Seq<char>, from: int)
    requires
        0 <= from,
    ensures
        match filler_cut_from(text, from) {
            Some(at) => from <= at && filler_from(text, at) && forall|k: int|
                from <= k < at ==> !filler_from(text, k),
            None => forall|k: int| from <= k ==> !filler_from(text, k),
        },
    decreases text.len() - from,
{
    if from < text.len() && !filler_from(text, from) {
        lemma_filler_cut_is_first(text, from + 1);
    }
}

/// Genuine text followed by a long filler keeps only the genuine text:
/// where the text splits into a front from which on nothing is a filler
/// and a tail that is one, what is kept is the front, tidied.
pub proof fn lemma_filler_is_cut_off(front: Seq<char>, tail: Seq<char>)
    requires
        tail.len() > 0,
        is_long_filler(lowercase(tail)),
        forall|k: int| 0 <= k < front.len() ==> !filler_from(front + tail, k),
    ensures
        without_filler_suffix(front + tail) == front,
        remainder(front + tail) == tidy(without_lone_merci(front)),
{
    let text = front + tail;
    let n = front.len() as int;
    lemma_filler_cut_is_first(text, 0);
    assert(text.skip(n) =~= tail);
    assert(filler_from(text, n));
    assert(text.take(n) =~= front);
}

} // verus!
