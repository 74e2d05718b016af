//! Character sequences: the text helpers that the rest of the library shares.
//!
//! Text is handled as a sequence of characters, never of bytes, so that a
//! position always lies between two characters.

use vstd::prelude::*;
use vstd::slice::slice_subrange;

verus! {

// ---------------------------------------------------------------------------
// To and from strings
// ---------------------------------------------------------------------------

/// The characters of `s`.
pub fn chars_of(s: &str) -> (r: Vec<char>)
    ensures
        r@ == s@,
{
    let mut out: Vec<char> = Vec::new();
    for c in it: s.chars()
        invariant
            it.seq() == s@,
            out@ == it.seq().take(it.index() as int),
    {
        out.push(c);
        assert(out@ =~= it.seq().take(it.index() + 1));
    }
    assert(out@ =~= s@);
    out
}

/// `String::push`: appends one character to the end of the string, as std
/// documents it.
#[verifier::external_body]
fn push_char(s: &mut String, c: char)
    ensures
        final(s)@ == old(s)@.push(c),
{
    s.push(c)
}

/// The string that holds `chars`.
pub fn string_of(chars: &[char]) -> (r: String)
    ensures
        r@ == chars@,
{
    let mut out = String::new();
    let mut i: usize = 0;
    assert(out@ =~= chars@.take(0));
    while i < chars.len()
        invariant
            i <= chars.len(),
            out@ == chars@.take(i as int),
        decreases chars.len() - i,
    {
        push_char(&mut out, chars[i]);
        i += 1;
        assert(out@ =~= chars@.take(i as int));
    }
    assert(chars@.take(chars.len() as int) =~= chars@);
    out
}

/// A copy of `s`.
pub fn to_vec(s: &[char]) -> (r: Vec<char>)
    ensures
        r@ == s@,
{
    let mut out: Vec<char> = Vec::with_capacity(s.len());
    extend(&mut out, s);
    out
}

/// Appends `s` to `out`.
pub fn extend(out: &mut Vec<char>, s: &[char])
    ensures
        final(out)@ == old(out)@ + s@,
{
    let mut i: usize = 0;
    while i < s.len()
        invariant
            i <= s.len(),
            out@ == old(out)@ + s@.take(i as int),
        decreases s.len() - i,
    {
        out.push(s[i]);
        i += 1;
        assert(out@ =~= old(out)@ + s@.take(i as int));
    }
    assert(s@.take(s.len() as int) =~= s@);
}

/// True when the two hold the same characters.
pub fn same(a: &[char], b: &[char]) -> (r: bool)
    ensures
        r == (a@ == b@),
{
    if a.len() != b.len() {
        return false;
    }
    let mut i: usize = 0;
    while i < a.len()
        invariant
            i <= a.len(),
            a.len() == b.len(),
            a@.take(i as int) == b@.take(i as int),
        decreases a.len() - i,
    {
        if a[i] != b[i] {
            return false;
        }
        i += 1;
        assert(a@.take(i as int) =~= a@.take(i - 1).push(a[i - 1]));
        assert(b@.take(i as int) =~= b@.take(i - 1).push(b[i - 1]));
    }
    assert(a@.take(a.len() as int) =~= a@);
    assert(b@.take(b.len() as int) =~= b@);
    true
}

/// True when the two strings hold the same characters.
pub fn same_str(a: &str, b: &str) -> (r: bool)
    ensures
        r == (a@ == b@),
{
    let x = chars_of(a);
    let y = chars_of(b);
    same(x.as_slice(), y.as_slice())
}

// ---------------------------------------------------------------------------
// Names for what std computes from tables
// ---------------------------------------------------------------------------

/// The lowercase form of a string, as `str::to_lowercase` gives it.
pub uninterp spec fn lowercase(s: Seq<char>) -> Seq<char>;

/// True for the characters that `char::is_alphanumeric` accepts.
pub uninterp spec fn is_alphanumeric(c: char) -> bool;

/// `str::to_lowercase`: the lowercase form by the Unicode tables of std.
/// The result depends on the characters alone; it is only given a name.
#[verifier::external_body]
pub(crate) fn to_lowercase(s: &str) -> (r: String)
    ensures
        r@ == lowercase(s@),
{
    s.to_lowercase()
}

/// `char::is_alphanumeric`: a letter or a number by the Unicode tables of
/// std. The result depends on the character alone; it is only given a name.
#[verifier::external_body]
pub(crate) fn char_is_alphanumeric(c: char) -> (r: bool)
    ensures
        r == is_alphanumeric(c),
{
    c.is_alphanumeric()
}

// ---------------------------------------------------------------------------
// White space
// ---------------------------------------------------------------------------

/// The characters with the Unicode property `White_Space`.
pub open spec fn is_whitespace(c: char) -> bool {
    let v = c as u32;
    ||| 0x09 <= v <= 0x0D
    ||| v == 0x20
    ||| v == 0x85
    ||| v == 0xA0
    ||| v == 0x1680
    ||| 0x2000 <= v <= 0x200A
    ||| v == 0x2028
    ||| v == 0x2029
    ||| v == 0x202F
    ||| v == 0x205F
    ||| v == 0x3000
}

/// Tells white space from other characters.
pub fn char_is_whitespace(c: char) -> (r: bool)
    ensures
        r == is_whitespace(c),
{
    let v: u32 = c as u32;
    (0x09 <= v && v <= 0x0D) || v == 0x20 || v == 0x85 || v == 0xA0 || v == 0x1680 || (0x2000 <= v
        && v <= 0x200A) || v == 0x2028 || v == 0x2029 || v == 0x202F || v == 0x205F || v == 0x3000
}

/// `s` without the white space at its end.
pub open spec fn trim_end(s: Seq<char>) -> Seq<char>
    decreases s.len(),
{
    if s.len() > 0 && is_whitespace(s.last()) {
        trim_end(s.drop_last())
    } else {
        s
    }
}

/// `s` without the white space at its start.
pub open spec fn trim_start(s: Seq<char>) -> Seq<char>
    decreases s.len(),
{
    if s.len() > 0 && is_whitespace(s.first()) {
        trim_start(s.drop_first())
    } else {
        s
    }
}

/// `s` without the white space at either end.
pub open spec fn trim(s: Seq<char>) -> Seq<char> {
    trim_start(trim_end(s))
}

/// `s` without the characters of `set` at its end.
pub open spec fn trim_end_matches(s: Seq<char>, set: Seq<char>) -> Seq<char>
    decreases s.len(),
{
    if s.len() > 0 && set.contains(s.last()) {
        trim_end_matches(s.drop_last(), set)
    } else {
        s
    }
}

/// True when `c` is one of `set`.
pub fn contains_char(set: &[char], c: char) -> (r: bool)
    ensures
        r == set@.contains(c),
{
    let mut i: usize = 0;
    while i < set.len()
        invariant
            i <= set.len(),
            forall|j: int| 0 <= j < i ==> set@[j] != c,
        decreases set.len() - i,
    {
        if set[i] == c {
            return true;
        }
        i += 1;
    }
    false
}

/// Length of `s` without the white space at its end.
pub fn trim_end_len(s: &[char]) -> (n: usize)
    ensures
        n <= s@.len(),
        s@.take(n as int) == trim_end(s@),
{
    let mut n: usize = s.len();
    assert(s@.take(n as int) =~= s@);
    while n > 0 && char_is_whitespace(s[n - 1])
        invariant
            n <= s@.len(),
            trim_end(s@.take(n as int)) == trim_end(s@),
        decreases n,
    {
        assert(s@.take(n as int).drop_last() =~= s@.take(n - 1));
        n -= 1;
    }
    n
}

/// Number of white-space characters at the start of `s`.
pub fn trim_start_len(s: &[char]) -> (i: usize)
    ensures
        i <= s@.len(),
        s@.skip(i as int) == trim_start(s@),
{
    let mut i: usize = 0;
    assert(s@.skip(0) =~= s@);
    while i < s.len() && char_is_whitespace(s[i])
        invariant
            i <= s@.len(),
            trim_start(s@.skip(i as int)) == trim_start(s@),
        decreases s@.len() - i,
    {
        assert(s@.skip(i as int).drop_first() =~= s@.skip(i + 1));
        i += 1;
    }
    i
}

/// Where `s` without the white space at either end starts and ends in `s`.
pub fn trim_bounds(s: &[char]) -> (r: (usize, usize))
    ensures
        r.0 <= r.1 <= s@.len(),
        s@.subrange(r.0 as int, r.1 as int) == trim(s@),
{
    let end: usize = trim_end_len(s);
    let head = slice_subrange(s, 0, end);
    let start: usize = trim_start_len(head);
    assert(s@.subrange(start as int, end as int) =~= s@.take(end as int).skip(start as int));
    (start, end)
}

/// Length of `s` without the characters of `set` at its end.
pub fn trim_end_matches_len(s: &[char], set: &[char]) -> (n: usize)
    ensures
        n <= s@.len(),
        s@.take(n as int) == trim_end_matches(s@, set@),
{
    let mut n: usize = s.len();
    assert(s@.take(n as int) =~= s@);
    while n > 0 && contains_char(set, s[n - 1])
        invariant
            n <= s@.len(),
            trim_end_matches(s@.take(n as int), set@) == trim_end_matches(s@, set@),
        decreases n,
    {
        assert(s@.take(n as int).drop_last() =~= s@.take(n - 1));
        n -= 1;
    }
    n
}

/// Trimming leaves no white space at either end.
pub proof fn lemma_trim_is_trimmed(s: Seq<char>)
    ensures
        trim(s).len() > 0 ==> !is_whitespace(trim(s).first()) && !is_whitespace(trim(s).last()),
        trim(trim(s)) == trim(s),
{
    lemma_trim_end_shape(s);
    lemma_trim_start_shape(trim_end(s));
    let t = trim(s);
    if t.len() > 0 {
        let e = trim_end(s);
        assert(t.last() == e.last());
    }
    assert(trim_end(t) == t);
}

/// Every character of `s` is white space.
pub open spec fn all_whitespace(s: Seq<char>) -> bool {
    forall|i: int| 0 <= i < s.len() ==> is_whitespace(#[trigger] s[i])
}

/// What trimming the end leaves is a prefix that does not end in white
/// space, and what it takes away is white space.
pub proof fn lemma_trim_end_shape(s: Seq<char>)
    ensures
        trim_end(s).len() <= s.len(),
        trim_end(s) == s.take(trim_end(s).len() as int),
        trim_end(s).len() > 0 ==> !is_whitespace(trim_end(s).last()),
        all_whitespace(s.skip(trim_end(s).len() as int)),
    decreases s.len(),
{
    if s.len() > 0 && is_whitespace(s.last()) {
        let front = s.drop_last();
        lemma_trim_end_shape(front);
        let kept = trim_end(s).len() as int;
        assert(front.take(kept) =~= s.take(kept));
        assert forall|i: int| 0 <= i < s.skip(kept).len() implies is_whitespace(
            #[trigger] s.skip(kept)[i],
        ) by {
            if kept + i < front.len() {
                assert(s.skip(kept)[i] == front.skip(kept)[i]);
            }
        }
    } else {
        assert(s.take(s.len() as int) =~= s);
    }
}

/// What trimming the start leaves is a suffix that does not start with
/// white space, and what it takes away is white space.
pub proof fn lemma_trim_start_shape(s: Seq<char>)
    ensures
        trim_start(s).len() <= s.len(),
        trim_start(s) == s.skip(s.len() - trim_start(s).len()),
        trim_start(s).len() > 0 ==> !is_whitespace(trim_start(s).first()),
        all_whitespace(s.take(s.len() - trim_start(s).len())),
    decreases s.len(),
{
    if s.len() > 0 && is_whitespace(s.first()) {
        let rest = s.drop_first();
        lemma_trim_start_shape(rest);
        let gone = s.len() - trim_start(s).len();
        assert(rest.skip(rest.len() - trim_start(s).len()) =~= s.skip(gone));
        assert forall|i: int| 0 <= i < s.take(gone).len() implies is_whitespace(
            #[trigger] s.take(gone)[i],
        ) by {
            if i > 0 {
                assert(s.take(gone)[i] == rest.take(gone - 1)[i - 1]);
            }
        }
    } else {
        assert(s.skip(0) =~= s);
    }
}

// ---------------------------------------------------------------------------
// Prefixes, suffixes, occurrences
// ---------------------------------------------------------------------------

/// `s` starts with `prefix`.
pub open spec fn starts_with(s: Seq<char>, prefix: Seq<char>) -> bool {
    prefix.len() <= s.len() && s.take(prefix.len() as int) == prefix
}

/// `s` ends with `suffix`.
pub open spec fn ends_with(s: Seq<char>, suffix: Seq<char>) -> bool {
    suffix.len() <= s.len() && s.skip(s.len() - suffix.len()) == suffix
}

/// `needle` stands in `hay` at position `at`.
pub open spec fn occurs_at(hay: Seq<char>, needle: Seq<char>, at: int) -> bool {
    0 <= at && at + needle.len() <= hay.len() && hay.subrange(at, at + needle.len()) == needle
}

/// The first position at or behind `from` where `needle` stands in `hay`.
pub open spec fn find_from(hay: Seq<char>, needle: Seq<char>, from: int) -> Option<int>
    decreases hay.len() - from,
{
    if from < 0 || from + needle.len() > hay.len() {
        None
    } else if occurs_at(hay, needle, from) {
        Some(from)
    } else if from >= hay.len() {
        None
    } else {
        find_from(hay, needle, from + 1)
    }
}

/// The first position where `needle` stands in `hay`.
pub open spec fn find(hay: Seq<char>, needle: Seq<char>) -> Option<int> {
    find_from(hay, needle, 0)
}

/// `find_from` gives the least position that it could give.
pub proof fn lemma_find_from_is_first(hay: Seq<char>, needle: Seq<char>, from: int)
    requires
        0 <= from,
    ensures
        match find_from(hay, needle, from) {
            Some(at) => from <= at && occurs_at(hay, needle, at) && forall|j: int|
                from <= j < at ==> !occurs_at(hay, needle, j),
            None => forall|j: int| from <= j ==> !occurs_at(hay, needle, j),
        },
    decreases hay.len() - from,
{
    if from + needle.len() > hay.len() {
    } else if occurs_at(hay, needle, from) {
    } else if from >= hay.len() {
        assert(hay.subrange(from, from + needle.len()) =~= needle);
    } else {
        lemma_find_from_is_first(hay, needle, from + 1);
    }
}

/// True when `needle` stands in `hay` at `at`.
pub fn matches_at(hay: &[char], needle: &[char], at: usize) -> (r: bool)
    ensures
        r == occurs_at(hay@, needle@, at as int),
{
    if needle.len() > hay.len() || at > hay.len() - needle.len() {
        return false;
    }
    let mut i: usize = 0;
    while i < needle.len()
        invariant
            i <= needle.len(),
            at + needle.len() <= hay.len(),
            hay@.subrange(at as int, at + i) == needle@.take(i as int),
        decreases needle.len() - i,
    {
        if hay[at + i] != needle[i] {
            assert(hay@.subrange(at as int, at + needle.len())[i as int] != needle@[i as int]);
            return false;
        }
        i += 1;
        assert(hay@.subrange(at as int, at + i) =~= hay@.subrange(at as int, at + i - 1).push(
            hay[at + i - 1],
        ));
        assert(needle@.take(i as int) =~= needle@.take(i - 1).push(needle[i - 1]));
    }
    assert(needle@.take(needle.len() as int) =~= needle@);
    true
}

/// The first position where `needle` stands in `hay`.
pub fn find_in(hay: &[char], needle: &[char]) -> (r: Option<usize>)
    ensures
        match r {
            Some(at) => find(hay@, needle@) == Some(at as int) && at + needle@.len()
                <= hay@.len(),
            None => find(hay@, needle@) is None,
        },
{
    if needle.len() > hay.len() {
        return None;
    }
    if needle.len() == 0 {
        assert(hay@.subrange(0, 0) =~= needle@);
        return Some(0);
    }
    let last: usize = hay.len() - needle.len();
    let mut i: usize = 0;
    while i <= last
        invariant
            i <= last + 1,
            needle.len() > 0,
            last == hay.len() - needle.len(),
            find_from(hay@, needle@, i as int) == find(hay@, needle@),
        decreases last + 1 - i,
    {
        if matches_at(hay, needle, i) {
            return Some(i);
        }
        i += 1;
    }
    None
}

/// True when `s` starts with `prefix`.
pub fn has_prefix(s: &[char], prefix: &[char]) -> (r: bool)
    ensures
        r == starts_with(s@, prefix@),
{
    let r = matches_at(s, prefix, 0);
    assert(prefix.len() <= s.len() ==> s@.subrange(0, prefix.len() as int) =~= s@.take(
        prefix.len() as int,
    ));
    r
}

/// True when `s` ends with `suffix`.
pub fn has_suffix(s: &[char], suffix: &[char]) -> (r: bool)
    ensures
        r == ends_with(s@, suffix@),
{
    if suffix.len() > s.len() {
        return false;
    }
    let at: usize = s.len() - suffix.len();
    let r = matches_at(s, suffix, at);
    assert(s@.subrange(at as int, s.len() as int) =~= s@.skip(at as int));
    r
}

// ---------------------------------------------------------------------------
// Words and lines
// ---------------------------------------------------------------------------

/// The contents of a list of character vectors.
pub open spec fn contents(items: Seq<Vec<char>>) -> Seq<Seq<char>> {
    Seq::new(items.len(), |i: int| items[i]@)
}

/// `done` with `word` behind it, unless `word` is empty.
pub open spec fn with_word(done: Seq<Seq<char>>, word: Seq<char>) -> Seq<Seq<char>> {
    if word.len() > 0 {
        done.push(word)
    } else {
        done
    }
}

/// The words that end inside `s`, and the characters of a word that `s`
/// ends in the middle of.
pub open spec fn words_scan(s: Seq<char>) -> (Seq<Seq<char>>, Seq<char>)
    decreases s.len(),
{
    if s.len() == 0 {
        (Seq::empty(), Seq::empty())
    } else {
        let (done, word) = words_scan(s.drop_last());
        if is_whitespace(s.last()) {
            (with_word(done, word), Seq::empty())
        } else {
            (done, word.push(s.last()))
        }
    }
}

/// The words of `s`: its longest stretches without white space.
pub open spec fn words(s: Seq<char>) -> Seq<Seq<char>> {
    with_word(words_scan(s).0, words_scan(s).1)
}

/// A word: not empty, and without white space.
pub open spec fn is_word(w: Seq<char>) -> bool {
    w.len() > 0 && forall|j: int| 0 <= j < w.len() ==> !is_whitespace(#[trigger] w[j])
}

/// The characters of `s` that are not white space, in order.
pub open spec fn without_whitespace(s: Seq<char>) -> Seq<char>
    decreases s.len(),
{
    if s.len() == 0 {
        s
    } else if is_whitespace(s.last()) {
        without_whitespace(s.drop_last())
    } else {
        without_whitespace(s.drop_last()).push(s.last())
    }
}

/// What a scan has found so far are words, and together with the word in
/// progress they hold the text that is not white space.
proof fn lemma_words_scan(s: Seq<char>)
    ensures
        forall|i: int| 0 <= i < words_scan(s).0.len() ==> is_word(#[trigger] words_scan(s).0[i]),
        forall|j: int|
            0 <= j < words_scan(s).1.len() ==> !is_whitespace(#[trigger] words_scan(s).1[j]),
        concat(words_scan(s).0) + words_scan(s).1 == without_whitespace(s),
    decreases s.len(),
{
    if s.len() == 0 {
        assert(concat(words_scan(s).0) + words_scan(s).1 =~= without_whitespace(s));
    } else {
        let front = s.drop_last();
        lemma_words_scan(front);
        let (done, word) = words_scan(front);
        let now = words_scan(s);
        if is_whitespace(s.last()) {
            if word.len() > 0 {
                assert(now.0 == done.push(word));
                assert(now.0.drop_last() =~= done);
                assert forall|i: int| 0 <= i < now.0.len() implies is_word(#[trigger] now.0[i]) by {
                    if i < done.len() {
                        assert(now.0[i] == done[i]);
                    }
                }
            }
            assert(concat(now.0) + now.1 =~= without_whitespace(s));
        } else {
            assert(concat(now.0) + now.1 =~= without_whitespace(s));
        }
    }
}

/// The words of a text are words, and written one behind the other they
/// are the text without its white space.
pub proof fn lemma_words_are_words(s: Seq<char>)
    ensures
        forall|i: int| 0 <= i < words(s).len() ==> is_word(#[trigger] words(s)[i]),
        concat(words(s)) == without_whitespace(s),
{
    lemma_words_scan(s);
    let (done, word) = words_scan(s);
    let all = words(s);
    if word.len() > 0 {
        assert(all.drop_last() =~= done);
        assert forall|i: int| 0 <= i < all.len() implies is_word(#[trigger] all[i]) by {
            if i < done.len() {
                assert(all[i] == done[i]);
            }
        }
    } else {
        assert(concat(done) + word =~= concat(done));
    }
}

/// The words of `s`.
pub fn split_whitespace(s: &[char]) -> (r: Vec<Vec<char>>)
    ensures
        contents(r@) == words(s@),
{
    let mut done: Vec<Vec<char>> = Vec::new();
    let mut word: Vec<char> = Vec::new();
    let mut i: usize = 0;
    assert(contents(done@) =~= words_scan(s@.take(0)).0);
    while i < s.len()
        invariant
            i <= s.len(),
            contents(done@) == words_scan(s@.take(i as int)).0,
            word@ == words_scan(s@.take(i as int)).1,
        decreases s.len() - i,
    {
        let c: char = s[i];
        let ghost before = contents(done@);
        assert(s@.take(i + 1).drop_last() =~= s@.take(i as int));
        if char_is_whitespace(c) {
            if word.len() > 0 {
                let mut finished: Vec<char> = Vec::new();
                std::mem::swap(&mut word, &mut finished);
                done.push(finished);
                assert(contents(done@) =~= before.push(finished@));
            } else {
                assert(word@ =~= Seq::<char>::empty());
            }
        } else {
            word.push(c);
        }
        i += 1;
    }
    assert(s@.take(s.len() as int) =~= s@);
    if word.len() > 0 {
        let ghost before = contents(done@);
        done.push(word);
        assert(contents(done@) =~= before.push(word@));
    }
    done
}

/// `line` without a carriage return at its end.
pub open spec fn without_cr(line: Seq<char>) -> Seq<char> {
    if line.len() > 0 && line.last() == '\r' {
        line.drop_last()
    } else {
        line
    }
}

/// The lines that end inside `s`, and the characters of a line that `s`
/// ends in the middle of.
pub open spec fn lines_scan(s: Seq<char>) -> (Seq<Seq<char>>, Seq<char>)
    decreases s.len(),
{
    if s.len() == 0 {
        (Seq::empty(), Seq::empty())
    } else {
        let (done, line) = lines_scan(s.drop_last());
        if s.last() == '\n' {
            (done.push(without_cr(line)), Seq::empty())
        } else {
            (done, line.push(s.last()))
        }
    }
}

/// The lines of `s`. A line ends with a line feed, or with a carriage return
/// and a line feed; neither belongs to the line. What stands behind the last
/// line feed is a line too, unless it is empty.
pub open spec fn lines(s: Seq<char>) -> Seq<Seq<char>> {
    with_word(lines_scan(s).0, lines_scan(s).1)
}

/// No line holds a line feed.
pub proof fn lemma_lines_hold_no_line_feed(s: Seq<char>)
    ensures
        forall|i: int, j: int|
            0 <= i < lines(s).len() && 0 <= j < lines(s)[i].len() ==> (#[trigger] lines(
                s,
            )[i][j]) != '\n',
{
    lemma_lines_scan(s);
    let (done, line) = lines_scan(s);
    let all = lines(s);
    assert forall|i: int, j: int| 0 <= i < all.len() && 0 <= j < all[i].len() implies (
    #[trigger] all[i][j]) != '\n' by {
        if i < done.len() {
            assert(all[i] == done[i]);
        }
    }
}

/// Neither the lines found so far nor the line in progress hold a line
/// feed.
proof fn lemma_lines_scan(s: Seq<char>)
    ensures
        forall|i: int, j: int|
            0 <= i < lines_scan(s).0.len() && 0 <= j < lines_scan(s).0[i].len() ==> (
            #[trigger] lines_scan(s).0[i][j]) != '\n',
        forall|j: int| 0 <= j < lines_scan(s).1.len() ==> (#[trigger] lines_scan(s).1[j]) != '\n',
    decreases s.len(),
{
    if s.len() > 0 {
        let front = s.drop_last();
        lemma_lines_scan(front);
        let (done, line) = lines_scan(front);
        let now = lines_scan(s);
        if s.last() == '\n' {
            let ended = without_cr(line);
            assert(now.0 == done.push(ended));
            assert forall|i: int, j: int|
                0 <= i < now.0.len() && 0 <= j < now.0[i].len() implies (#[trigger] now.0[i][j])
                != '\n' by {
                if i < done.len() {
                    assert(now.0[i] == done[i]);
                } else {
                    assert(now.0[i] == ended);
                    assert(ended[j] == line[j]);
                }
            }
        } else {
            assert forall|j: int| 0 <= j < now.1.len() implies (#[trigger] now.1[j]) != '\n' by {
                if j < line.len() {
                    assert(now.1[j] == line[j]);
                }
            }
        }
    }
}

/// The lines of `s`.
pub fn split_lines(s: &[char]) -> (r: Vec<Vec<char>>)
    ensures
        contents(r@) == lines(s@),
{
    let mut done: Vec<Vec<char>> = Vec::new();
    let mut line: Vec<char> = Vec::new();
    let mut i: usize = 0;
    assert(contents(done@) =~= lines_scan(s@.take(0)).0);
    while i < s.len()
        invariant
            i <= s.len(),
            contents(done@) == lines_scan(s@.take(i as int)).0,
            line@ == lines_scan(s@.take(i as int)).1,
        decreases s.len() - i,
    {
        let c: char = s[i];
        let ghost before = contents(done@);
        assert(s@.take(i + 1).drop_last() =~= s@.take(i as int));
        if c == '\n' {
            let mut finished: Vec<char> = Vec::new();
            std::mem::swap(&mut line, &mut finished);
            if finished.len() > 0 && finished[finished.len() - 1] == '\r' {
                finished.pop();
            }
            done.push(finished);
            assert(contents(done@) =~= before.push(finished@));
        } else {
            line.push(c);
        }
        i += 1;
    }
    assert(s@.take(s.len() as int) =~= s@);
    if line.len() > 0 {
        let ghost before = contents(done@);
        done.push(line);
        assert(contents(done@) =~= before.push(line@));
    }
    done
}

/// The characters of `parts`, one part behind the other.
pub open spec fn concat(parts: Seq<Seq<char>>) -> Seq<char>
    decreases parts.len(),
{
    if parts.len() == 0 {
        Seq::empty()
    } else {
        concat(parts.drop_last()) + parts.last()
    }
}

/// The characters of `parts`, one part behind the other.
pub fn concat_all(parts: &Vec<Vec<char>>) -> (r: Vec<char>)
    ensures
        r@ == concat(contents(parts@)),
{
    let mut out: Vec<char> = Vec::new();
    let mut i: usize = 0;
    assert(contents(parts@).take(0) =~= Seq::<Seq<char>>::empty());
    while i < parts.len()
        invariant
            i <= parts.len(),
            out@ == concat(contents(parts@).take(i as int)),
        decreases parts.len() - i,
    {
        extend(&mut out, parts[i].as_slice());
        assert(contents(parts@).take(i + 1).drop_last() =~= contents(parts@).take(i as int));
        assert(contents(parts@).take(i + 1).last() == parts[i as int]@);
        i += 1;
    }
    assert(contents(parts@).take(parts.len() as int) =~= contents(parts@));
    out
}

} // verus!
