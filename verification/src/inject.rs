//! Getting text ready for the typing tool, and finding the keyboard layout
//! that the tool must type in.

use crate::text::{
    chars_of, contents, extend, find, find_in, has_prefix, lemma_trim_end_shape,
    lemma_trim_start_shape, lines, same, split_lines, split_whitespace, starts_with, string_of,
    to_vec, trim, trim_bounds, trim_end, words,
};
use vstd::prelude::*;
use vstd::slice::slice_subrange;

verus! {

/// Something that types text into the focused window.
pub trait TextInjector {
    /// Types `text`; fails with a description of what went wrong.
    fn type_text(&mut self, text: &str) -> Result<(), String>;
}

// ---------------------------------------------------------------------------
// Sanitizing
// ---------------------------------------------------------------------------

/// A control character: C0, DEL or C1.
pub open spec fn is_control(c: char) -> bool {
    c as u32 <= 0x1F || 0x7F <= c as u32 <= 0x9F
}

/// What becomes of one character: line breaks turn into a space, other
/// control characters vanish, the rest stays.
pub open spec fn sanitized_char(c: char) -> Option<char> {
    if c == '\n' || c == '\r' {
        Some(' ')
    } else if is_control(c) {
        None
    } else {
        Some(c)
    }
}

/// `text`, character by character, through [`sanitized_char`].
pub open spec fn without_controls(text: Seq<char>) -> Seq<char>
    decreases text.len(),
{
    if text.len() == 0 {
        text
    } else {
        let front = without_controls(text.drop_last());
        match sanitized_char(text.last()) {
            Some(c) => front.push(c),
            None => front,
        }
    }
}

/// Text that is safe to hand to the typing tool on one line.
pub open spec fn sanitized(text: Seq<char>) -> Seq<char> {
    trim(without_controls(text))
}

/// Makes `text` safe to type: line breaks become spaces, control characters
/// are removed, and white space around the result is trimmed.
pub fn sanitize(text: &str) -> (r: String)
    ensures
        r@ == sanitized(text@),
{
    let chars = chars_of(text);
    let mut out: Vec<char> = Vec::new();
    let mut i: usize = 0;
    assert(chars@.take(0) =~= Seq::<char>::empty());
    while i < chars.len()
        invariant
            i <= chars.len(),
            out@ == without_controls(chars@.take(i as int)),
        decreases chars.len() - i,
    {
        let c: char = chars[i];
        let v: u32 = c as u32;
        assert(chars@.take(i + 1).drop_last() =~= chars@.take(i as int));
        if c == '\n' || c == '\r' {
            out.push(' ');
        } else if v <= 0x1F || (0x7F <= v && v <= 0x9F) {
        } else {
            out.push(c);
        }
        i += 1;
    }
    assert(chars@.take(chars.len() as int) =~= chars@);
    let (a, b) = trim_bounds(out.as_slice());
    string_of(slice_subrange(out.as_slice(), a, b))
}

/// The line that makes the typing tool type `text`; none where nothing is
/// left to type.
pub open spec fn typing_command(text: Seq<char>) -> Option<Seq<char>> {
    if sanitized(text).len() == 0 {
        None
    } else {
        Some("type "@ + sanitized(text) + seq!['\n'])
    }
}

/// The line to write to the typing tool for `text`, or `None` where the
/// text is empty once sanitized.
pub fn dotool_command(text: &str) -> (r: Option<String>)
    ensures
        match r {
            Some(line) => typing_command(text@) == Some(line@),
            None => typing_command(text@) is None,
        },
{
    let clean = sanitize(text);
    let body = chars_of(clean.as_str());
    if body.len() == 0 {
        return None;
    }
    let mut line = chars_of("type ");
    extend(&mut line, body.as_slice());
    line.push('\n');
    assert(line@ =~= "type "@ + sanitized(text@) + seq!['\n']);
    Some(string_of(line.as_slice()))
}

/// No control character is ever typed.
pub proof fn lemma_sanitized_has_no_controls(text: Seq<char>)
    ensures
        forall|i: int|
            0 <= i < sanitized(text).len() ==> !is_control(#[trigger] sanitized(text)[i]),
{
    let body = without_controls(text);
    lemma_without_controls(text);
    lemma_trim_end_shape(body);
    let head = trim_end(body);
    lemma_trim_start_shape(head);
    let out = sanitized(text);
    assert forall|i: int| 0 <= i < out.len() implies !is_control(#[trigger] out[i]) by {
        let shift = head.len() - out.len();
        assert(out[i] == head[i + shift]);
        assert(head[i + shift] == body[i + shift]);
    }
}

/// [`without_controls`] leaves no control character.
pub proof fn lemma_without_controls(text: Seq<char>)
    ensures
        forall|i: int|
            0 <= i < without_controls(text).len() ==> !is_control(
                #[trigger] without_controls(text)[i],
            ),
    decreases text.len(),
{
    if text.len() > 0 {
        lemma_without_controls(text.drop_last());
        let front = without_controls(text.drop_last());
        let out = without_controls(text);
        assert forall|i: int| 0 <= i < out.len() implies !is_control(#[trigger] out[i]) by {
            if i < front.len() {
                assert(out[i] == front[i]);
            } else {
                assert(sanitized_char(text.last()) == Some(out[i]));
                assert(' ' as u32 == 0x20);
            }
        }
    }
}

// ---------------------------------------------------------------------------
// Keyboard layout
// ---------------------------------------------------------------------------

/// The layout that is assumed where none can be found.
pub open spec fn default_layout() -> Seq<char> {
    "us"@
}

/// What stands in front of an input source's layout in the desktop's
/// settings.
pub open spec fn xkb_marker() -> Seq<char> {
    "('xkb', '"@
}

/// The first keyboard layout in the desktop's list of input sources, such as
/// `[('xkb', 'us+altgr-intl'), ('xkb', 'fr')]`: what stands between the first
/// marker and the next quote, unless that is empty.
pub open spec fn gsettings_layout(output: Seq<char>) -> Option<Seq<char>> {
    let text = trim(output);
    match find(text, xkb_marker()) {
        None => None,
        Some(at) => {
            let after = text.skip(at + xkb_marker().len());
            match find(after, seq!['\'']) {
                None => None,
                Some(end) => if end == 0 {
                    None
                } else {
                    Some(after.take(end))
                },
            }
        },
    }
}

/// Reads the first keyboard layout out of the desktop's settings output.
pub fn parse_gsettings_layout(output: &str) -> (r: Option<String>)
    ensures
        match r {
            Some(layout) => gsettings_layout(output@) == Some(layout@),
            None => gsettings_layout(output@) is None,
        },
{
    let chars = chars_of(output);
    let (a, b) = trim_bounds(chars.as_slice());
    let text = slice_subrange(chars.as_slice(), a, b);
    let marker = chars_of("('xkb', '");
    let at: usize = match find_in(text, marker.as_slice()) {
        Some(at) => at,
        None => {
            return None;
        },
    };
    let after = slice_subrange(text, at + marker.len(), text.len());
    assert(after@ =~= text@.skip(at + marker@.len()));
    let mut quote: Vec<char> = Vec::new();
    quote.push('\'');
    assert(quote@ =~= seq!['\'']);
    match find_in(after, quote.as_slice()) {
        Some(end) => {
            if end == 0 {
                None
            } else {
                let layout = slice_subrange(after, 0, end);
                assert(layout@ =~= after@.take(end as int));
                Some(string_of(layout))
            }
        },
        None => None,
    }
}

/// What stands in front of the layout in the locale tool's status.
pub open spec fn layout_label() -> Seq<char> {
    "X11 Layout:"@
}

/// What stands in front of the variant in the locale tool's status.
pub open spec fn variant_label() -> Seq<char> {
    "X11 Variant:"@
}

/// What a status line says behind `label`, if it starts with it.
pub open spec fn labelled(line: Seq<char>, label: Seq<char>) -> Option<Seq<char>> {
    let text = trim(line);
    if starts_with(text, label) {
        Some(trim(text.skip(label.len() as int)))
    } else {
        None
    }
}

/// The layout and the variant that `status` names: of each, the last one
/// named counts, and an empty variant is none.
pub open spec fn layout_and_variant(status: Seq<Seq<char>>) -> (
    Option<Seq<char>>,
    Option<Seq<char>>,
)
    decreases status.len(),
{
    if status.len() == 0 {
        (None, None)
    } else {
        let (layout, variant) = layout_and_variant(status.drop_last());
        let line = status.last();
        (
            match labelled(line, layout_label()) {
                Some(value) => Some(value),
                None => layout,
            },
            match labelled(line, variant_label()) {
                Some(value) => if value.len() > 0 {
                    Some(value)
                } else {
                    variant
                },
                None => variant,
            },
        )
    }
}

/// The keyboard layout in the locale tool's status: `layout+variant`, or the
/// layout alone where no variant is named; none where no layout is named.
pub open spec fn localectl_layout(output: Seq<char>) -> Option<Seq<char>> {
    let (layout, variant) = layout_and_variant(lines(output));
    match layout {
        Some(l) => match variant {
            Some(v) => Some(l + seq!['+'] + v),
            None => Some(l),
        },
        None => None,
    }
}

/// Reads what `line` says behind `label`.
fn read_labelled(line: &[char], label: &[char]) -> (r: Option<Vec<char>>)
    ensures
        match r {
            Some(value) => labelled(line@, label@) == Some(value@),
            None => labelled(line@, label@) is None,
        },
{
    let (a, b) = trim_bounds(line);
    let text = slice_subrange(line, a, b);
    if has_prefix(text, label) {
        let rest = slice_subrange(text, label.len(), text.len());
        assert(rest@ =~= text@.skip(label@.len() as int));
        let (c, d) = trim_bounds(rest);
        Some(to_vec(slice_subrange(rest, c, d)))
    } else {
        None
    }
}

/// Reads the keyboard layout out of the locale tool's status output.
pub fn parse_localectl_layout(output: &str) -> (r: Option<String>)
    ensures
        match r {
            Some(layout) => localectl_layout(output@) == Some(layout@),
            None => localectl_layout(output@) is None,
        },
{
    let chars = chars_of(output);
    let status = split_lines(chars.as_slice());
    let layout_key = chars_of("X11 Layout:");
    let variant_key = chars_of("X11 Variant:");
    let mut layout: Option<Vec<char>> = None;
    let mut variant: Option<Vec<char>> = None;
    let mut i: usize = 0;
    assert(contents(status@).take(0) =~= Seq::<Seq<char>>::empty());
    while i < status.len()
        invariant
            i <= status.len(),
            layout_key@ == layout_label(),
            variant_key@ == variant_label(),
            option_chars(layout) == layout_and_variant(contents(status@).take(i as int)).0,
            option_chars(variant) == layout_and_variant(contents(status@).take(i as int)).1,
        decreases status.len() - i,
    {
        let line = status[i].as_slice();
        assert(contents(status@).take(i + 1).drop_last() =~= contents(status@).take(i as int));
        assert(contents(status@).take(i + 1).last() == line@);
        match read_labelled(line, layout_key.as_slice()) {
            Some(value) => {
                layout = Some(value);
            },
            None => {},
        }
        match read_labelled(line, variant_key.as_slice()) {
            Some(value) => {
                if value.len() > 0 {
                    variant = Some(value);
                }
            },
            None => {},
        }
        i += 1;
    }
    assert(contents(status@).take(status.len() as int) =~= contents(status@));
    match layout {
        Some(l) => match variant {
            Some(v) => {
                let mut joined = l;
                joined.push('+');
                extend(&mut joined, v.as_slice());
                Some(string_of(joined.as_slice()))
            },
            None => Some(string_of(l.as_slice())),
        },
        None => None,
    }
}

/// The characters held, if any are.
pub open spec fn option_chars(value: Option<Vec<char>>) -> Option<Seq<char>> {
    match value {
        Some(v) => Some(v@),
        None => None,
    }
}

/// The layout to type in: the desktop's if its settings name one, else the
/// locale tool's if its status names one, else the default. Either output is
/// `None` where the tool could not be asked.
pub open spec fn detected_layout(
    gsettings_output: Option<Seq<char>>,
    localectl_output: Option<Seq<char>>,
) -> Seq<char> {
    let from_desktop = match gsettings_output {
        Some(output) => gsettings_layout(output),
        None => None,
    };
    let from_locale = match localectl_output {
        Some(output) => localectl_layout(output),
        None => None,
    };
    match from_desktop {
        Some(layout) => layout,
        None => match from_locale {
            Some(layout) => layout,
            None => default_layout(),
        },
    }
}

/// The contents of an optional string.
pub open spec fn option_str(value: Option<&str>) -> Option<Seq<char>> {
    match value {
        Some(s) => Some(s@),
        None => None,
    }
}

/// Picks the keyboard layout, such as `us`, `us+altgr-intl` or `fr`, from
/// what the desktop's settings and the locale tool printed.
pub fn detect_xkb_layout(gsettings_output: Option<&str>, localectl_output: Option<&str>) -> (r:
    String)
    ensures
        r@ == detected_layout(option_str(gsettings_output), option_str(localectl_output)),
{
    match gsettings_output {
        Some(output) => match parse_gsettings_layout(output) {
            Some(layout) => {
                return layout;
            },
            None => {},
        },
        None => {},
    }
    match localectl_output {
        Some(output) => match parse_localectl_layout(output) {
            Some(layout) => {
                return layout;
            },
            None => {},
        },
        None => {},
    }
    string_of(chars_of("us").as_slice())
}

/// A layout name split at its first `+` into layout and variant.
pub open spec fn layout_parts(name: Seq<char>) -> (Seq<char>, Option<Seq<char>>) {
    match find(name, seq!['+']) {
        Some(at) => (name.take(at), Some(name.skip(at + 1))),
        None => (name, None),
    }
}

/// Splits `us+altgr-intl` into `us` and `altgr-intl`, as the typing tool
/// wants them; a name without `+` has no variant.
pub fn split_layout(name: &str) -> (r: (String, Option<String>))
    ensures
        r.0@ == layout_parts(name@).0,
        match r.1 {
            Some(variant) => layout_parts(name@).1 == Some(variant@),
            None => layout_parts(name@).1 is None,
        },
{
    let chars = chars_of(name);
    let mut plus: Vec<char> = Vec::new();
    plus.push('+');
    assert(plus@ =~= seq!['+']);
    match find_in(chars.as_slice(), plus.as_slice()) {
        Some(at) => {
            let total: usize = chars.len();
            let layout = slice_subrange(chars.as_slice(), 0, at);
            let variant = slice_subrange(chars.as_slice(), at + 1, total);
            assert(layout@ =~= chars@.take(at as int));
            assert(variant@ =~= chars@.skip(at + 1));
            (string_of(layout), Some(string_of(variant)))
        },
        None => (string_of(chars.as_slice()), None),
    }
}

/// The user is in the group that may read input devices.
pub open spec fn lists_input_group(groups: Seq<char>) -> bool {
    words(groups).contains("input"@)
}

/// True when `groups`, the user's group names separated by white space,
/// name the group `input`.
pub fn in_input_group(groups: &str) -> (r: bool)
    ensures
        r == lists_input_group(groups@),
{
    let chars = chars_of(groups);
    let names = split_whitespace(chars.as_slice());
    let wanted = chars_of("input");
    let mut i: usize = 0;
    while i < names.len()
        invariant
            i <= names.len(),
            wanted@ == "input"@,
            contents(names@) == words(groups@),
            forall|k: int| 0 <= k < i ==> contents(names@)[k] != wanted@,
        decreases names.len() - i,
    {
        if same(names[i].as_slice(), wanted.as_slice()) {
            assert(contents(names@)[i as int] == wanted@);
            return true;
        }
        i += 1;
    }
    false
}

} // verus!
