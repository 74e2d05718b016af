//! Telling keyboards from other input devices, and key presses from other
//! events.

use crate::text::{chars_of, find, find_in, lowercase, to_lowercase};
use vstd::prelude::*;

verus! {

/// Number of name fragments that rule a device out.
pub const EXCLUDED_NAMES: usize = 5;

/// Fragments of device names, in lower case, that mark a device with keys
/// as something other than a keyboard.
pub open spec fn excluded_names() -> Seq<Seq<char>> {
    seq![
        "power button"@,
        "sleep button"@,
        "led controller"@,
        "consumer control"@,
        "system control"@,
    ]
}

/// The lower-case name holds one of the excluded fragments.
pub open spec fn is_excluded(lower_name: Seq<char>) -> bool {
    exists|i: int|
        0 <= i < EXCLUDED_NAMES && find(lower_name, #[trigger] excluded_names()[i]) is Some
}

/// A device counts as a keyboard when it reports key events, has typing
/// keys, and is not excluded by its name.
pub open spec fn is_keyboard_like(reports_keys: bool, has_typing_keys: bool, lower_name: Seq<char>)
    -> bool {
    reports_keys && has_typing_keys && !is_excluded(lower_name)
}

/// The `i`-th excluded fragment.
fn excluded_name(i: usize) -> (r: &'static str)
    requires
        i < EXCLUDED_NAMES,
    ensures
        r@ == excluded_names()[i as int],
{
    if i == 0 {
        "power button"
    } else if i == 1 {
        "sleep button"
    } else if i == 2 {
        "led controller"
    } else if i == 3 {
        "consumer control"
    } else {
        "system control"
    }
}

/// True when a lower-case device name holds an excluded fragment.
pub fn name_is_excluded(lower_name: &[char]) -> (r: bool)
    ensures
        r == is_excluded(lower_name@),
{
    let mut i: usize = 0;
    while i < EXCLUDED_NAMES
        invariant
            i <= EXCLUDED_NAMES,
            forall|k: int| 0 <= k < i ==> find(lower_name@, #[trigger] excluded_names()[k]) is None,
        decreases EXCLUDED_NAMES - i,
    {
        let fragment = chars_of(excluded_name(i));
        if find_in(lower_name, fragment.as_slice()).is_some() {
            assert(find(lower_name@, excluded_names()[i as int]) is Some);
            return true;
        }
        i += 1;
    }
    false
}

/// Tells whether a device is a keyboard to listen on, from whether it
/// reports key events, whether it has typing keys (a letter or a function
/// key), and its name.
pub fn is_keyboard(reports_keys: bool, has_typing_keys: bool, name: &str) -> (r: bool)
    ensures
        r == is_keyboard_like(reports_keys, has_typing_keys, lowercase(name@)),
{
    if !reports_keys || !has_typing_keys {
        return false;
    }
    let lower = to_lowercase(name);
    let chars = chars_of(lower.as_str());
    !name_is_excluded(chars.as_slice())
}

/// The value of a key event that is a press (not a release, not a repeat).
pub const KEY_PRESSED: i32 = 1;

/// An event toggles listening when it is a press of the hotkey.
pub open spec fn toggles(is_key_event: bool, code: u16, hotkey: u16, value: i32) -> bool {
    is_key_event && code == hotkey && value == KEY_PRESSED
}

/// The listening state after an event: a press of the hotkey flips it,
/// anything else leaves it.
pub open spec fn listening_after_event(
    listening: bool,
    is_key_event: bool,
    code: u16,
    hotkey: u16,
    value: i32,
) -> bool {
    if toggles(is_key_event, code, hotkey, value) {
        !listening
    } else {
        listening
    }
}

/// Applies one input event to the listening state.
pub fn apply_key_event(listening: bool, is_key_event: bool, code: u16, hotkey: u16, value: i32)
    -> (r: bool)
    ensures
        r == listening_after_event(listening, is_key_event, code, hotkey, value),
{
    if is_key_event && code == hotkey && value == KEY_PRESSED {
        !listening
    } else {
        listening
    }
}

} // verus!
