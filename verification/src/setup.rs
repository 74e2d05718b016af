//! What the setup dialogue decides: the transcription backend, the language,
//! and what a line of typed input amounts to.

use crate::text::{string_of, trim, trim_bounds};
use vstd::prelude::*;
use vstd::slice::slice_subrange;

verus! {

/// Where transcription runs.
pub enum Backend {
    /// In this process, with the model file at `model_path`.
    Local { model_path: String },
    /// On `ssh_target`, with the model file at `remote_model_path` there.
    Remote { ssh_target: String, remote_model_path: String },
}

/// Number of languages offered.
pub const LANGUAGES: usize = 8;

/// The languages offered, by their own names, in the order of the menu.
pub open spec fn language_names() -> Seq<Seq<char>> {
    seq![
        "English"@,
        "Français"@,
        "Deutsch"@,
        "Español"@,
        "Italiano"@,
        "Português"@,
        "日本語"@,
        "中文"@,
    ]
}

/// The codes of the languages offered, in the order of the menu.
pub open spec fn language_codes() -> Seq<Seq<char>> {
    seq!["en"@, "fr"@, "de"@, "es"@, "it"@, "pt"@, "ja"@, "zh"@]
}

/// The code of the language at `index` of the menu; English for an index
/// outside the menu.
pub open spec fn language_code_at(index: nat) -> Seq<char> {
    if index < LANGUAGES {
        language_codes()[index as int]
    } else {
        "en"@
    }
}

/// The name shown for the language at `index` of the menu.
pub fn language_name(index: usize) -> (r: &'static str)
    requires
        index < LANGUAGES,
    ensures
        r@ == language_names()[index as int],
{
    if index == 0 {
        "English"
    } else if index == 1 {
        "Français"
    } else if index == 2 {
        "Deutsch"
    } else if index == 3 {
        "Español"
    } else if index == 4 {
        "Italiano"
    } else if index == 5 {
        "Português"
    } else if index == 6 {
        "日本語"
    } else {
        "中文"
    }
}

/// The code of the language chosen in the menu.
pub fn language_code(index: usize) -> (r: &'static str)
    ensures
        r@ == language_code_at(index as nat),
{
    if index == 1 {
        "fr"
    } else if index == 2 {
        "de"
    } else if index == 3 {
        "es"
    } else if index == 4 {
        "it"
    } else if index == 5 {
        "pt"
    } else if index == 6 {
        "ja"
    } else if index == 7 {
        "zh"
    } else {
        "en"
    }
}

/// A key pressed in a text field.
#[derive(Debug, Clone, Copy, PartialEq, Eq, Structural)]
pub enum InputKey {
    Char(char),
    Backspace,
    Enter,
    Esc,
    Other,
}

/// What a key press does to a text field.
pub enum InputOutcome {
    /// The field goes on being edited.
    Editing,
    /// The field is confirmed with this text.
    Confirmed(String),
    /// The dialogue is cancelled.
    Cancelled,
}

/// Mathematical content of an [`InputOutcome`].
pub enum InputResult {
    Editing,
    Confirmed(Seq<char>),
    Cancelled,
}

impl View for InputOutcome {
    type V = InputResult;

    open spec fn view(&self) -> InputResult {
        match self {
            InputOutcome::Editing => InputResult::Editing,
            InputOutcome::Confirmed(text) => InputResult::Confirmed(text@),
            InputOutcome::Cancelled => InputResult::Cancelled,
        }
    }
}

/// The field's contents after `key`.
pub open spec fn input_after(input: Seq<char>, key: InputKey) -> Seq<char> {
    match key {
        InputKey::Char(c) => input.push(c),
        InputKey::Backspace => if input.len() > 0 {
            input.drop_last()
        } else {
            input
        },
        _ => input,
    }
}

/// What `key` decides: Enter confirms the trimmed contents unless they are
/// empty, Esc cancels, everything else edits.
pub open spec fn input_result(input: Seq<char>, key: InputKey) -> InputResult {
    match key {
        InputKey::Enter => if trim(input).len() > 0 {
            InputResult::Confirmed(trim(input))
        } else {
            InputResult::Editing
        },
        InputKey::Esc => InputResult::Cancelled,
        _ => InputResult::Editing,
    }
}

/// Applies a key press to the contents of a text field.
pub fn apply_input_key(input: &mut Vec<char>, key: InputKey) -> (r: InputOutcome)
    ensures
        final(input)@ == input_after(old(input)@, key),
        r@ == input_result(old(input)@, key),
{
    match key {
        InputKey::Char(c) => {
            input.push(c);
            InputOutcome::Editing
        },
        InputKey::Backspace => {
            if input.len() > 0 {
                input.pop();
            }
            InputOutcome::Editing
        },
        InputKey::Enter => {
            let (a, b) = trim_bounds(input.as_slice());
            if a < b {
                InputOutcome::Confirmed(string_of(slice_subrange(input.as_slice(), a, b)))
            } else {
                InputOutcome::Editing
            }
        },
        InputKey::Esc => InputOutcome::Cancelled,
        InputKey::Other => InputOutcome::Editing,
    }
}

} // verus!
