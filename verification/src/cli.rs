//! Reading the command line.

use crate::text::{chars_of, same_str, string_of};
use vstd::prelude::*;

verus! {

/// The arguments as character sequences.
pub open spec fn arg_views(args: Seq<String>) -> Seq<Seq<char>> {
    Seq::new(args.len(), |i: int| args[i]@)
}

/// The first position at or behind `from` where `flag` stands in `args`.
pub open spec fn flag_position(args: Seq<Seq<char>>, flag: Seq<char>, from: int) -> Option<int>
    decreases args.len() - from,
{
    if from < 0 || from >= args.len() {
        None
    } else if args[from] == flag {
        Some(from)
    } else {
        flag_position(args, flag, from + 1)
    }
}

/// True when `flag` is one of the arguments.
pub open spec fn flag_given(args: Seq<Seq<char>>, flag: Seq<char>) -> bool {
    flag_position(args, flag, 0) is Some
}

/// The argument behind the first `flag`, if there is one.
pub open spec fn value_of(args: Seq<Seq<char>>, flag: Seq<char>) -> Option<Seq<char>> {
    match flag_position(args, flag, 0) {
        Some(at) => if at + 1 < args.len() {
            Some(args[at + 1])
        } else {
            None
        },
        None => None,
    }
}

/// The first position of `flag`.
fn position_of(args: &[String], flag: &str) -> (r: Option<usize>)
    ensures
        match r {
            Some(at) => flag_position(arg_views(args@), flag@, 0) == Some(at as int) && at
                < args.len(),
            None => flag_position(arg_views(args@), flag@, 0) is None,
        },
{
    let mut i: usize = 0;
    while i < args.len()
        invariant
            i <= args.len(),
            flag_position(arg_views(args@), flag@, i as int) == flag_position(
                arg_views(args@),
                flag@,
                0,
            ),
        decreases args.len() - i,
    {
        if same_str(args[i].as_str(), flag) {
            return Some(i);
        }
        i += 1;
    }
    None
}

/// True when `flag` is one of the arguments.
pub fn has_flag(args: &[String], flag: &str) -> (r: bool)
    ensures
        r == flag_given(arg_views(args@), flag@),
{
    position_of(args, flag).is_some()
}

/// The argument that follows the first `flag`.
pub fn find_arg_value(args: &[String], flag: &str) -> (r: Option<String>)
    ensures
        match r {
            Some(value) => value_of(arg_views(args@), flag@) == Some(value@),
            None => value_of(arg_views(args@), flag@) is None,
        },
{
    match position_of(args, flag) {
        Some(at) => {
            if at + 1 < args.len() {
                Some(args[at + 1].clone())
            } else {
                None
            }
        },
        None => None,
    }
}

/// What the program was started to do.
pub enum Invocation {
    /// Print the local models and exit.
    ListModels,
    /// Serve transcriptions over the standard streams.
    Server { model: String, language: String },
    /// `--server` without `--model`: an error of usage.
    ServerWithoutModel,
    /// Run the dictation client.
    Client,
}

/// Mathematical content of an [`Invocation`].
pub enum InvocationView {
    ListModels,
    Server { model: Seq<char>, language: Seq<char> },
    ServerWithoutModel,
    Client,
}

impl View for Invocation {
    type V = InvocationView;

    open spec fn view(&self) -> InvocationView {
        match self {
            Invocation::ListModels => InvocationView::ListModels,
            Invocation::Server { model, language } => InvocationView::Server {
                model: model@,
                language: language@,
            },
            Invocation::ServerWithoutModel => InvocationView::ServerWithoutModel,
            Invocation::Client => InvocationView::Client,
        }
    }
}

/// The language that a server transcribes where none is asked for.
pub open spec fn default_language() -> Seq<char> {
    "en"@
}

/// What the arguments ask for: listing wins over serving, serving over the
/// client; a server needs a model and takes English where no language is
/// named.
pub open spec fn invocation_of(args: Seq<Seq<char>>) -> InvocationView {
    if flag_given(args, "--list-models"@) {
        InvocationView::ListModels
    } else if flag_given(args, "--server"@) {
        match value_of(args, "--model"@) {
            Some(model) => InvocationView::Server {
                model,
                language: match value_of(args, "--language"@) {
                    Some(language) => language,
                    None => default_language(),
                },
            },
            None => InvocationView::ServerWithoutModel,
        }
    } else {
        InvocationView::Client
    }
}

/// Reads what the program was started to do.
pub fn parse_invocation(args: &[String]) -> (r: Invocation)
    ensures
        r@ == invocation_of(arg_views(args@)),
{
    if has_flag(args, "--list-models") {
        Invocation::ListModels
    } else if has_flag(args, "--server") {
        match find_arg_value(args, "--model") {
            Some(model) => {
                let language = match find_arg_value(args, "--language") {
                    Some(language) => language,
                    None => string_of(chars_of("en").as_slice()),
                };
                Invocation::Server { model, language }
            },
            None => Invocation::ServerWithoutModel,
        }
    } else {
        Invocation::Client
    }
}

} // verus!
