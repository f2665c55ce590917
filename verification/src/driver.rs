use vstd::prelude::*;
use crate::cleaner::{clean_code, cleaned};
use crate::error::TranslateError;
use crate::generator::{generate_asm_strict, generate_asm_target};
use crate::lexer::{tokenize, tokens_of};
use crate::model::{assembly, reads_unbound};
use crate::text::same_text;

verus! {

/// What a build produces.
#[derive(Debug, Clone, Copy, PartialEq, Eq, Structural)]
pub enum Target {
    /// Assembly with frame slots of 4 bytes.
    Compat,
    /// A backend that does not exist yet: the cleaned source is handed back.
    Fmbyas,
    /// Assembly with frame slots of 8 bytes.
    Native,
}

/// The command-line arguments as texts.
pub open spec fn texts(args: Seq<String>) -> Seq<Seq<char>> {
    args.map_values(|a: String| a@)
}

/// The target that the arguments ask for: `-compat` wins over `-fmbyas`,
/// and without either the build is native.
pub open spec fn target_of(args: Seq<Seq<char>>) -> Target {
    if args.contains("-compat"@) {
        Target::Compat
    } else if args.contains("-fmbyas"@) {
        Target::Fmbyas
    } else {
        Target::Native
    }
}

/// The assembly text of a source: cleaned, then lexed, then generated.
pub open spec fn translated(source: Seq<char>, double: bool) -> Result<Seq<char>, TranslateError> {
    match tokens_of(cleaned(source)) {
        Some(tokens) => Ok(assembly(tokens, double)),
        None => Err(TranslateError::MalformedInput),
    }
}

/// As [`translated`], but a name read before it is bound is an error.
pub open spec fn translated_strictly(source: Seq<char>, double: bool) -> Result<
    Seq<char>,
    TranslateError,
> {
    match tokens_of(cleaned(source)) {
        Some(tokens) => if reads_unbound(tokens, double) {
            Err(TranslateError::UnboundIdentifier)
        } else {
            Ok(assembly(tokens, double))
        },
        None => Err(TranslateError::MalformedInput),
    }
}

/// What a build of `code` with the arguments `args` produces.
pub open spec fn parsed(code: Seq<char>, args: Seq<Seq<char>>) -> Result<
    Seq<char>,
    TranslateError,
> {
    match tokens_of(cleaned(code)) {
        Some(tokens) => Ok(
            match target_of(args) {
                Target::Compat => assembly(tokens, false),
                Target::Fmbyas => cleaned(code),
                Target::Native => assembly(tokens, true),
            },
        ),
        None => Err(TranslateError::MalformedInput),
    }
}

/// Whether `outcome` holds the text, or the error, that `expected` says.
pub open spec fn holds(outcome: Result<String, TranslateError>, expected: Result<
    Seq<char>,
    TranslateError,
>) -> bool {
    match outcome {
        Ok(text) => expected == Ok::<Seq<char>, TranslateError>(text@),
        Err(e) => expected == Err::<Seq<char>, TranslateError>(e),
    }
}

/// Whether one of `args` is the flag `flag`.
fn has_flag(args: &Vec<String>, flag: &str) -> (yes: bool)
    ensures
        yes == texts(args@).contains(flag@),
{
    let mut i: usize = 0;
    while i < args.len()
        invariant
            i <= args.len(),
            forall|k: int| 0 <= k < i ==> texts(args@)[k] != flag@,
        decreases args.len() - i,
    {
        if same_text(args[i].as_str(), flag) {
            proof {
                assert(texts(args@)[i as int] == flag@);
            }
            return true;
        }
        i += 1;
    }
    false
}

/// The target that the command-line arguments ask for.
pub fn select_target(args: &Vec<String>) -> (target: Target)
    ensures
        target == target_of(texts(args@)),
{
    if has_flag(args, "-compat") {
        Target::Compat
    } else if has_flag(args, "-fmbyas") {
        Target::Fmbyas
    } else {
        Target::Native
    }
}

/// Translates a source text to assembly, with frame slots of 8 bytes where
/// `double` is set and of 4 bytes where it is not.
pub fn translate(source: &str, double: bool) -> (outcome: Result<String, TranslateError>)
    ensures
        holds(outcome, translated(source@, double)),
{
    let text = clean_code(source.to_owned());
    match tokenize(text.as_str()) {
        Ok(tokens) => Ok(generate_asm_target(tokens, double)),
        Err(e) => Err(e),
    }
}

/// As [`translate`], but gives up where the source reads a name before it
/// is bound.
pub fn translate_strict(source: &str, double: bool) -> (outcome: Result<String, TranslateError>)
    ensures
        holds(outcome, translated_strictly(source@, double)),
{
    let text = clean_code(source.to_owned());
    match tokenize(text.as_str()) {
        Ok(tokens) => generate_asm_strict(tokens, double),
        Err(e) => Err(e),
    }
}

/// Builds `code_raw` as the arguments `args` ask.
pub fn parse(code_raw: String, args: Vec<String>) -> (outcome: Result<String, TranslateError>)
    ensures
        holds(outcome, parsed(code_raw@, texts(args@))),
{
    let text = clean_code(code_raw);
    match tokenize(text.as_str()) {
        Ok(tokens) => {
            match select_target(&args) {
                Target::Compat => Ok(generate_asm_target(tokens, false)),
                Target::Fmbyas => Ok(text),
                Target::Native => Ok(generate_asm_target(tokens, true)),
            }
        },
        Err(e) => Err(e),
    }
}

} // verus!
