//! `w1`: a small text-processing macro language.
//!
//! A document is text with macro definitions, `@macro name($p, ...) {{ template }}`,
//! and invocations, `@name({{ arg }}, ...)`. Evaluating it writes the text
//! and, for each invocation, the macro's template with its parameters
//! replaced by the arguments.
use vstd::prelude::*;

pub mod ast;
pub mod eval;
pub mod text;
pub mod token;

use crate::ast::{spec_parse, ParseError, SpecParseError};
use crate::eval::{spec_eval, EvalError, SpecEvalError};
use crate::token::{alnum_classes_of, spec_tokenize, white_classes_of};

verus! {

/// Why a source text has no output.
#[derive(Debug, PartialEq, Eq)]
pub enum Error<'src> {
    Parse(ParseError<'src>),
    Eval(EvalError<'src>),
}

pub enum SpecError {
    Parse(SpecParseError),
    Eval(SpecEvalError),
}

/// The output of the source text `s`, whose characters are classified by
/// `white` and `alnum`.
pub open spec fn spec_run(s: Seq<char>, white: Seq<bool>, alnum: Seq<bool>) -> Result<Seq<char>, SpecError> {
    match spec_parse(spec_tokenize(s, white, alnum)) {
        Err(e) => Err(SpecError::Parse(e)),
        Ok(nodes) => match spec_eval(nodes) {
            Ok(out) => Ok(out),
            Err(e) => Err(SpecError::Eval(e)),
        },
    }
}

/// Tokenizes, parses and evaluates `src`, which must be a document that
/// evaluates without error.
pub fn eval<'src>(src: &'src str) -> (out: String)
    requires
        spec_run(src@, white_classes_of(src@), alnum_classes_of(src@)) is Ok,
    ensures
        spec_run(src@, white_classes_of(src@), alnum_classes_of(src@)) == Ok::<Seq<char>, SpecError>(out@),
{
    let tokens = token::tokenize(src);
    let ast = ast::parse(src, tokens);
    eval::eval(&ast)
}

/// Why `src` has no output, if it has none.
pub fn check(src: &str) -> (r: Result<(), Error<'_>>)
    ensures
        match spec_run(src@, white_classes_of(src@), alnum_classes_of(src@)) {
            Ok(_) => r is Ok,
            Err(SpecError::Parse(e)) => r matches Err(Error::Parse(x)) && x@ == e,
            Err(SpecError::Eval(e)) => r matches Err(Error::Eval(x)) && x@ == e,
        },
{
    let tokens = token::tokenize(src);
    let ast = match ast::try_parse(src, tokens) {
        Ok(ast) => ast,
        Err(e) => return Err(Error::Parse(e)),
    };
    match eval::try_eval(&ast) {
        Ok(_) => Ok(()),
        Err(e) => Err(Error::Eval(e)),
    }
}

/// The output of `src`, or why it has none: `check`, then `eval`.
pub fn try_eval<'src>(src: &'src str) -> (r: Result<String, Error<'src>>)
    ensures
        match spec_run(src@, white_classes_of(src@), alnum_classes_of(src@)) {
            Ok(out) => r matches Ok(s) && s@ == out,
            Err(SpecError::Parse(e)) => r matches Err(Error::Parse(x)) && x@ == e,
            Err(SpecError::Eval(e)) => r matches Err(Error::Eval(x)) && x@ == e,
        },
{
    match check(src) {
        Err(e) => Err(e),
        Ok(()) => Ok(eval(src)),
    }
}

} // verus!
