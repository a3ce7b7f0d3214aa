use vstd::prelude::*;
use crate::lexer::code_tokens;
use crate::printer::{print_form, print_str};
use crate::reader::{read_at, Reader};
use crate::types::{LexerError, Mal};

verus! {

/// Reads the first form of a line.
pub fn read(string: &str) -> (r: Result<Mal, LexerError>)
    ensures
        match read_at(code_tokens(string@), 0) {
            Ok((f, p)) => r matches Ok(m) && m@ == f,
            Err(e) => r == Err::<Mal, LexerError>(e),
        },
{
    let mut reader = Reader::read_str(string);
    reader.read_form()
}

/// Evaluation does not change a form yet.
pub fn eval<'a>(ast: &'a Mal, env: &str) -> (r: &'a Mal)
    ensures
        r == ast,
{
    ast
}

/// The canonical text of a form.
pub fn print(expression: &Mal) -> (r: String)
    ensures
        r@ == print_form(expression@),
{
    print_str(expression)
}

/// Reads the first form of a line and renders it back.
pub fn rep(string: &str) -> (r: Result<String, LexerError>)
    ensures
        match read_at(code_tokens(string@), 0) {
            Ok((f, p)) => r matches Ok(t) && t@ == print_form(f),
            Err(e) => r == Err::<String, LexerError>(e),
        },
{
    match read(string) {
        Ok(mal) => Ok(print(eval(&mal, ""))),
        Err(e) => Err(e),
    }
}

} // verus!
