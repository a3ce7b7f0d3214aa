use vstd::prelude::*;

verus! {

broadcast use vstd::std_specs::vec::group_vec_axioms, vstd::seq::group_seq_axioms;

/// The mathematical value of a parsed form: what a `Mal` stands for.
pub enum Form {
    Int(int),
    /// The characters between the quotes, escapes kept as written.
    Str(Seq<char>),
    Nil,
    True,
    False,
    Symbol(Seq<char>),
    List(Seq<Form>),
}

/// Why a form could not be read.
#[derive(Debug, Clone, Copy, PartialEq, Eq, Structural)]
pub enum LexerError {
    /// A string literal that was never closed.
    UnbalancedString,
    /// A token that looks like an integer but is not one that fits in `i32`.
    NotANumber,
    /// No token was left where a form was expected.
    UnsupportedSyntax,
}

/// A parsed form: an atom, or a list of forms that it owns.
#[derive(Debug)]
pub enum Mal {
    Int(i32),
    /// The characters between the quotes, escapes kept as written.
    Str(String),
    Nil,
    True,
    False,
    Symbol(String),
    List(Vec<Mal>),
}

impl Mal {
    /// The value of the form, children included.
    pub open spec fn view(&self) -> Form
        decreases self,
    {
        match self {
            Mal::Int(i) => Form::Int(*i as int),
            Mal::Str(s) => Form::Str(s@),
            Mal::Nil => Form::Nil,
            Mal::True => Form::True,
            Mal::False => Form::False,
            Mal::Symbol(s) => Form::Symbol(s@),
            Mal::List(v) => Form::List(
                Seq::new(
                    v@.len(),
                    |i: int|
                        if 0 <= i < v@.len() {
                            v@[i].view()
                        } else {
                            Form::Nil
                        },
                ),
            ),
        }
    }
}

} // verus!
