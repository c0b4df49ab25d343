use vstd::prelude::*;

use crate::configuration_and_utilities::StdFunctions;

verus! {

/// An operation on the input vector, to be computed element by element.
///
/// `Number` is a numeric literal (its text, as written in the expression),
/// which stands for that number repeated once per input value; `Variable`
/// stands for the input values themselves; `Unary` and `Binary` apply a
/// function or an operator to the results of their operands.
#[derive(Debug, PartialEq)]
pub enum Term {
    Number(String),
    Variable,
    Unary(StdFunctions, Box<Term>),
    Binary(StdFunctions, Box<Term>, Box<Term>),
}

/// The mathematical model of a `Term`: the same tree, with the literal's text
/// as a sequence of characters.
pub enum SpecTerm {
    Number(Seq<char>),
    Variable,
    Unary(StdFunctions, Box<SpecTerm>),
    Binary(StdFunctions, Box<SpecTerm>, Box<SpecTerm>),
}

pub open spec fn term_view(t: Term) -> SpecTerm
    decreases t,
{
    match t {
        Term::Number(s) => SpecTerm::Number(s@),
        Term::Variable => SpecTerm::Variable,
        Term::Unary(f, a) => SpecTerm::Unary(f, Box::new(term_view(*a))),
        Term::Binary(f, a, b) => SpecTerm::Binary(
            f,
            Box::new(term_view(*a)),
            Box::new(term_view(*b)),
        ),
    }
}

impl View for Term {
    type V = SpecTerm;

    open spec fn view(&self) -> SpecTerm {
        term_view(*self)
    }
}

/// An element of a flattened expression: an operand (`EvalVec`), or a named
/// function, operator or constant (`Fun`). `NoValue` is a placeholder.
#[derive(Debug, PartialEq)]
pub enum EvalTypes {
    NoValue,
    EvalVec(Term),
    Fun(StdFunctions),
}

/// The mathematical model of an `EvalTypes`.
pub enum SpecEvalTypes {
    NoValue,
    EvalVec(SpecTerm),
    Fun(StdFunctions),
}

impl View for EvalTypes {
    type V = SpecEvalTypes;

    open spec fn view(&self) -> SpecEvalTypes {
        match self {
            EvalTypes::NoValue => SpecEvalTypes::NoValue,
            EvalTypes::EvalVec(t) => SpecEvalTypes::EvalVec(t@),
            EvalTypes::Fun(f) => SpecEvalTypes::Fun(*f),
        }
    }
}

/// The models of a sequence of elements, one by one.
pub open spec fn items_view(v: Seq<EvalTypes>) -> Seq<SpecEvalTypes> {
    v.map_values(|e: EvalTypes| e@)
}

/// Why an expression cannot be evaluated. Evaluation answers each of these
/// inputs with an error, by design, where stopping the program would be the
/// alternative; the program turns each error into its message.
#[derive(Clone, Copy, Debug, PartialEq, Eq, Structural)]
pub enum EvalError {
    /// The expression (or a parenthesised part of it) has no tokens.
    EmptyExpression,
    /// The number of parenthesis tokens is odd.
    ParenthesesMismatch,
    /// A parenthesised group does not end after it starts.
    InvalidParenConfiguration,
    /// A token is neither a number, the variable, nor the name of a variant.
    UnknownFunction,
    /// An operator was applied to something that is not an operand.
    WrongEvalType,
    /// The operations did not reduce the expression to a single element.
    ImproperlyFormatted,
}

/// The function that an element names, or `NoFunction` for any other element.
pub open spec fn spec_to_std_fn(e: SpecEvalTypes) -> StdFunctions {
    match e {
        SpecEvalTypes::Fun(f) => f,
        _ => StdFunctions::NoFunction,
    }
}

impl EvalTypes {
    /// The function that this element names, or `NoFunction` if it names none.
    pub fn to_std_fn(&self) -> (res: StdFunctions)
        ensures
            res == spec_to_std_fn(self@),
    {
        match self {
            EvalTypes::Fun(f) => *f,
            _ => StdFunctions::NoFunction,
        }
    }

    /// The operand that this element holds; an element that holds none is
    /// answered with `WrongEvalType` (an error, by design, rather than a stop
    /// of the program).
    pub fn extract_val(self) -> (res: Result<Term, EvalError>)
        ensures
            match self@ {
                SpecEvalTypes::EvalVec(t) => res matches Ok(r) && r@ == t,
                _ => res == Err::<Term, EvalError>(EvalError::WrongEvalType),
            },
    {
        match self {
            EvalTypes::EvalVec(t) => Ok(t),
            _ => Err(EvalError::WrongEvalType),
        }
    }
}

} // verus!
