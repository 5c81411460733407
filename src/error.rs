//! The errors of every stage. Each one is fatal to the compilation.
use vstd::prelude::*;

use crate::lexer::{LexErrorKind, Loc, Token};

verus! {

#[derive(Clone, Debug, PartialEq, Eq)]
pub enum ErrorKind {
    /// The bytes at the location form no token.
    Lexical(LexErrorKind),
    /// A token that the grammar does not allow where it stands.
    UnexpectedToken(Token),
    /// The source ended where a token was required.
    UnexpectedEnd,
    /// A second function of the same name.
    FnRedeclared(Vec<u8>),
    /// A second declaration of a variable in one function.
    VarRedeclared(Vec<u8>),
    /// A variable that is not declared before its use.
    UnknownVar(Vec<u8>),
    /// A call of a function that is not declared.
    UnknownFn(Vec<u8>),
    /// A call with another number of arguments than the function's parameters.
    ArityMismatch(Vec<u8>),
    /// A call, in an expression, of a function without a result.
    NoResult(Vec<u8>),
    /// A function with a result whose body does not end in `return value;`.
    ReturnValueMissed,
    /// `return;` in a function with a result.
    ReturnWithoutValue,
    /// `return value;` in a function without a result.
    ReturnValueNotAllowed,
    /// `break` or `continue` outside any loop.
    OutsideLoop,
    /// A built-in other than `log` and `cmd`.
    UnknownBuiltin(Vec<u8>),
    /// The program has no function named `main`.
    NoMain,
    /// A count of arguments or slots that does not fit in a machine word.
    TooLarge,
}

/// An error with the location that it is reported at.
#[derive(Clone, Debug, PartialEq, Eq)]
pub struct CompileError {
    pub loc: Loc,
    pub kind: ErrorKind,
}

} // verus!
