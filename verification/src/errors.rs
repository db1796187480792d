//! The error taxonomy of the pipeline, with its mathematical model.

use vstd::prelude::*;

use crate::enums::CommandModel;
use crate::enums::PostfixCommand;
use crate::enums::PostfixFunction;
use crate::enums::PostfixKeyword;
use crate::lexer::Alphabet;

verus! {

/// Every failure of lexing, parsing or evaluation, surfaced as a value.
#[derive(Debug, PartialEq)]
pub enum PostfixError {
    InvalidCharacterError(char),
    NumberLiteralFollowedByAlphabetError(i32, Alphabet),
    InvalidFunctionNameError(String),
    PostfixShouldBeginWithLeftPostfixAndEndWithRight,
    UnmatchedRightParenthese,
    InvalidPostfixKeyword(PostfixKeyword),
    WrongNumberOfArguments { expected: usize, actual: Vec<i32> },
    WrongNumberOfFunctionArguments { function: PostfixFunction, expected_number_of_arguments: usize },
    WrongTypeOfFunctionArguments { function: PostfixFunction },
    IndexOutOfRangeByNGETFunction { index: i32, min: usize, max: usize },
    InvalidValueByNGETFunction { command: PostfixCommand },
    NonNumeralFinalState { command: PostfixCommand },
    EmptyStackFinalState,
    DivideByZero,
}

/// The mathematical model of an error: the same taxonomy with ghost
/// sequences and command models in place of vectors, strings and commands.
pub enum ErrorModel {
    InvalidCharacter(char),
    NumberLiteralFollowedByAlphabet(i32, Alphabet),
    InvalidFunctionName(Seq<char>),
    MalformedHeader,
    UnmatchedRightParenthesis,
    InvalidKeyword(PostfixKeyword),
    WrongNumberOfArguments { expected: usize, actual: Seq<i32> },
    WrongNumberOfFunctionArguments { function: PostfixFunction, expected: usize },
    WrongTypeOfFunctionArguments { function: PostfixFunction },
    IndexOutOfRange { index: i32, min: usize, max: usize },
    InvalidValueByNget { command: CommandModel },
    NonNumeralFinalState { command: CommandModel },
    EmptyStackFinalState,
    DivideByZero,
}

impl View for PostfixError {
    type V = ErrorModel;

    open spec fn view(&self) -> ErrorModel {
        match self {
            PostfixError::InvalidCharacterError(c) => ErrorModel::InvalidCharacter(*c),
            PostfixError::NumberLiteralFollowedByAlphabetError(n, a) =>
                ErrorModel::NumberLiteralFollowedByAlphabet(*n, *a),
            PostfixError::InvalidFunctionNameError(s) => ErrorModel::InvalidFunctionName(s@),
            PostfixError::PostfixShouldBeginWithLeftPostfixAndEndWithRight =>
                ErrorModel::MalformedHeader,
            PostfixError::UnmatchedRightParenthese => ErrorModel::UnmatchedRightParenthesis,
            PostfixError::InvalidPostfixKeyword(k) => ErrorModel::InvalidKeyword(*k),
            PostfixError::WrongNumberOfArguments { expected, actual } =>
                ErrorModel::WrongNumberOfArguments { expected: *expected, actual: actual@ },
            PostfixError::WrongNumberOfFunctionArguments { function, expected_number_of_arguments } =>
                ErrorModel::WrongNumberOfFunctionArguments {
                    function: *function,
                    expected: *expected_number_of_arguments,
                },
            PostfixError::WrongTypeOfFunctionArguments { function } =>
                ErrorModel::WrongTypeOfFunctionArguments { function: *function },
            PostfixError::IndexOutOfRangeByNGETFunction { index, min, max } =>
                ErrorModel::IndexOutOfRange { index: *index, min: *min, max: *max },
            PostfixError::InvalidValueByNGETFunction { command } =>
                ErrorModel::InvalidValueByNget { command: command@ },
            PostfixError::NonNumeralFinalState { command } =>
                ErrorModel::NonNumeralFinalState { command: command@ },
            PostfixError::EmptyStackFinalState => ErrorModel::EmptyStackFinalState,
            PostfixError::DivideByZero => ErrorModel::DivideByZero,
        }
    }
}

/// The model of a result whose error side is a `PostfixError`.
pub open spec fn result_view<T>(r: Result<T, PostfixError>) -> Result<T, ErrorModel> {
    match r {
        Ok(t) => Ok(t),
        Err(e) => Err(e@),
    }
}

} // verus!
