//! End-to-end tests of `compile_and_run`: the worked examples of the
//! language, every error variant, and the evaluation-order cases for nested
//! executable blocks.

use postfix::enums::PostfixArithmetic::{ADD, GT, MUL};
use postfix::enums::PostfixCommand::{EXECUTE, INTEGER, SPECIAL};
use postfix::enums::PostfixFunction::{ARITHMETIC, EXEC, SEL};
use postfix::errors::PostfixError::{
    DivideByZero, EmptyStackFinalState, IndexOutOfRangeByNGETFunction, InvalidCharacterError,
    InvalidFunctionNameError, InvalidPostfixKeyword, InvalidValueByNGETFunction,
    NonNumeralFinalState, NumberLiteralFollowedByAlphabetError,
    PostfixShouldBeginWithLeftPostfixAndEndWithRight, UnmatchedRightParenthese,
    WrongNumberOfArguments, WrongNumberOfFunctionArguments, WrongTypeOfFunctionArguments,
};
use postfix::programs::compile_and_run;

#[test]
fn test_stack_top_at_the_beginning() {
    assert_eq!(compile_and_run("(postfix 2)", &vec![3, 4]), Ok(3));
}

#[test]
fn test_swap_arguments() {
    assert_eq!(compile_and_run("(postfix 2 swap)", &vec![3, 4]), Ok(4));
}

#[test]
fn test_pop_and_swap_arguments() {
    assert_eq!(compile_and_run("(postfix 3 pop swap)", &vec![3, 4, 5]), Ok(5));
}

#[test]
fn test_not_enough_arguments() {
    assert_eq!(
        compile_and_run("(postfix 2 swap)", &vec![3]),
        Err(WrongNumberOfArguments { expected: 2, actual: vec![3] })
    );
}

#[test]
fn test_too_many_arguments() {
    assert_eq!(
        compile_and_run("(postfix 1 pop)", &vec![4, 5]),
        Err(WrongNumberOfArguments { expected: 1, actual: vec![4, 5] })
    );
}

#[test]
fn test_simple_substraction() {
    assert_eq!(compile_and_run("(postfix 1 4 sub)", &vec![3]), Ok(-1));
}

#[test]
fn test_simple_arithmetics() {
    assert_eq!(compile_and_run("(postfix 1 4 add 5 mul 6 sub 7 div)", &vec![3]), Ok(4));
}

#[test]
fn test_simple_arithmetics_with_swap() {
    assert_eq!(compile_and_run("(postfix 5 add mul sub swap div)", &vec![7, 6, 5, 4, 3]), Ok(-20));
}

#[test]
fn test_simple_arithmetics_with_swap_pop() {
    assert_eq!(compile_and_run("(postfix 3 4000 swap pop add)", &vec![300, 20, 1]), Ok(4020));
}

#[test]
fn test_averaging() {
    assert_eq!(compile_and_run("(postfix 2 add 2 div)", &vec![3, 7]), Ok(5));
}

#[test]
fn test_division() {
    assert_eq!(compile_and_run("(postfix 1 3 div)", &vec![17]), Ok(5));
}

#[test]
fn test_remainder() {
    assert_eq!(compile_and_run("(postfix 1 3 rem)", &vec![17]), Ok(2));
}

#[test]
fn test_less_than_true() {
    assert_eq!(compile_and_run("(postfix 1 4 lt)", &vec![3]), Ok(1));
}

#[test]
fn test_less_than_false() {
    assert_eq!(compile_and_run("(postfix 1 4 lt)", &vec![5]), Ok(0));
}

#[test]
fn test_true_is_one() {
    assert_eq!(compile_and_run("(postfix 1 4 lt 10 add)", &vec![3]), Ok(11));
}

#[test]
fn test_wrong_number_of_arguments_for_addition() {
    assert_eq!(
        compile_and_run("(postfix 1 4 mul add)", &vec![3]),
        Err(WrongNumberOfFunctionArguments {
            function: ARITHMETIC(ADD),
            expected_number_of_arguments: 2
        })
    );
}

#[test]
fn test_divide_by_zero() {
    assert_eq!(compile_and_run("(postfix 2 4 sub div)", &vec![4, 5]), Err(DivideByZero));
}

#[test]
fn test_remainder_by_zero() {
    assert_eq!(compile_and_run("(postfix 1 0 rem)", &vec![17]), Err(DivideByZero));
}

#[test]
fn test_simple_nget_first() {
    assert_eq!(compile_and_run("(postfix 2 1 nget)", &vec![4, 5]), Ok(4));
}

#[test]
fn test_simple_nget_second() {
    assert_eq!(compile_and_run("(postfix 2 2 nget)", &vec![4, 5]), Ok(5));
}

#[test]
fn test_nget_index_too_large() {
    assert_eq!(
        compile_and_run("(postfix 2 3 nget)", &vec![4, 5]),
        Err(IndexOutOfRangeByNGETFunction { index: 3, min: 1, max: 2 })
    );
}

#[test]
fn test_nget_index_too_small() {
    assert_eq!(
        compile_and_run("(postfix 2 0 nget)", &vec![4, 5]),
        Err(IndexOutOfRangeByNGETFunction { index: 0, min: 1, max: 2 })
    );
}

#[test]
fn test_invalid_nget_result() {
    assert_eq!(
        compile_and_run("(postfix 1 (2 mul) 1 nget)", &vec![3]),
        Err(InvalidValueByNGETFunction { command: EXECUTE(vec![INTEGER(2), SPECIAL(ARITHMETIC(MUL))]) })
    );
}

#[test]
fn test_square_with_nget() {
    assert_eq!(compile_and_run("(postfix 1 1 nget mul)", &vec![5]), Ok(25));
}

#[test]
fn test_quadratic_formular_with_nget() {
    assert_eq!(
        compile_and_run("(postfix 4 4 nget 5 nget mul mul swap 4 nget mul add add)", &vec![
            3, 4, 5, 2
        ]),
        Ok(25)
    );
}

#[test]
fn test_simple_exec() {
    assert_eq!(compile_and_run("(postfix 1 (2 mul) exec)", &vec![7]), Ok(14));
}

#[test]
fn test_negation_routine_with_exec() {
    assert_eq!(compile_and_run("(postfix 0 (0 swap sub) 7 swap exec)", &vec![]), Ok(-7));
}

#[test]
fn test_non_integer_final_stack_top() {
    assert_eq!(
        compile_and_run("(postfix 0 (2 mul))", &vec![]),
        Err(NonNumeralFinalState { command: EXECUTE(vec![INTEGER(2), SPECIAL(ARITHMETIC(MUL))]) })
    );
}

#[test]
fn test_empty_final_stack() {
    assert_eq!(compile_and_run("(postfix 0 1 pop)", &vec![]), Err(EmptyStackFinalState));
}

#[test]
fn test_wrong_type_of_arguments_for_arithmetic() {
    assert_eq!(
        compile_and_run("(postfix 0 3 (2 mul) gt)", &vec![]),
        Err(WrongTypeOfFunctionArguments { function: ARITHMETIC(GT) })
    );
}

#[test]
fn test_wrong_type_of_arguments_for_exec() {
    assert_eq!(
        compile_and_run("(postfix 0 3 exec)", &vec![]),
        Err(WrongTypeOfFunctionArguments { function: EXEC })
    );
}

#[test]
fn test_mildly_complicated_exec() {
    assert_eq!(
        compile_and_run("(postfix 0 (7 swap exec) (0 swap sub) swap exec)", &vec![]),
        Ok(-7)
    );
}

#[test]
fn test_complicated_exec() {
    assert_eq!(
        compile_and_run("(postfix 2 (mul sub) (1 nget mul) 4 nget swap exec swap exec)", &vec![
            -10, 2
        ]),
        Ok(42)
    );
}

#[test]
fn test_deeply_nested_exec() {
    assert_eq!(compile_and_run("(postfix 0 (((7) exec) exec) exec)", &vec![]), Ok(7));
}

#[test]
fn test_configurable_depth_nested_exec() {
    // Blocks nested to a configurable depth, each unwrapped by one exec,
    // terminate and yield the innermost constant.
    let mut nested = String::from("7");
    for _ in 0..50 {
        nested = format!("({nested}) exec");
    }
    let source = format!("(postfix 0 {nested})");
    assert_eq!(compile_and_run(&source, &vec![]), Ok(7));
}

#[test]
fn test_nested_exec_left_to_right_order() {
    // 1 is pushed before the block runs, so sub sees 1 below 10.
    assert_eq!(compile_and_run("(postfix 0 1 (10 sub) exec)", &vec![]), Ok(-9));
}

#[test]
fn test_simple_sel_true() {
    assert_eq!(compile_and_run("(postfix 1 2 3 sel)", &vec![1]), Ok(2));
}

#[test]
fn test_simple_sel_false() {
    assert_eq!(compile_and_run("(postfix 1 2 3 sel)", &vec![0]), Ok(3));
}

#[test]
fn test_simple_sel_non_zero() {
    assert_eq!(compile_and_run("(postfix 1 2 3 sel)", &vec![17]), Ok(2));
}

#[test]
fn test_wrong_type_of_arguments_for_sel() {
    assert_eq!(
        compile_and_run("(postfix 0 (2 mul) 3 4 sel)", &vec![]),
        Err(WrongTypeOfFunctionArguments { function: SEL })
    );
}

#[test]
fn test_sel_exec_first() {
    assert_eq!(compile_and_run("(postfix 4 lt (add) (mul) sel exec)", &vec![3, 4, 5, 6]), Ok(30));
}

#[test]
fn test_sel_exec_second() {
    assert_eq!(compile_and_run("(postfix 4 lt (add) (mul) sel exec)", &vec![4, 3, 5, 6]), Ok(11));
}

#[test]
fn test_absolute_value_neg() {
    assert_eq!(
        compile_and_run("(postfix 1 1 nget 0 lt (0 swap sub) () sel exec)", &vec![-7]),
        Ok(7)
    );
}

#[test]
fn test_absolute_value_pos() {
    assert_eq!(
        compile_and_run("(postfix 1 1 nget 0 lt (0 swap sub) () sel exec)", &vec![6]),
        Ok(6)
    );
}

#[test]
fn test_determinism_same_inputs_same_outputs() {
    let first = compile_and_run("(postfix 2 (mul sub) (1 nget mul) 4 nget swap exec swap exec)", &vec![-10, 2]);
    let second = compile_and_run("(postfix 2 (mul sub) (1 nget mul) 4 nget swap exec swap exec)", &vec![-10, 2]);
    assert_eq!(first, second);
    assert_eq!(first, Ok(42));
}

#[test]
fn test_invalid_character() {
    assert_eq!(compile_and_run("(postfix 0 1%)", &vec![]), Err(InvalidCharacterError('%')));
}

#[test]
fn test_invalid_function_name() {
    assert_eq!(
        compile_and_run("(postfix 0 foo)", &vec![]),
        Err(InvalidFunctionNameError("foo".to_string()))
    );
}

#[test]
fn test_keyword_prefix_is_rejected() {
    assert_eq!(
        compile_and_run("(postfix 0 ad)", &vec![]),
        Err(InvalidFunctionNameError("ad".to_string()))
    );
}

#[test]
fn test_number_followed_by_letter() {
    assert_eq!(
        compile_and_run("(postfix 0 12a)", &vec![]),
        Err(NumberLiteralFollowedByAlphabetError(12, postfix::lexer::Alphabet('a')))
    );
}

#[test]
fn test_malformed_header() {
    assert_eq!(
        compile_and_run("(prefix 0)", &vec![]),
        Err(InvalidFunctionNameError("prefix".to_string()))
    );
    assert_eq!(
        compile_and_run("postfix 0", &vec![]),
        Err(PostfixShouldBeginWithLeftPostfixAndEndWithRight)
    );
    assert_eq!(
        compile_and_run("(0 add)", &vec![]),
        Err(PostfixShouldBeginWithLeftPostfixAndEndWithRight)
    );
}

#[test]
fn test_unmatched_right_parenthesis() {
    assert_eq!(compile_and_run("(postfix 0 1))", &vec![]), Err(UnmatchedRightParenthese));
}

#[test]
fn test_unclosed_block_is_rejected() {
    // The final bracket closes the open block, not the program, so the
    // frame does not match and nothing of the body is silently dropped.
    assert_eq!(
        compile_and_run("(postfix 0 (2)", &vec![]),
        Err(PostfixShouldBeginWithLeftPostfixAndEndWithRight)
    );
    assert_eq!(
        compile_and_run("(postfix 1 (2)", &vec![5]),
        Err(PostfixShouldBeginWithLeftPostfixAndEndWithRight)
    );
    assert_eq!(
        compile_and_run("(postfix 0 ((1) 2)", &vec![]),
        Err(PostfixShouldBeginWithLeftPostfixAndEndWithRight)
    );
}

#[test]
fn test_digit_in_word_is_reconstructed_as_written() {
    assert_eq!(
        compile_and_run("(postfix 0 a2)", &vec![]),
        Err(InvalidFunctionNameError("a2".to_string()))
    );
    assert_eq!(
        compile_and_run("(postfix 0 add2)", &vec![]),
        Err(InvalidFunctionNameError("add2".to_string()))
    );
}

#[test]
fn test_header_keyword_in_body() {
    assert_eq!(
        compile_and_run("(postfix 0 postfix)", &vec![]),
        Err(InvalidPostfixKeyword(postfix::enums::PostfixKeyword::HEAD))
    );
}

#[test]
fn test_large_literal_wraps() {
    // Digits fold with wrapping arithmetic: 99999999999 modulo 2^32.
    assert_eq!(compile_and_run("(postfix 0 99999999999)", &vec![]), Ok(1215752191));
}
