//! Unit tests of the pipeline's stages: the classifier, the token builder,
//! the keyword resolver and its round trip, the parser, and single
//! evaluator steps.

use postfix::enums::copy_command;
use postfix::enums::compute_arithmetic_function;
use postfix::enums::execute_command;
use postfix::enums::PostfixArithmetic::{ADD, DIV, EQ, GT, LT, MUL, REM, SUB};
use postfix::enums::PostfixCommand;
use postfix::enums::PostfixCommand::{EXECUTE, INTEGER, SPECIAL};
use postfix::enums::PostfixFunction::{ARITHMETIC, EXEC, NGET, POP, SEL, SWAP};
use postfix::enums::PostfixKeyword;
use postfix::enums::ProgramBuilder;
use postfix::errors::PostfixError;
use postfix::lexer::parse_code_to_tokens;
use postfix::lexer::parse_name_character_to_tobetoken;
use postfix::lexer::parse_one_character_with_tobetoken;
use postfix::lexer::Alphabet;
use postfix::lexer::BreakingCharacter;
use postfix::lexer::Character;
use postfix::lexer::Digit;
use postfix::lexer::FunctionBuilder;
use postfix::lexer::NameCharacter;
use postfix::lexer::ToCharacter;
use postfix::lexer::Token;
use postfix::lexer::TokenBuilder;
use postfix::programs::parse_tokens_to_program;

#[test]
fn test_classifier_categories() {
    assert!(matches!('('.to_character(), Ok(Character::BREAK(BreakingCharacter::LEFT))));
    assert!(matches!(')'.to_character(), Ok(Character::BREAK(BreakingCharacter::RIGHT))));
    assert!(matches!(' '.to_character(), Ok(Character::BREAK(BreakingCharacter::SPACE))));
    assert_eq!('k'.to_character(), Ok(Character::NAME(NameCharacter::ALPHABET(Alphabet('k')))));
    assert_eq!('Z'.to_character(), Ok(Character::NAME(NameCharacter::ALPHABET(Alphabet('Z')))));
    assert_eq!('7'.to_character(), Ok(Character::NAME(NameCharacter::DIGIT(Digit(7)))));
    assert_eq!('%'.to_character(), Err(PostfixError::InvalidCharacterError('%')));
    assert_eq!('\n'.to_character(), Err(PostfixError::InvalidCharacterError('\n')));
}

#[test]
fn test_lexer_simple_tokens() {
    assert_eq!(
        parse_code_to_tokens("(postfix 2 13 add)"),
        Ok(vec![
            Token::LEFT,
            Token::KEYWORD(PostfixKeyword::HEAD),
            Token::NUMBER(2),
            Token::NUMBER(13),
            Token::KEYWORD(PostfixKeyword::FUNCTION(ARITHMETIC(ADD))),
            Token::RIGHT,
        ])
    );
}

#[test]
fn test_lexer_multiple_spaces_and_tight_brackets() {
    assert_eq!(
        parse_code_to_tokens("(1  (2)3)"),
        Ok(vec![
            Token::LEFT,
            Token::NUMBER(1),
            Token::LEFT,
            Token::NUMBER(2),
            Token::RIGHT,
            Token::NUMBER(3),
            Token::RIGHT,
        ])
    );
}

#[test]
fn test_lexer_drops_open_builder_at_end_of_input() {
    // A source that ends mid-word has no breaking character to flush the
    // builder, so the final token is silently dropped.
    assert_eq!(parse_code_to_tokens("add"), Ok(vec![]));
    assert_eq!(parse_code_to_tokens("add "), Ok(vec![Token::KEYWORD(
        PostfixKeyword::FUNCTION(ARITHMETIC(ADD))
    )]));
    assert_eq!(parse_code_to_tokens("(postfix 1"), Ok(vec![
        Token::LEFT,
        Token::KEYWORD(PostfixKeyword::HEAD),
    ]));
}

#[test]
fn test_lexer_first_error_wins() {
    assert_eq!(parse_code_to_tokens("12a %"), Err(
        PostfixError::NumberLiteralFollowedByAlphabetError(12, Alphabet('a'))
    ));
    assert_eq!(parse_code_to_tokens("% 12a"), Err(PostfixError::InvalidCharacterError('%')));
}

#[test]
fn test_builder_accumulates_number() {
    let b = parse_name_character_to_tobetoken(None, NameCharacter::DIGIT(Digit(4))).unwrap();
    let b = b.consume(NameCharacter::DIGIT(Digit(2))).unwrap();
    match b {
        TokenBuilder::TOBENUMBER(n) => assert_eq!(n, 42),
        _ => panic!("expected a number builder"),
    }
}

#[test]
fn test_builder_word_takes_digit() {
    // `foo2` stays one word: a digit extends an open word builder.
    let b = parse_name_character_to_tobetoken(
        None,
        NameCharacter::ALPHABET(Alphabet('f')),
    ).unwrap();
    let b = b.consume(NameCharacter::DIGIT(Digit(2))).unwrap();
    match b {
        TokenBuilder::TOBEWORD(fb) => {
            assert_eq!(fb.head, Alphabet('f'));
            assert_eq!(fb.tail.len(), 1);
        },
        _ => panic!("expected a word builder"),
    }
}

#[test]
fn test_lexer_step_flushes_builder_before_bracket() {
    let b = parse_name_character_to_tobetoken(None, NameCharacter::DIGIT(Digit(7))).unwrap();
    let (next, tokens) = parse_one_character_with_tobetoken(
        Some(b),
        Character::BREAK(BreakingCharacter::RIGHT),
    ).unwrap();
    assert!(next.is_none());
    assert_eq!(tokens, vec![Token::NUMBER(7), Token::RIGHT]);
}

#[test]
fn test_resolver_accepts_every_keyword() {
    let words: Vec<(&str, PostfixKeyword)> = vec![
        ("eq", PostfixKeyword::FUNCTION(ARITHMETIC(EQ))),
        ("lt", PostfixKeyword::FUNCTION(ARITHMETIC(LT))),
        ("gt", PostfixKeyword::FUNCTION(ARITHMETIC(GT))),
        ("add", PostfixKeyword::FUNCTION(ARITHMETIC(ADD))),
        ("div", PostfixKeyword::FUNCTION(ARITHMETIC(DIV))),
        ("mul", PostfixKeyword::FUNCTION(ARITHMETIC(MUL))),
        ("rem", PostfixKeyword::FUNCTION(ARITHMETIC(REM))),
        ("sub", PostfixKeyword::FUNCTION(ARITHMETIC(SUB))),
        ("pop", PostfixKeyword::FUNCTION(POP)),
        ("sel", PostfixKeyword::FUNCTION(SEL)),
        ("exec", PostfixKeyword::FUNCTION(EXEC)),
        ("nget", PostfixKeyword::FUNCTION(NGET)),
        ("swap", PostfixKeyword::FUNCTION(SWAP)),
        ("postfix", PostfixKeyword::HEAD),
    ];
    for (word, expected) in words {
        let mut chars = word.chars();
        let head = Alphabet(chars.next().unwrap());
        let tail: Vec<NameCharacter> =
            chars.map(|c| NameCharacter::ALPHABET(Alphabet(c))).collect();
        let fb = FunctionBuilder { head, tail };
        assert_eq!(PostfixKeyword::from_builder(fb), Ok(expected), "word {word}");
    }
}

#[test]
fn test_resolver_round_trip_through_lexer() {
    // The reconstructed string of a resolved keyword re-lexes to the same
    // keyword (a breaking character flushes the re-built word).
    let fb = FunctionBuilder {
        head: Alphabet('s'),
        tail: vec![
            NameCharacter::ALPHABET(Alphabet('w')),
            NameCharacter::ALPHABET(Alphabet('a')),
            NameCharacter::ALPHABET(Alphabet('p')),
        ],
    };
    let word = FunctionBuilder {
        head: fb.head,
        tail: fb.tail.clone(),
    }.to_string();
    assert_eq!(word, "swap");
    let resolved = PostfixKeyword::from_builder(fb).unwrap();
    let mut flushed = word.clone();
    flushed.push(' ');
    assert_eq!(parse_code_to_tokens(&flushed), Ok(vec![Token::KEYWORD(resolved)]));
}

#[test]
fn test_resolver_rejects_uppercase_variant() {
    let fb = FunctionBuilder {
        head: Alphabet('A'),
        tail: vec![
            NameCharacter::ALPHABET(Alphabet('d')),
            NameCharacter::ALPHABET(Alphabet('d')),
        ],
    };
    assert_eq!(
        PostfixKeyword::from_builder(fb),
        Err(PostfixError::InvalidFunctionNameError("Add".to_string()))
    );
}

#[test]
fn test_to_string_reconstructs_word() {
    let fb = FunctionBuilder {
        head: Alphabet('a'),
        tail: vec![
            NameCharacter::ALPHABET(Alphabet('b')),
            NameCharacter::ALPHABET(Alphabet('C')),
        ],
    };
    assert_eq!(fb.to_string(), "abC");
}

#[test]
fn test_to_string_renders_digit_as_written() {
    let fb = FunctionBuilder {
        head: Alphabet('a'),
        tail: vec![NameCharacter::DIGIT(Digit(2))],
    };
    assert_eq!(fb.to_string(), "a2");
}

#[test]
fn test_to_token_of_number_builder() {
    assert_eq!(TokenBuilder::TOBENUMBER(9).to_token(), Ok(Token::NUMBER(9)));
}

#[test]
fn test_parser_builds_nested_blocks() {
    let tokens = parse_code_to_tokens("(postfix 1 (2 (3) mul) 4)").unwrap();
    let program = parse_tokens_to_program(tokens).unwrap();
    assert_eq!(program.paramsize, 1);
    assert_eq!(program.commands, vec![
        EXECUTE(vec![INTEGER(2), EXECUTE(vec![INTEGER(3)]), SPECIAL(ARITHMETIC(MUL))]),
        INTEGER(4),
    ]);
}

#[test]
fn test_parser_rejects_unclosed_block() {
    // Tokens framed correctly, but the interior opens a block that the
    // final bracket closes instead of the program.
    let tokens = vec![
        Token::LEFT,
        Token::KEYWORD(PostfixKeyword::HEAD),
        Token::NUMBER(0),
        Token::LEFT,
        Token::NUMBER(2),
        Token::RIGHT,
    ];
    assert_eq!(
        parse_tokens_to_program(tokens).unwrap_err(),
        PostfixError::PostfixShouldBeginWithLeftPostfixAndEndWithRight
    );
}

#[test]
fn test_parser_rejects_lone_right_bracket() {
    let tokens = vec![
        Token::LEFT,
        Token::KEYWORD(PostfixKeyword::HEAD),
        Token::NUMBER(0),
        Token::RIGHT,
        Token::RIGHT,
    ];
    assert_eq!(
        parse_tokens_to_program(tokens).unwrap_err(),
        PostfixError::UnmatchedRightParenthese
    );
}

#[test]
fn test_program_builder_appends_at_top_level() {
    let builder = ProgramBuilder::new(2);
    let builder = builder.consume(Token::NUMBER(5)).unwrap();
    let builder = builder.consume(Token::KEYWORD(PostfixKeyword::FUNCTION(SWAP))).unwrap();
    let program = builder.build();
    assert_eq!(program.paramsize, 2);
    assert_eq!(program.commands, vec![INTEGER(5), SPECIAL(SWAP)]);
}

#[test]
fn test_copy_command_is_structural() {
    let tree = EXECUTE(vec![INTEGER(1), EXECUTE(vec![SPECIAL(EXEC)])]);
    assert_eq!(copy_command(&tree), tree);
}

#[test]
fn test_arithmetic_relations_and_wrapping() {
    assert_eq!(compute_arithmetic_function(&ADD, 2, 3), 5);
    assert_eq!(compute_arithmetic_function(&SUB, 2, 3), -1);
    assert_eq!(compute_arithmetic_function(&MUL, -4, 3), -12);
    assert_eq!(compute_arithmetic_function(&DIV, 17, 3), 5);
    assert_eq!(compute_arithmetic_function(&DIV, -17, 3), -5);
    assert_eq!(compute_arithmetic_function(&REM, 17, 3), 2);
    assert_eq!(compute_arithmetic_function(&REM, -17, 3), -2);
    assert_eq!(compute_arithmetic_function(&EQ, 4, 4), 1);
    assert_eq!(compute_arithmetic_function(&EQ, 4, 5), 0);
    assert_eq!(compute_arithmetic_function(&GT, 5, 4), 1);
    assert_eq!(compute_arithmetic_function(&LT, 5, 4), 0);
    assert_eq!(compute_arithmetic_function(&ADD, i32::MAX, 1), i32::MIN);
    assert_eq!(compute_arithmetic_function(&MUL, i32::MAX, 2), -2);
    assert_eq!(compute_arithmetic_function(&DIV, i32::MIN, -1), i32::MIN);
    assert_eq!(compute_arithmetic_function(&REM, i32::MIN, -1), 0);
}

#[test]
fn test_divide_by_zero_leaves_stacks_unchanged() {
    let mut pending: Vec<PostfixCommand> = vec![INTEGER(9)];
    let mut stack: Vec<PostfixCommand> = vec![INTEGER(4), INTEGER(0)];
    let r = execute_command(&SPECIAL(ARITHMETIC(DIV)), &mut pending, &mut stack);
    assert_eq!(r, Err(PostfixError::DivideByZero));
    assert_eq!(pending, vec![INTEGER(9)]);
    assert_eq!(stack, vec![INTEGER(4), INTEGER(0)]);
}

#[test]
fn test_exec_splices_block_in_order() {
    let mut pending: Vec<PostfixCommand> = vec![SPECIAL(POP)];
    let mut stack: Vec<PostfixCommand> = vec![EXECUTE(vec![INTEGER(1), INTEGER(2)])];
    let r = execute_command(&SPECIAL(EXEC), &mut pending, &mut stack);
    assert_eq!(r, Ok(()));
    // The pending list pops from its end, so the block's first command sits
    // last: original order 1 then 2, ahead of what was already pending.
    assert_eq!(pending, vec![SPECIAL(POP), INTEGER(2), INTEGER(1)]);
    assert_eq!(stack, vec![]);
}

#[test]
fn test_swap_step() {
    let mut pending: Vec<PostfixCommand> = vec![];
    let mut stack: Vec<PostfixCommand> = vec![INTEGER(1), INTEGER(2), INTEGER(3)];
    assert_eq!(execute_command(&SPECIAL(SWAP), &mut pending, &mut stack), Ok(()));
    assert_eq!(stack, vec![INTEGER(1), INTEGER(3), INTEGER(2)]);
}

#[test]
fn test_sel_pushes_first_popped_on_zero() {
    let mut pending: Vec<PostfixCommand> = vec![];
    let mut stack: Vec<PostfixCommand> = vec![INTEGER(0), INTEGER(2), INTEGER(3)];
    assert_eq!(execute_command(&SPECIAL(SEL), &mut pending, &mut stack), Ok(()));
    assert_eq!(stack, vec![INTEGER(3)]);
}
