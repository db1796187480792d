//! The lexer: character classification, the token-builder fold, keyword
//! resolution, and the tokenizer itself.
//!
//! Every step is specified by a spec function over the character sequence,
//! and each executable function is proved to return exactly what the
//! corresponding spec function says.

use vstd::prelude::*;

use crate::enums::PostfixArithmetic;
use crate::enums::PostfixFunction;
use crate::enums::PostfixKeyword;
use crate::errors::ErrorModel;
use crate::errors::PostfixError;
use crate::errors::result_view;

verus! {

/// A single ASCII letter, either case.
#[derive(Debug, Copy, Clone, PartialEq, Eq, Structural)]
pub struct Alphabet(pub char);

/// The numeric value (0 to 9) of a single ASCII digit.
#[derive(Debug, Copy, Clone, PartialEq, Eq, Structural)]
pub struct Digit(pub u8);

/// A character that accumulates into a word or a number token.
#[derive(Debug, Copy, Clone, PartialEq, Eq, Structural)]
pub enum NameCharacter {
    ALPHABET(Alphabet),
    DIGIT(Digit),
}

/// A character that terminates the token being accumulated.
#[derive(Debug, Copy, Clone, PartialEq, Eq, Structural)]
pub enum BreakingCharacter {
    LEFT,
    RIGHT,
    SPACE,
}

/// The category of one input character.
#[derive(Debug, Copy, Clone, PartialEq, Eq, Structural)]
pub enum Character {
    BREAK(BreakingCharacter),
    NAME(NameCharacter),
}

/// An ASCII letter, either case.
pub open spec fn spec_is_letter(c: char) -> bool {
    (('a' as u32) <= (c as u32) && (c as u32) <= ('z' as u32)) || (('A' as u32) <= (c as u32)
        && (c as u32) <= ('Z' as u32))
}

/// An ASCII digit.
pub open spec fn spec_is_digit(c: char) -> bool {
    ('0' as u32) <= (c as u32) && (c as u32) <= ('9' as u32)
}

/// The numeric value of an ASCII digit character.
pub open spec fn spec_digit_value(c: char) -> u8
    recommends
        spec_is_digit(c),
{
    ((c as u32) - ('0' as u32)) as u8
}

/// The category of one input character: brackets and the space break the
/// current token, letters and digits accumulate, and anything else is an
/// invalid character.
pub open spec fn spec_classify(c: char) -> Result<Character, ErrorModel> {
    if c == '(' {
        Ok(Character::BREAK(BreakingCharacter::LEFT))
    } else if c == ')' {
        Ok(Character::BREAK(BreakingCharacter::RIGHT))
    } else if c == ' ' {
        Ok(Character::BREAK(BreakingCharacter::SPACE))
    } else if spec_is_letter(c) {
        Ok(Character::NAME(NameCharacter::ALPHABET(Alphabet(c))))
    } else if spec_is_digit(c) {
        Ok(Character::NAME(NameCharacter::DIGIT(Digit(spec_digit_value(c)))))
    } else {
        Err(ErrorModel::InvalidCharacter(c))
    }
}

/// Classification of a value into a character category.
pub trait ToCharacter {
    fn to_character(self) -> Result<Character, PostfixError>;
}

impl ToCharacter for char {
    /// Classifies this character, exactly as `spec_classify` says.
    fn to_character(self) -> (r: Result<Character, PostfixError>)
        ensures
            result_view(r) == spec_classify(self),
    {
        if self == '(' {
            Ok(Character::BREAK(BreakingCharacter::LEFT))
        } else if self == ')' {
            Ok(Character::BREAK(BreakingCharacter::RIGHT))
        } else if self == ' ' {
            Ok(Character::BREAK(BreakingCharacter::SPACE))
        } else {
            let u = self as u32;
            if (('a' as u32) <= u && u <= ('z' as u32)) || (('A' as u32) <= u && u <= ('Z'
                as u32)) {
                Ok(Character::NAME(NameCharacter::ALPHABET(Alphabet(self))))
            } else if ('0' as u32) <= u && u <= ('9' as u32) {
                Ok(Character::NAME(NameCharacter::DIGIT(Digit((u - ('0' as u32)) as u8))))
            } else {
                Err(PostfixError::InvalidCharacterError(self))
            }
        }
    }
}

/// An in-progress word: its head letter and the name characters seen after it.
#[derive(Debug)]
pub struct FunctionBuilder {
    pub head: Alphabet,
    pub tail: Vec<NameCharacter>,
}

/// The model of an in-progress token: a number accumulated so far, or a word
/// as its head letter and trailing name characters.
pub enum BuilderModel {
    Num(i32),
    Word(char, Seq<NameCharacter>),
}

impl View for FunctionBuilder {
    type V = BuilderModel;

    open spec fn view(&self) -> BuilderModel {
        BuilderModel::Word(self.head.0, self.tail@)
    }
}

/// An in-progress token, carried between lexer steps.
#[derive(Debug)]
pub enum TokenBuilder {
    TOBENUMBER(i32),
    TOBEWORD(FunctionBuilder),
}

impl View for TokenBuilder {
    type V = BuilderModel;

    open spec fn view(&self) -> BuilderModel {
        match self {
            TokenBuilder::TOBENUMBER(n) => BuilderModel::Num(*n),
            TokenBuilder::TOBEWORD(fb) => fb@,
        }
    }
}

/// A completed token.
#[derive(Debug, Copy, Clone, PartialEq, Eq, Structural)]
pub enum Token {
    LEFT,
    RIGHT,
    NUMBER(i32),
    KEYWORD(PostfixKeyword),
}

/// The model of an optional in-progress token.
pub open spec fn opt_builder_view(b: Option<TokenBuilder>) -> Option<BuilderModel> {
    match b {
        None => None,
        Some(t) => Some(t@),
    }
}

/// The model of a result that carries an in-progress token.
pub open spec fn builder_result_view(r: Result<TokenBuilder, PostfixError>) -> Result<
    BuilderModel,
    ErrorModel,
> {
    match r {
        Ok(b) => Ok(b@),
        Err(e) => Err(e@),
    }
}

/// The character a name character stands for when a word is reconstructed:
/// a letter stands for itself, and a digit for the ASCII digit character
/// with its value, so that the word is rendered as it was written.
pub open spec fn spec_name_char(nc: NameCharacter) -> char {
    match nc {
        NameCharacter::ALPHABET(a) => a.0,
        NameCharacter::DIGIT(d) => d.0.wrapping_add('0' as u8) as char,
    }
}

/// The characters the tail of a word stands for, in order.
pub open spec fn spec_tail_chars(tail: Seq<NameCharacter>) -> Seq<char> {
    tail.map_values(|nc: NameCharacter| spec_name_char(nc))
}

/// The reconstructed character sequence of a word: its head letter followed
/// by the characters of its tail.
pub open spec fn spec_word_chars(head: char, tail: Seq<NameCharacter>) -> Seq<char> {
    seq![head] + spec_tail_chars(tail)
}

/// The name character of one letter.
pub open spec fn spec_letter(c: char) -> NameCharacter {
    NameCharacter::ALPHABET(Alphabet(c))
}

/// The name characters of a run of letters, in order.
pub open spec fn spec_letters(word: Seq<char>) -> Seq<NameCharacter> {
    word.map_values(|c: char| spec_letter(c))
}

/// The tail consists exactly of the letters of `word`, in order.
pub open spec fn spec_tail_is(tail: Seq<NameCharacter>, word: Seq<char>) -> bool {
    tail.len() == word.len() && forall|i: int|
        0 <= i < word.len() ==> tail[i] == NameCharacter::ALPHABET(Alphabet(#[trigger] word[i]))
}

/// Exact resolution of a completed word against the closed keyword table.
/// Any other word, a valid prefix of a keyword included, is an invalid
/// function name carrying the reconstructed word.
pub open spec fn spec_resolve(head: char, tail: Seq<NameCharacter>) -> Result<
    PostfixKeyword,
    ErrorModel,
> {
    if head == 'e' && spec_tail_is(tail, seq!['q']) {
        Ok(PostfixKeyword::FUNCTION(PostfixFunction::ARITHMETIC(PostfixArithmetic::EQ)))
    } else if head == 'l' && spec_tail_is(tail, seq!['t']) {
        Ok(PostfixKeyword::FUNCTION(PostfixFunction::ARITHMETIC(PostfixArithmetic::LT)))
    } else if head == 'g' && spec_tail_is(tail, seq!['t']) {
        Ok(PostfixKeyword::FUNCTION(PostfixFunction::ARITHMETIC(PostfixArithmetic::GT)))
    } else if head == 'a' && spec_tail_is(tail, seq!['d', 'd']) {
        Ok(PostfixKeyword::FUNCTION(PostfixFunction::ARITHMETIC(PostfixArithmetic::ADD)))
    } else if head == 'd' && spec_tail_is(tail, seq!['i', 'v']) {
        Ok(PostfixKeyword::FUNCTION(PostfixFunction::ARITHMETIC(PostfixArithmetic::DIV)))
    } else if head == 'm' && spec_tail_is(tail, seq!['u', 'l']) {
        Ok(PostfixKeyword::FUNCTION(PostfixFunction::ARITHMETIC(PostfixArithmetic::MUL)))
    } else if head == 'r' && spec_tail_is(tail, seq!['e', 'm']) {
        Ok(PostfixKeyword::FUNCTION(PostfixFunction::ARITHMETIC(PostfixArithmetic::REM)))
    } else if head == 's' && spec_tail_is(tail, seq!['u', 'b']) {
        Ok(PostfixKeyword::FUNCTION(PostfixFunction::ARITHMETIC(PostfixArithmetic::SUB)))
    } else if head == 'p' && spec_tail_is(tail, seq!['o', 'p']) {
        Ok(PostfixKeyword::FUNCTION(PostfixFunction::POP))
    } else if head == 's' && spec_tail_is(tail, seq!['e', 'l']) {
        Ok(PostfixKeyword::FUNCTION(PostfixFunction::SEL))
    } else if head == 'e' && spec_tail_is(tail, seq!['x', 'e', 'c']) {
        Ok(PostfixKeyword::FUNCTION(PostfixFunction::EXEC))
    } else if head == 'n' && spec_tail_is(tail, seq!['g', 'e', 't']) {
        Ok(PostfixKeyword::FUNCTION(PostfixFunction::NGET))
    } else if head == 's' && spec_tail_is(tail, seq!['w', 'a', 'p']) {
        Ok(PostfixKeyword::FUNCTION(PostfixFunction::SWAP))
    } else if head == 'p' && spec_tail_is(tail, seq!['o', 's', 't', 'f', 'i', 'x']) {
        Ok(PostfixKeyword::HEAD)
    } else {
        Err(ErrorModel::InvalidFunctionName(spec_word_chars(head, tail)))
    }
}

/// Relies on `String::push`: it appends the given character to the end of
/// the string.
#[verifier::external_body]
fn push_char(s: &mut String, c: char)
    ensures
        final(s)@ == old(s)@.push(c),
{
    s.push(c)
}

/// A name character holding the given letter.
fn letter(c: char) -> (nc: NameCharacter)
    ensures
        nc == NameCharacter::ALPHABET(Alphabet(c)),
{
    NameCharacter::ALPHABET(Alphabet(c))
}

/// Whether the tail is exactly the one given letter.
fn tail_matches1(t: &Vec<NameCharacter>, c0: char) -> (r: bool)
    ensures
        r == spec_tail_is(t@, seq![c0]),
{
    let r = t.len() == 1 && t[0] == letter(c0);
    proof {
        let w = seq![c0];
        assert(w.len() == 1 && w[0] == c0);
        assert(r == spec_tail_is(t@, w));
    }
    r
}

/// Whether the tail is exactly the two given letters, in order.
fn tail_matches2(t: &Vec<NameCharacter>, c0: char, c1: char) -> (r: bool)
    ensures
        r == spec_tail_is(t@, seq![c0, c1]),
{
    let r = t.len() == 2 && t[0] == letter(c0) && t[1] == letter(c1);
    proof {
        let w = seq![c0, c1];
        assert(w.len() == 2 && w[0] == c0 && w[1] == c1);
        assert(r == spec_tail_is(t@, w));
    }
    r
}

/// Whether the tail is exactly the three given letters, in order.
fn tail_matches3(t: &Vec<NameCharacter>, c0: char, c1: char, c2: char) -> (r: bool)
    ensures
        r == spec_tail_is(t@, seq![c0, c1, c2]),
{
    let r = t.len() == 3 && t[0] == letter(c0) && t[1] == letter(c1) && t[2] == letter(c2);
    proof {
        let w = seq![c0, c1, c2];
        assert(w.len() == 3 && w[0] == c0 && w[1] == c1 && w[2] == c2);
        assert(r == spec_tail_is(t@, w));
    }
    r
}

/// Whether the tail is exactly the six given letters, in order.
fn tail_matches6(t: &Vec<NameCharacter>, c0: char, c1: char, c2: char, c3: char, c4: char, c5: char)
    -> (r: bool)
    ensures
        r == spec_tail_is(t@, seq![c0, c1, c2, c3, c4, c5]),
{
    let r = t.len() == 6 && t[0] == letter(c0) && t[1] == letter(c1) && t[2] == letter(c2) && t[3]
        == letter(c3) && t[4] == letter(c4) && t[5] == letter(c5);
    proof {
        let w = seq![c0, c1, c2, c3, c4, c5];
        assert(w.len() == 6 && w[0] == c0 && w[1] == c1 && w[2] == c2 && w[3] == c3 && w[4] == c4
            && w[5] == c5);
        assert(r == spec_tail_is(t@, w));
    }
    r
}

/// The character a name character stands for.
fn name_character_char(nc: NameCharacter) -> (c: char)
    ensures
        c == spec_name_char(nc),
{
    match nc {
        NameCharacter::ALPHABET(a) => a.0,
        NameCharacter::DIGIT(d) => d.0.wrapping_add('0' as u8) as char,
    }
}

impl FunctionBuilder {
    /// The reconstructed word: the head letter followed by the characters of
    /// the tail.
    pub fn to_string(self) -> (r: String)
        ensures
            r@ == spec_word_chars(self.head.0, self.tail@),
    {
        let ghost head = self.head.0;
        let ghost tail = self.tail@;
        let mut s = String::new();
        push_char(&mut s, self.head.0);
        let mut i: usize = 0;
        while i < self.tail.len()
            invariant
                i <= tail.len(),
                self.tail@ == tail,
                self.head.0 == head,
                s@ == seq![head] + spec_tail_chars(tail.take(i as int)),
            decreases tail.len() - i,
        {
            push_char(&mut s, name_character_char(self.tail[i]));
            proof {
                assert(spec_tail_chars(tail.take(i + 1)) =~= spec_tail_chars(
                    tail.take(i as int),
                ).push(spec_name_char(tail[i as int])));
            }
            i += 1;
        }
        proof {
            assert(tail.take(tail.len() as int) =~= tail);
        }
        s
    }
}

impl PostfixKeyword {
    /// Resolves a completed word, exactly as `spec_resolve` says.
    pub fn from_builder(tbf: FunctionBuilder) -> (r: Result<PostfixKeyword, PostfixError>)
        ensures
            result_view(r) == spec_resolve(tbf.head.0, tbf.tail@),
    {
        let head = tbf.head.0;
        let t = &tbf.tail;
        if head == 'e' && tail_matches1(t, 'q') {
            Ok(PostfixKeyword::FUNCTION(PostfixFunction::ARITHMETIC(PostfixArithmetic::EQ)))
        } else if head == 'l' && tail_matches1(t, 't') {
            Ok(PostfixKeyword::FUNCTION(PostfixFunction::ARITHMETIC(PostfixArithmetic::LT)))
        } else if head == 'g' && tail_matches1(t, 't') {
            Ok(PostfixKeyword::FUNCTION(PostfixFunction::ARITHMETIC(PostfixArithmetic::GT)))
        } else if head == 'a' && tail_matches2(t, 'd', 'd') {
            Ok(PostfixKeyword::FUNCTION(PostfixFunction::ARITHMETIC(PostfixArithmetic::ADD)))
        } else if head == 'd' && tail_matches2(t, 'i', 'v') {
            Ok(PostfixKeyword::FUNCTION(PostfixFunction::ARITHMETIC(PostfixArithmetic::DIV)))
        } else if head == 'm' && tail_matches2(t, 'u', 'l') {
            Ok(PostfixKeyword::FUNCTION(PostfixFunction::ARITHMETIC(PostfixArithmetic::MUL)))
        } else if head == 'r' && tail_matches2(t, 'e', 'm') {
            Ok(PostfixKeyword::FUNCTION(PostfixFunction::ARITHMETIC(PostfixArithmetic::REM)))
        } else if head == 's' && tail_matches2(t, 'u', 'b') {
            Ok(PostfixKeyword::FUNCTION(PostfixFunction::ARITHMETIC(PostfixArithmetic::SUB)))
        } else if head == 'p' && tail_matches2(t, 'o', 'p') {
            Ok(PostfixKeyword::FUNCTION(PostfixFunction::POP))
        } else if head == 's' && tail_matches2(t, 'e', 'l') {
            Ok(PostfixKeyword::FUNCTION(PostfixFunction::SEL))
        } else if head == 'e' && tail_matches3(t, 'x', 'e', 'c') {
            Ok(PostfixKeyword::FUNCTION(PostfixFunction::EXEC))
        } else if head == 'n' && tail_matches3(t, 'g', 'e', 't') {
            Ok(PostfixKeyword::FUNCTION(PostfixFunction::NGET))
        } else if head == 's' && tail_matches3(t, 'w', 'a', 'p') {
            Ok(PostfixKeyword::FUNCTION(PostfixFunction::SWAP))
        } else if head == 'p' && tail_matches6(t, 'o', 's', 't', 'f', 'i', 'x') {
            Ok(PostfixKeyword::HEAD)
        } else {
            Err(PostfixError::InvalidFunctionNameError(tbf.to_string()))
        }
    }
}

/// A completed number builder becomes an integer token; a completed word
/// builder is resolved against the keyword table.
pub open spec fn spec_to_token(b: BuilderModel) -> Result<Token, ErrorModel> {
    match b {
        BuilderModel::Num(n) => Ok(Token::NUMBER(n)),
        BuilderModel::Word(h, t) => match spec_resolve(h, t) {
            Ok(k) => Ok(Token::KEYWORD(k)),
            Err(e) => Err(e),
        },
    }
}

impl TokenBuilder {
    /// Completes this builder into one token, exactly as `spec_to_token`
    /// says.
    pub fn to_token(self) -> (r: Result<Token, PostfixError>)
        ensures
            result_view(r) == spec_to_token(self@),
    {
        match self {
            TokenBuilder::TOBENUMBER(d) => Ok(Token::NUMBER(d)),
            TokenBuilder::TOBEWORD(w) => match PostfixKeyword::from_builder(w) {
                Ok(k) => Ok(Token::KEYWORD(k)),
                Err(e) => Err(e),
            },
        }
    }

    /// Extends this builder with one more name character, exactly as
    /// `spec_consume` says.
    pub fn consume(self, character: NameCharacter) -> (r: Result<TokenBuilder, PostfixError>)
        ensures
            builder_result_view(r) == spec_consume(self@, character),
    {
        match self {
            TokenBuilder::TOBENUMBER(n) => match character {
                NameCharacter::ALPHABET(a) => Err(
                    PostfixError::NumberLiteralFollowedByAlphabetError(n, a),
                ),
                NameCharacter::DIGIT(d) => Ok(
                    TokenBuilder::TOBENUMBER(n.wrapping_mul(10).wrapping_add(d.0 as i32)),
                ),
            },
            TokenBuilder::TOBEWORD(mut tbf) => {
                tbf.tail.push(character);
                Ok(TokenBuilder::TOBEWORD(tbf))
            },
        }
    }
}

/// One more name character extends the builder: a digit extends a number as
/// `value * 10 + digit` (wrapping on overflow), a letter after a number is an
/// error, and any name character extends a word's tail.
pub open spec fn spec_consume(b: BuilderModel, nc: NameCharacter) -> Result<
    BuilderModel,
    ErrorModel,
> {
    match b {
        BuilderModel::Num(n) => match nc {
            NameCharacter::ALPHABET(a) => Err(ErrorModel::NumberLiteralFollowedByAlphabet(n, a)),
            NameCharacter::DIGIT(d) => Ok(
                BuilderModel::Num(n.wrapping_mul(10).wrapping_add(d.0 as i32)),
            ),
        },
        BuilderModel::Word(h, t) => Ok(BuilderModel::Word(h, t.push(nc))),
    }
}

/// A name character with no builder open starts one: a letter starts a word,
/// a digit starts a number.
pub open spec fn spec_start_builder(nc: NameCharacter) -> BuilderModel {
    match nc {
        NameCharacter::ALPHABET(a) => BuilderModel::Word(a.0, Seq::empty()),
        NameCharacter::DIGIT(d) => BuilderModel::Num(d.0 as i32),
    }
}

/// A name character either starts a builder or extends the open one.
pub open spec fn spec_name_step(b: Option<BuilderModel>, nc: NameCharacter) -> Result<
    BuilderModel,
    ErrorModel,
> {
    match b {
        None => Ok(spec_start_builder(nc)),
        Some(bm) => spec_consume(bm, nc),
    }
}

/// Folds one name character into the optional builder, exactly as
/// `spec_name_step` says.
pub fn parse_name_character_to_tobetoken(
    tobetoken_option: Option<TokenBuilder>,
    character: NameCharacter,
) -> (r: Result<TokenBuilder, PostfixError>)
    ensures
        builder_result_view(r) == spec_name_step(opt_builder_view(tobetoken_option), character),
{
    match tobetoken_option {
        None => match character {
            NameCharacter::ALPHABET(alphabet) => Ok(
                TokenBuilder::TOBEWORD(FunctionBuilder { head: alphabet, tail: Vec::new() }),
            ),
            NameCharacter::DIGIT(d) => Ok(TokenBuilder::TOBENUMBER(d.0 as i32)),
        },
        Some(transformable) => transformable.consume(character),
    }
}

/// One lexer step: a name character accumulates into the builder and emits
/// nothing; a breaking character completes the open builder (if any) into one
/// token and then emits a bracket token for `(` or `)` (the space emits
/// nothing).
pub open spec fn spec_lex_step(b: Option<BuilderModel>, ch: Character) -> Result<
    (Option<BuilderModel>, Seq<Token>),
    ErrorModel,
> {
    match ch {
        Character::NAME(nc) => match spec_name_step(b, nc) {
            Ok(b2) => Ok((Some(b2), Seq::empty())),
            Err(e) => Err(e),
        },
        Character::BREAK(bc) => {
            let flushed = match b {
                None => Ok(Seq::<Token>::empty()),
                Some(bm) => match spec_to_token(bm) {
                    Ok(t) => Ok(seq![t]),
                    Err(e) => Err(e),
                },
            };
            match flushed {
                Err(e) => Err(e),
                Ok(ts) => Ok(
                    (
                        None,
                        match bc {
                            BreakingCharacter::LEFT => ts.push(Token::LEFT),
                            BreakingCharacter::RIGHT => ts.push(Token::RIGHT),
                            BreakingCharacter::SPACE => ts,
                        },
                    ),
                ),
            }
        },
    }
}

/// The model of the result of one executable lexer step.
pub open spec fn lex_step_result_view(r: Result<(Option<TokenBuilder>, Vec<Token>), PostfixError>)
    -> Result<(Option<BuilderModel>, Seq<Token>), ErrorModel> {
    match r {
        Ok((b, ts)) => Ok((opt_builder_view(b), ts@)),
        Err(e) => Err(e@),
    }
}

/// Performs one lexer step, exactly as `spec_lex_step` says.
pub fn parse_one_character_with_tobetoken(
    tobetoken: Option<TokenBuilder>,
    character: Character,
) -> (r: Result<(Option<TokenBuilder>, Vec<Token>), PostfixError>)
    ensures
        lex_step_result_view(r) == spec_lex_step(opt_builder_view(tobetoken), character),
{
    match character {
        Character::BREAK(bc) => {
            let mut tokens: Vec<Token> = Vec::new();
            match tobetoken {
                Some(t) => match t.to_token() {
                    Ok(tok) => tokens.push(tok),
                    Err(e) => {
                        return Err(e);
                    },
                },
                None => {},
            }
            match bc {
                BreakingCharacter::LEFT => tokens.push(Token::LEFT),
                BreakingCharacter::RIGHT => tokens.push(Token::RIGHT),
                BreakingCharacter::SPACE => {},
            }
            Ok((None, tokens))
        },
        Character::NAME(nc) => match parse_name_character_to_tobetoken(tobetoken, nc) {
            Ok(b2) => Ok((Some(b2), Vec::new())),
            Err(e) => Err(e),
        },
    }
}

/// The whole lexer fold: classifies and folds the characters left to right,
/// carrying the optional builder and the tokens emitted so far. The first
/// failure aborts the fold. A builder still open at the end of the input is
/// dropped, not flushed.
pub open spec fn spec_lex_fold(
    chars: Seq<char>,
    b: Option<BuilderModel>,
    acc: Seq<Token>,
) -> Result<(Option<BuilderModel>, Seq<Token>), ErrorModel>
    decreases chars.len(),
{
    if chars.len() == 0 {
        Ok((b, acc))
    } else {
        match spec_classify(chars[0]) {
            Err(e) => Err(e),
            Ok(ch) => match spec_lex_step(b, ch) {
                Err(e) => Err(e),
                Ok(r) => spec_lex_fold(chars.subrange(1, chars.len() as int), r.0, acc + r.1),
            },
        }
    }
}

/// The token sequence of a source text: the tokens emitted by the lexer fold
/// started with no builder and no tokens.
pub open spec fn spec_lex(chars: Seq<char>) -> Result<Seq<Token>, ErrorModel> {
    match spec_lex_fold(chars, None, Seq::empty()) {
        Ok(r) => Ok(r.1),
        Err(e) => Err(e),
    }
}

/// Letters fed to an open word builder extend its tail one by one and emit
/// no token.
proof fn lemma_lex_letters(chars: Seq<char>, h: char, t: Seq<NameCharacter>, acc: Seq<Token>)
    requires
        forall|i: int| 0 <= i < chars.len() ==> spec_is_letter(#[trigger] chars[i]),
    ensures
        spec_lex_fold(chars, Some(BuilderModel::Word(h, t)), acc) == Ok::<
            (Option<BuilderModel>, Seq<Token>),
            ErrorModel,
        >((Some(BuilderModel::Word(h, t + spec_letters(chars))), acc)),
    decreases chars.len(),
{
    if chars.len() == 0 {
        assert(t + spec_letters(chars) =~= t);
    } else {
        let c = chars[0];
        assert(spec_classify(c) == Ok::<Character, ErrorModel>(
            Character::NAME(NameCharacter::ALPHABET(Alphabet(c))),
        ));
        let rest = chars.subrange(1, chars.len() as int);
        let t2 = t.push(NameCharacter::ALPHABET(Alphabet(c)));
        lemma_lex_letters(rest, h, t2, acc + Seq::<Token>::empty());
        assert(acc + Seq::<Token>::empty() =~= acc);
        assert(t2 + spec_letters(rest) =~= t + spec_letters(chars));
    }
}

/// Re-lexing the reconstructed word of a resolved keyword reproduces the
/// word builder exactly, and resolving that builder yields the same keyword:
/// the lexer and the keyword resolver agree.
pub proof fn lemma_keyword_round_trip(head: char, tail: Seq<NameCharacter>, k: PostfixKeyword)
    requires
        spec_resolve(head, tail) == Ok::<PostfixKeyword, ErrorModel>(k),
    ensures
        spec_lex_fold(spec_word_chars(head, tail), None, Seq::empty()) == Ok::<
            (Option<BuilderModel>, Seq<Token>),
            ErrorModel,
        >((Some(BuilderModel::Word(head, tail)), Seq::<Token>::empty())),
        spec_to_token(BuilderModel::Word(head, tail)) == Ok::<Token, ErrorModel>(Token::KEYWORD(k)),
{
    assert(spec_is_letter(head) && forall|i: int|
        0 <= i < tail.len() ==> (#[trigger] tail[i]) is ALPHABET && spec_is_letter(
            spec_name_char(tail[i]),
        )) by {
        lemma_resolved_word_is_letters(head, tail);
    }
    let chars = spec_word_chars(head, tail);
    let tc = spec_tail_chars(tail);
    assert(chars[0] == head);
    assert(spec_classify(head) == Ok::<Character, ErrorModel>(
        Character::NAME(NameCharacter::ALPHABET(Alphabet(head))),
    ));
    let rest = chars.subrange(1, chars.len() as int);
    assert(rest =~= tc);
    assert(forall|i: int| 0 <= i < tc.len() ==> spec_is_letter(#[trigger] tc[i]));
    lemma_lex_letters(tc, head, Seq::empty(), Seq::<Token>::empty() + Seq::<Token>::empty());
    assert(Seq::<NameCharacter>::empty() + spec_letters(tc) =~= tail);
    assert(Seq::<Token>::empty() + Seq::<Token>::empty() =~= Seq::<Token>::empty());
}

/// A word that the table resolves consists of letters only: its head and
/// every character of its tail.
proof fn lemma_resolved_word_is_letters(head: char, tail: Seq<NameCharacter>)
    requires
        spec_resolve(head, tail) is Ok,
    ensures
        spec_is_letter(head),
        forall|i: int| 0 <= i < tail.len() ==> (#[trigger] tail[i]) is ALPHABET && spec_is_letter(
            spec_name_char(tail[i]),
        ),
{
    if head == 'e' && spec_tail_is(tail, seq!['q']) {
        assert(seq!['q'][0] == 'q');
    } else if head == 'l' && spec_tail_is(tail, seq!['t']) {
        assert(seq!['t'][0] == 't');
    } else if head == 'g' && spec_tail_is(tail, seq!['t']) {
        assert(seq!['t'][0] == 't');
    } else if head == 'a' && spec_tail_is(tail, seq!['d', 'd']) {
        assert(seq!['d', 'd'][0] == 'd' && seq!['d', 'd'][1] == 'd');
    } else if head == 'd' && spec_tail_is(tail, seq!['i', 'v']) {
        assert(seq!['i', 'v'][0] == 'i' && seq!['i', 'v'][1] == 'v');
    } else if head == 'm' && spec_tail_is(tail, seq!['u', 'l']) {
        assert(seq!['u', 'l'][0] == 'u' && seq!['u', 'l'][1] == 'l');
    } else if head == 'r' && spec_tail_is(tail, seq!['e', 'm']) {
        assert(seq!['e', 'm'][0] == 'e' && seq!['e', 'm'][1] == 'm');
    } else if head == 's' && spec_tail_is(tail, seq!['u', 'b']) {
        assert(seq!['u', 'b'][0] == 'u' && seq!['u', 'b'][1] == 'b');
    } else if head == 'p' && spec_tail_is(tail, seq!['o', 'p']) {
        assert(seq!['o', 'p'][0] == 'o' && seq!['o', 'p'][1] == 'p');
    } else if head == 's' && spec_tail_is(tail, seq!['e', 'l']) {
        assert(seq!['e', 'l'][0] == 'e' && seq!['e', 'l'][1] == 'l');
    } else if head == 'e' && spec_tail_is(tail, seq!['x', 'e', 'c']) {
        assert(seq!['x', 'e', 'c'][0] == 'x' && seq!['x', 'e', 'c'][1] == 'e' && seq![
            'x',
            'e',
            'c',
        ][2] == 'c');
    } else if head == 'n' && spec_tail_is(tail, seq!['g', 'e', 't']) {
        assert(seq!['g', 'e', 't'][0] == 'g' && seq!['g', 'e', 't'][1] == 'e' && seq![
            'g',
            'e',
            't',
        ][2] == 't');
    } else if head == 's' && spec_tail_is(tail, seq!['w', 'a', 'p']) {
        assert(seq!['w', 'a', 'p'][0] == 'w' && seq!['w', 'a', 'p'][1] == 'a' && seq![
            'w',
            'a',
            'p',
        ][2] == 'p');
    } else if head == 'p' && spec_tail_is(tail, seq!['o', 's', 't', 'f', 'i', 'x']) {
        let w = seq!['o', 's', 't', 'f', 'i', 'x'];
        assert(w[0] == 'o' && w[1] == 's' && w[2] == 't' && w[3] == 'f' && w[4] == 'i' && w[5]
            == 'x');
    } else {
        assert(false);
    }
}

/// The model of the tokenizer's result.
pub open spec fn tokens_result_view(r: Result<Vec<Token>, PostfixError>) -> Result<
    Seq<Token>,
    ErrorModel,
> {
    match r {
        Ok(v) => Ok(v@),
        Err(e) => Err(e@),
    }
}

/// Tokenizes a source text, exactly as `spec_lex` says.
pub fn parse_code_to_tokens(code: &str) -> (r: Result<Vec<Token>, PostfixError>)
    ensures
        tokens_result_view(r) == spec_lex(code@),
{
    let ghost chars = code@;
    let mut tokens: Vec<Token> = Vec::new();
    let mut builder: Option<TokenBuilder> = None;
    let n = code.unicode_len();
    proof {
        assert(chars.subrange(0, n as int) =~= chars);
    }
    let mut i: usize = 0;
    while i < n
        invariant
            n == chars.len(),
            i <= n,
            code@ == chars,
            spec_lex_fold(chars, None, Seq::empty()) == spec_lex_fold(
                chars.subrange(i as int, n as int),
                opt_builder_view(builder),
                tokens@,
            ),
        decreases n - i,
    {
        let ghost rest = chars.subrange(i as int, n as int);
        let c = code.get_char(i);
        let character = match c.to_character() {
            Ok(ch) => ch,
            Err(e) => {
                return Err(e);
            },
        };
        let (new_builder, mut new_tokens) = match parse_one_character_with_tobetoken(
            builder,
            character,
        ) {
            Ok(r) => r,
            Err(e) => {
                return Err(e);
            },
        };
        builder = new_builder;
        tokens.append(&mut new_tokens);
        proof {
            assert(rest.subrange(1, rest.len() as int) =~= chars.subrange(i + 1, n as int));
        }
        i += 1;
    }
    proof {
        assert(chars.subrange(n as int, n as int) =~= Seq::<char>::empty());
    }
    Ok(tokens)
}

} // verus!
