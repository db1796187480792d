//! The parser entry point, the evaluator loop, and the compile-and-run
//! pipeline.
//!
//! The evaluator loop is the trampoline: it owns an explicit pending-command
//! list instead of recursing into nested blocks, and is proved to realize
//! the machine `spec_run` of the command module, with the number of loop
//! iterations as the fuel witness.

use vstd::prelude::*;

use crate::enums::BuilderState;
use crate::enums::CommandModel;
use crate::enums::PostfixCommand;
use crate::enums::PostfixFunction;
use crate::enums::PostfixKeyword;
use crate::enums::PostfixProgram;
use crate::enums::ProgramBuilder;
use crate::enums::ProgramModel;
use crate::enums::RunOutcome;
use crate::enums::copy_command;
use crate::enums::deep_seq;
use crate::enums::execute_command;
use crate::enums::lemma_deep_seq_index;
use crate::enums::lemma_deep_seq_push;
use crate::enums::lemma_deep_seq_subrange;
use crate::enums::lemma_run_result;
use crate::enums::lemma_step_decreases_energy;
use crate::enums::spec_energy;
use crate::enums::spec_apply_function;
use crate::enums::spec_build;
use crate::enums::spec_builder_consume;
use crate::enums::spec_final_result;
use crate::enums::spec_halts;
use crate::enums::spec_new_builder;
use crate::enums::spec_run;
use crate::enums::spec_run_result;
use crate::enums::spec_step;
use crate::errors::ErrorModel;
use crate::errors::PostfixError;
use crate::errors::result_view;
use crate::lexer::Token;
use crate::lexer::parse_code_to_tokens;
use crate::lexer::spec_lex;

verus! {

/// The parser fold over the interior tokens: each token is consumed in
/// order, and the first error aborts the fold.
pub open spec fn spec_parse_fold(b: BuilderState, tokens: Seq<Token>) -> Result<
    BuilderState,
    ErrorModel,
>
    decreases tokens.len(),
{
    if tokens.len() == 0 {
        Ok(b)
    } else {
        match spec_builder_consume(b, tokens[0]) {
            Err(e) => Err(e),
            Ok(b2) => spec_parse_fold(b2, tokens.subrange(1, tokens.len() as int)),
        }
    }
}

/// The program of a token sequence. The sequence must be framed as a left
/// bracket, the header keyword, an integer parameter count, interior tokens,
/// and a final right bracket; anything else is a malformed header. The
/// interior tokens are folded into the command tree; a block still open
/// after the fold means the final bracket closed a block instead of the
/// program, so the frame does not match and the sequence is rejected too:
/// the tree of an accepted program mirrors the source bracket nesting
/// exactly.
pub open spec fn spec_parse(tokens: Seq<Token>) -> Result<ProgramModel, ErrorModel> {
    if tokens.len() >= 4 && tokens[0] == Token::LEFT && tokens[1] == Token::KEYWORD(
        PostfixKeyword::HEAD,
    ) && tokens[2] is NUMBER && tokens.last() == Token::RIGHT {
        let n = tokens[2]->NUMBER_0;
        match spec_parse_fold(spec_new_builder(n as usize), tokens.subrange(3, tokens.len() - 1)) {
            Err(e) => Err(e),
            Ok(b) => if b.stack.len() == 0 {
                Ok(spec_build(b))
            } else {
                Err(ErrorModel::MalformedHeader)
            },
        }
    } else {
        Err(ErrorModel::MalformedHeader)
    }
}

/// The model of the parser's result.
pub open spec fn program_result_view(r: Result<PostfixProgram, PostfixError>) -> Result<
    ProgramModel,
    ErrorModel,
> {
    match r {
        Ok(p) => Ok(p@),
        Err(e) => Err(e@),
    }
}

/// Parses a token sequence into a program, exactly as `spec_parse` says.
pub fn parse_tokens_to_program(tokens: Vec<Token>) -> (r: Result<PostfixProgram, PostfixError>)
    ensures
        program_result_view(r) == spec_parse(tokens@),
{
    let n = tokens.len();
    if n < 4 || !(tokens[0] == Token::LEFT) || !(tokens[1] == Token::KEYWORD(PostfixKeyword::HEAD))
        || !(matches!(tokens[2], Token::NUMBER(_))) || !(tokens[n - 1] == Token::RIGHT) {
        return Err(PostfixError::PostfixShouldBeginWithLeftPostfixAndEndWithRight);
    }
    let paramsize = match tokens[2] {
        Token::NUMBER(p) => p,
        _ => 0,
    };
    let mut builder = ProgramBuilder::new(#[verifier::truncate] (paramsize as usize));
    let mut i: usize = 3;
    while i < n - 1
        invariant
            3 <= i <= n - 1,
            n == tokens@.len(),
            n >= 4,
            tokens@[0] == Token::LEFT,
            tokens@[1] == Token::KEYWORD(PostfixKeyword::HEAD),
            tokens@[2] is NUMBER,
            tokens@.last() == Token::RIGHT,
            spec_parse_fold(builder@, tokens@.subrange(i as int, n - 1)) == spec_parse_fold(
                spec_new_builder((tokens@[2]->NUMBER_0) as usize),
                tokens@.subrange(3, n - 1),
            ),
        decreases n - 1 - i,
    {
        let ghost rest = tokens@.subrange(i as int, n - 1);
        let t = tokens[i];
        builder = match builder.consume(t) {
            Ok(b) => b,
            Err(e) => {
                return Err(e);
            },
        };
        proof {
            assert(rest.subrange(1, rest.len() as int) =~= tokens@.subrange(i + 1, n - 1));
        }
        i += 1;
    }
    proof {
        assert(tokens@.subrange(n - 1, n - 1) =~= Seq::<Token>::empty());
    }
    if builder.stack.len() > 0 {
        return Err(PostfixError::PostfixShouldBeginWithLeftPostfixAndEndWithRight);
    }
    Ok(builder.build())
}

/// The initial operand stack: the arguments pushed in reverse, so that the
/// first argument ends up on top.
pub open spec fn spec_init_stack(args: Seq<i32>) -> Seq<CommandModel> {
    args.reverse().map_values(|n: i32| CommandModel::Int(n))
}

/// A structural copy of a vector of integers.
fn copy_ints(v: &Vec<i32>) -> (r: Vec<i32>)
    ensures
        r@ == v@,
{
    let mut out: Vec<i32> = Vec::new();
    let mut i: usize = 0;
    while i < v.len()
        invariant
            i <= v.len(),
            out@ == v@.subrange(0, i as int),
        decreases v.len() - i,
    {
        out.push(v[i]);
        proof {
            assert(v@.subrange(0, i + 1) =~= v@.subrange(0, i as int).push(v@[i as int]));
        }
        i += 1;
    }
    proof {
        assert(v@.subrange(0, v@.len() as int) =~= v@);
    }
    out
}

/// Runs a program against its arguments. An argument count different from
/// the declared parameter count is rejected before anything runs; otherwise
/// the trampoline realizes the machine: it halts exactly when the machine
/// halts, with the machine's one result.
fn execute_program(program: &PostfixProgram, arguments: &Vec<i32>) -> (r: Result<i32, PostfixError>)
    ensures
        arguments@.len() != program.paramsize as usize ==> (r matches Err(e) && e@ == (
        ErrorModel::WrongNumberOfArguments {
            expected: program.paramsize as usize,
            actual: arguments@,
        })),
        arguments@.len() == program.paramsize as usize ==> spec_halts(
            program@.commands.reverse(),
            spec_init_stack(arguments@),
        ) && result_view(r) == spec_run_result(
            program@.commands.reverse(),
            spec_init_stack(arguments@),
        ),
{
    if arguments.len() != program.paramsize as usize {
        return Err(
            PostfixError::WrongNumberOfArguments {
                expected: program.paramsize as usize,
                actual: copy_ints(arguments),
            },
        );
    }
    let ghost init_stack = spec_init_stack(arguments@);
    let ghost prog_cmds = deep_seq(program.commands@);
    let ghost init_pending = prog_cmds.reverse();

    let mut stack: Vec<PostfixCommand> = Vec::new();
    let arg_count = arguments.len();
    let mut i: usize = arg_count;
    proof {
        assert(init_stack.len() == arguments@.len());
        assert(deep_seq(stack@) =~= init_stack.take(0));
    }
    while i > 0
        invariant
            i <= arg_count,
            arg_count == arguments@.len(),
            init_stack == spec_init_stack(arguments@),
            init_stack.len() == arg_count,
            deep_seq(stack@) == init_stack.take(arg_count - i),
        decreases i,
    {
        i -= 1;
        let pushed = PostfixCommand::INTEGER(arguments[i]);
        let ghost sv = stack@;
        stack.push(pushed);
        proof {
            lemma_deep_seq_push(sv, pushed);
            assert(init_stack.take(arg_count - i) =~= init_stack.take(
                arg_count - (i + 1),
            ).push(CommandModel::Int(arguments@[i as int])));
        }
    }
    proof {
        assert(init_stack.take(init_stack.len() as int) =~= init_stack);
    }

    let mut commands: Vec<PostfixCommand> = Vec::new();
    let m = program.commands.len();
    proof {
        lemma_deep_seq_index(program.commands@);
        assert(deep_seq(commands@) =~= init_pending.take(0));
    }
    let mut k: usize = 0;
    while k < m
        invariant
            k <= m,
            m == program.commands@.len(),
            prog_cmds == deep_seq(program.commands@),
            init_pending == prog_cmds.reverse(),
            prog_cmds.len() == m,
            deep_seq(commands@) == init_pending.take(k as int),
        decreases m - k,
    {
        let copied = copy_command(&program.commands[m - 1 - k]);
        let ghost cv = commands@;
        commands.push(copied);
        proof {
            lemma_deep_seq_index(program.commands@);
            lemma_deep_seq_push(cv, copied);
            assert(init_pending.take(k + 1) =~= init_pending.take(k as int).push(
                prog_cmds[m - 1 - k],
            ));
        }
        k += 1;
    }
    proof {
        assert(init_pending.take(m as int) =~= init_pending);
    }

    let ghost mut steps: nat = 0;
    while commands.len() > 0
        invariant
            arguments@.len() == program.paramsize as usize,
            init_stack == spec_init_stack(arguments@),
            init_pending == deep_seq(program.commands@).reverse(),
            forall|f: nat| #[trigger] spec_run(deep_seq(commands@), deep_seq(stack@), f)
                == spec_run(init_pending, init_stack, f + steps),
        decreases spec_energy(deep_seq(commands@), deep_seq(stack@)),
    {
        let ghost v0 = commands@;
        let ghost p0 = deep_seq(commands@);
        let ghost s0 = deep_seq(stack@);
        proof {
            lemma_deep_seq_index(v0);
        }
        let cmd = commands.pop().unwrap();
        proof {
            lemma_deep_seq_subrange(v0, 0, v0.len() - 1);
            assert(deep_seq(commands@) == deep_seq(v0).subrange(0, v0.len() - 1));
            assert(deep_seq(commands@) =~= p0.drop_last());
            assert(cmd.deep() == p0.last());
        }
        match execute_command(&cmd, &mut commands, &mut stack) {
            Ok(u) => {
                proof {
                    let p1 = deep_seq(commands@);
                    let s1 = deep_seq(stack@);
                    assert(spec_step(p0, s0) == Ok::<_, ErrorModel>((p1, s1)));
                    lemma_step_decreases_energy(p0, s0);
                    assert forall|f: nat| #[trigger] spec_run(p1, s1, f) == spec_run(
                        init_pending,
                        init_stack,
                        f + (steps + 1),
                    ) by {
                        assert(spec_run(p0, s0, f + 1) == spec_run(
                            init_pending,
                            init_stack,
                            (f + 1) + steps,
                        ));
                        assert(spec_run(p0, s0, f + 1) == spec_run(p1, s1, f));
                    }
                    steps = steps + 1;
                }
            },
            Err(e) => {
                proof {
                    assert(spec_step(p0, s0) == Err::<(Seq<CommandModel>, Seq<CommandModel>), _>(
                        e@,
                    ));
                    assert(spec_run(p0, s0, 1) == RunOutcome::Finished(Err(e@)));
                    assert(spec_run(init_pending, init_stack, 1 + steps) == RunOutcome::Finished(
                        Err(e@),
                    ));
                    lemma_run_result(init_pending, init_stack, 1 + steps);
                }
                return Err(e);
            },
        }
    }
    proof {
        assert(spec_run(deep_seq(commands@), deep_seq(stack@), 0) == spec_run(
            init_pending,
            init_stack,
            steps,
        ));
        assert(deep_seq(commands@).len() == 0) by {
            lemma_deep_seq_index(commands@);
        }
        assert(spec_run(init_pending, init_stack, steps) == RunOutcome::Finished(
            spec_final_result(deep_seq(stack@)),
        ));
        lemma_run_result(init_pending, init_stack, steps);
        lemma_deep_seq_index(stack@);
    }
    let sn = stack.len();
    if sn == 0 {
        return Err(PostfixError::EmptyStackFinalState);
    }
    match &stack[sn - 1] {
        PostfixCommand::INTEGER(v) => Ok(*v),
        c => Err(PostfixError::NonNumeralFinalState { command: copy_command(c) }),
    }
}

/// The one result the pipeline allows for a source text and an argument
/// list: the first lexical error, else the first parse error, else the
/// arity error when the argument count differs from the declared parameter
/// count, else the machine's one result. This relation is a function of its
/// inputs, which is the pipeline's determinism.
pub open spec fn spec_compile_and_run(
    chars: Seq<char>,
    args: Seq<i32>,
    r: Result<i32, ErrorModel>,
) -> bool {
    match spec_lex(chars) {
        Err(e) => r == Err::<i32, ErrorModel>(e),
        Ok(tokens) => match spec_parse(tokens) {
            Err(e) => r == Err::<i32, ErrorModel>(e),
            Ok(prog) => if args.len() != prog.paramsize as usize {
                r == Err::<i32, ErrorModel>(
                    ErrorModel::WrongNumberOfArguments {
                        expected: prog.paramsize as usize,
                        actual: args,
                    },
                )
            } else {
                spec_halts(prog.commands.reverse(), spec_init_stack(args)) && r == spec_run_result(
                    prog.commands.reverse(),
                    spec_init_stack(args),
                )
            },
        },
    }
}

/// Compiles and runs a source text with the given arguments: lexing,
/// parsing and evaluation in sequence, each stage's first error surfaced
/// unchanged.
pub fn compile_and_run(code: &str, arguments: &Vec<i32>) -> (r: Result<i32, PostfixError>)
    ensures
        spec_compile_and_run(code@, arguments@, result_view(r)),
{
    let tokens = match parse_code_to_tokens(code) {
        Ok(t) => t,
        Err(e) => {
            return Err(e);
        },
    };
    let program = match parse_tokens_to_program(tokens) {
        Ok(p) => p,
        Err(e) => {
            return Err(e);
        },
    };
    let output = match execute_program(&program, arguments) {
        Ok(n) => n,
        Err(e) => {
            return Err(e);
        },
    };
    Ok(output)
}

/// The outcome of the reference recursive evaluator.
pub enum RecOutcome {
    OutOfDepth,
    Failed(ErrorModel),
    Finished(Seq<CommandModel>),
}

/// The reference recursive evaluator: commands run left to right against
/// the operand stack, and a block popped by `exec` is evaluated by direct
/// recursion into its commands. `depth` bounds the recursion through
/// `exec`; the trampoline needs no such bound.
pub open spec fn spec_eval_rec(
    cmds: Seq<CommandModel>,
    stack: Seq<CommandModel>,
    depth: nat,
) -> RecOutcome
    decreases depth, cmds.len(),
{
    if cmds.len() == 0 {
        RecOutcome::Finished(stack)
    } else {
        let c = cmds[0];
        let rest = cmds.subrange(1, cmds.len() as int);
        match c {
            CommandModel::Fun(PostfixFunction::EXEC) => {
                if stack.len() < 1 {
                    RecOutcome::Failed(
                        ErrorModel::WrongNumberOfFunctionArguments {
                            function: PostfixFunction::EXEC,
                            expected: 1,
                        },
                    )
                } else {
                    match stack.last() {
                        CommandModel::Block(body) => {
                            if depth == 0 {
                                RecOutcome::OutOfDepth
                            } else {
                                match spec_eval_rec(body, stack.drop_last(), (depth - 1) as nat) {
                                    RecOutcome::Finished(s2) => spec_eval_rec(rest, s2, depth),
                                    other => other,
                                }
                            }
                        },
                        _ => RecOutcome::Failed(
                            ErrorModel::WrongTypeOfFunctionArguments {
                                function: PostfixFunction::EXEC,
                            },
                        ),
                    }
                }
            },
            CommandModel::Fun(f) => {
                match spec_apply_function(f, Seq::empty(), stack) {
                    Ok(ps) => spec_eval_rec(rest, ps.1, depth),
                    Err(e) => RecOutcome::Failed(e),
                }
            },
            _ => spec_eval_rec(rest, stack.push(c), depth),
        }
    }
}

/// The machine state after at most `n` steps: stepping stops at an empty
/// pending list, and the first error absorbs the rest of the budget.
pub enum StepsOutcome {
    Running(Seq<CommandModel>, Seq<CommandModel>),
    Failed(ErrorModel),
}

/// Takes at most `n` machine steps.
pub open spec fn spec_steps(
    pending: Seq<CommandModel>,
    stack: Seq<CommandModel>,
    n: nat,
) -> StepsOutcome
    decreases n,
{
    if n == 0 || pending.len() == 0 {
        StepsOutcome::Running(pending, stack)
    } else {
        match spec_step(pending, stack) {
            Err(e) => StepsOutcome::Failed(e),
            Ok(ps) => spec_steps(ps.0, ps.1, (n - 1) as nat),
        }
    }
}

/// Step budgets compose: running `n1` steps and then `n2` more is running
/// `n1 + n2` steps.
pub proof fn lemma_steps_add(
    pending: Seq<CommandModel>,
    stack: Seq<CommandModel>,
    n1: nat,
    n2: nat,
)
    ensures
        ({
            match spec_steps(pending, stack, n1) {
                StepsOutcome::Running(p, s) => spec_steps(pending, stack, n1 + n2) == spec_steps(
                    p,
                    s,
                    n2,
                ),
                StepsOutcome::Failed(e) => spec_steps(pending, stack, n1 + n2)
                    == StepsOutcome::Failed(e),
            }
        }),
    decreases n1,
{
    if n1 == 0 {
    } else if pending.len() == 0 {
    } else {
        match spec_step(pending, stack) {
            Err(e) => {},
            Ok(ps) => {
                lemma_steps_add(ps.0, ps.1, (n1 - 1) as nat, n2);
            },
        }
    }
}

/// A non-`exec` built-in neither reads nor changes the pending list: its
/// effect on the stack, and its error, are the same below any pending list.
proof fn lemma_apply_function_pending(
    f: PostfixFunction,
    p1: Seq<CommandModel>,
    p2: Seq<CommandModel>,
    stack: Seq<CommandModel>,
)
    requires
        f != PostfixFunction::EXEC,
    ensures
        ({
            match (spec_apply_function(f, p1, stack), spec_apply_function(f, p2, stack)) {
                (Ok(a), Ok(b)) => a.0 == p1 && b.0 == p2 && a.1 == b.1,
                (Err(e1), Err(e2)) => e1 == e2,
                _ => false,
            }
        }),
{
}

/// The reference recursive evaluator is realized by the machine: whatever
/// it produces for some commands, the machine reaches from those commands
/// reversed onto any pending list below them, leaving that list untouched.
proof fn lemma_rec_realized_by_machine(
    cmds: Seq<CommandModel>,
    stack: Seq<CommandModel>,
    depth: nat,
    front: Seq<CommandModel>,
)
    ensures
        ({
            match spec_eval_rec(cmds, stack, depth) {
                RecOutcome::Finished(s2) => exists|n: nat|
                    spec_steps(front + cmds.reverse(), stack, n) == StepsOutcome::Running(
                        front,
                        s2,
                    ),
                RecOutcome::Failed(e) => exists|n: nat|
                    spec_steps(front + cmds.reverse(), stack, n) == StepsOutcome::Failed(e),
                RecOutcome::OutOfDepth => true,
            }
        }),
    decreases depth, cmds.len(),
{
    if cmds.len() == 0 {
        assert(front + cmds.reverse() =~= front);
        assert(spec_steps(front + cmds.reverse(), stack, 0) == StepsOutcome::Running(front, stack));
    } else {
        let c = cmds[0];
        let rest = cmds.subrange(1, cmds.len() as int);
        let start = front + cmds.reverse();
        assert(start.len() > 0);
        assert(start.last() == c);
        assert(start.drop_last() =~= front + rest.reverse());
        match c {
            CommandModel::Fun(PostfixFunction::EXEC) => {
                if stack.len() < 1 {
                    let e = ErrorModel::WrongNumberOfFunctionArguments {
                        function: PostfixFunction::EXEC,
                        expected: 1,
                    };
                    assert(spec_steps(start, stack, 1) == StepsOutcome::Failed(e));
                } else {
                    match stack.last() {
                        CommandModel::Block(body) => {
                            if depth > 0 {
                                let below = front + rest.reverse();
                                assert(spec_step(start, stack) == Ok::<_, ErrorModel>(
                                    (below + body.reverse(), stack.drop_last()),
                                ));
                                lemma_rec_realized_by_machine(
                                    body,
                                    stack.drop_last(),
                                    (depth - 1) as nat,
                                    below,
                                );
                                match spec_eval_rec(body, stack.drop_last(), (depth - 1) as nat) {
                                    RecOutcome::Finished(s_mid) => {
                                        let n1 = choose|n: nat|
                                            spec_steps(below + body.reverse(), stack.drop_last(), n)
                                                == StepsOutcome::Running(below, s_mid);
                                        lemma_rec_realized_by_machine(rest, s_mid, depth, front);
                                        match spec_eval_rec(rest, s_mid, depth) {
                                            RecOutcome::Finished(s2) => {
                                                let n2 = choose|n: nat|
                                                    spec_steps(below, s_mid, n)
                                                        == StepsOutcome::Running(front, s2);
                                                lemma_steps_add(
                                                    below + body.reverse(),
                                                    stack.drop_last(),
                                                    n1,
                                                    n2,
                                                );
                                                assert(spec_steps(start, stack, 1 + (n1 + n2))
                                                    == StepsOutcome::Running(front, s2));
                                            },
                                            RecOutcome::Failed(e) => {
                                                let n2 = choose|n: nat|
                                                    spec_steps(below, s_mid, n)
                                                        == StepsOutcome::Failed(e);
                                                lemma_steps_add(
                                                    below + body.reverse(),
                                                    stack.drop_last(),
                                                    n1,
                                                    n2,
                                                );
                                                assert(spec_steps(start, stack, 1 + (n1 + n2))
                                                    == StepsOutcome::Failed(e));
                                            },
                                            RecOutcome::OutOfDepth => {},
                                        }
                                    },
                                    RecOutcome::Failed(e) => {
                                        let n1 = choose|n: nat|
                                            spec_steps(below + body.reverse(), stack.drop_last(), n)
                                                == StepsOutcome::Failed(e);
                                        assert(spec_steps(start, stack, 1 + n1)
                                            == StepsOutcome::Failed(e));
                                    },
                                    RecOutcome::OutOfDepth => {},
                                }
                            }
                        },
                        _ => {
                            let e = ErrorModel::WrongTypeOfFunctionArguments {
                                function: PostfixFunction::EXEC,
                            };
                            assert(spec_steps(start, stack, 1) == StepsOutcome::Failed(e));
                        },
                    }
                }
            },
            CommandModel::Fun(f) => {
                lemma_apply_function_pending(f, front + rest.reverse(), Seq::empty(), stack);
                match spec_apply_function(f, Seq::empty(), stack) {
                    Ok(ps) => {
                        assert(spec_step(start, stack) == Ok::<_, ErrorModel>(
                            (front + rest.reverse(), ps.1),
                        ));
                        lemma_rec_realized_by_machine(rest, ps.1, depth, front);
                        match spec_eval_rec(rest, ps.1, depth) {
                            RecOutcome::Finished(s2) => {
                                let n2 = choose|n: nat|
                                    spec_steps(front + rest.reverse(), ps.1, n)
                                        == StepsOutcome::Running(front, s2);
                                assert(spec_steps(start, stack, 1 + n2) == StepsOutcome::Running(
                                    front,
                                    s2,
                                ));
                            },
                            RecOutcome::Failed(e) => {
                                let n2 = choose|n: nat|
                                    spec_steps(front + rest.reverse(), ps.1, n)
                                        == StepsOutcome::Failed(e);
                                assert(spec_steps(start, stack, 1 + n2) == StepsOutcome::Failed(
                                    e,
                                ));
                            },
                            RecOutcome::OutOfDepth => {},
                        }
                    },
                    Err(e) => {
                        assert(spec_steps(start, stack, 1) == StepsOutcome::Failed(e));
                    },
                }
            },
            _ => {
                assert(spec_step(start, stack) == Ok::<_, ErrorModel>(
                    (front + rest.reverse(), stack.push(c)),
                ));
                lemma_rec_realized_by_machine(rest, stack.push(c), depth, front);
                match spec_eval_rec(rest, stack.push(c), depth) {
                    RecOutcome::Finished(s2) => {
                        let n2 = choose|n: nat|
                            spec_steps(front + rest.reverse(), stack.push(c), n)
                                == StepsOutcome::Running(front, s2);
                        assert(spec_steps(start, stack, 1 + n2) == StepsOutcome::Running(
                            front,
                            s2,
                        ));
                    },
                    RecOutcome::Failed(e) => {
                        let n2 = choose|n: nat|
                            spec_steps(front + rest.reverse(), stack.push(c), n)
                                == StepsOutcome::Failed(e);
                        assert(spec_steps(start, stack, 1 + n2) == StepsOutcome::Failed(e));
                    },
                    RecOutcome::OutOfDepth => {},
                }
            },
        }
    }
}

/// Stopped at an empty pending list, the machine's run yields the final
/// result of the stack it stopped with; a step error yields that error.
proof fn lemma_steps_to_run(pending: Seq<CommandModel>, stack: Seq<CommandModel>, n: nat)
    ensures
        ({
            match spec_steps(pending, stack, n) {
                StepsOutcome::Running(p2, s2) => p2.len() == 0 ==> spec_run(pending, stack, n)
                    == RunOutcome::Finished(spec_final_result(s2)),
                StepsOutcome::Failed(e) => spec_run(pending, stack, n) == RunOutcome::Finished(
                    Err(e),
                ),
            }
        }),
    decreases n,
{
    if n == 0 {
    } else if pending.len() == 0 {
    } else {
        match spec_step(pending, stack) {
            Err(e) => {},
            Ok(ps) => {
                lemma_steps_to_run(ps.0, ps.1, (n - 1) as nat);
            },
        }
    }
}

/// The trampoline agrees with the reference recursive evaluator: whenever
/// the recursive evaluator completes under some recursion depth, the
/// machine halts on the reversed commands with the same outcome — the final
/// result of the same stack, or the same error. Together with
/// `lemma_machine_halts` this covers arbitrarily deep nesting of blocks.
pub proof fn lemma_reference_evaluator_agrees(
    cmds: Seq<CommandModel>,
    stack: Seq<CommandModel>,
    depth: nat,
)
    ensures
        ({
            match spec_eval_rec(cmds, stack, depth) {
                RecOutcome::Finished(s2) => spec_halts(cmds.reverse(), stack) && spec_run_result(
                    cmds.reverse(),
                    stack,
                ) == spec_final_result(s2),
                RecOutcome::Failed(e) => spec_halts(cmds.reverse(), stack) && spec_run_result(
                    cmds.reverse(),
                    stack,
                ) == Err::<i32, ErrorModel>(e),
                RecOutcome::OutOfDepth => true,
            }
        }),
{
    lemma_rec_realized_by_machine(cmds, stack, depth, Seq::empty());
    assert(Seq::<CommandModel>::empty() + cmds.reverse() =~= cmds.reverse());
    match spec_eval_rec(cmds, stack, depth) {
        RecOutcome::Finished(s2) => {
            let n = choose|n: nat|
                spec_steps(Seq::<CommandModel>::empty() + cmds.reverse(), stack, n)
                    == StepsOutcome::Running(Seq::<CommandModel>::empty(), s2);
            lemma_steps_to_run(cmds.reverse(), stack, n);
            lemma_run_result(cmds.reverse(), stack, n);
        },
        RecOutcome::Failed(e) => {
            let n = choose|n: nat|
                spec_steps(Seq::<CommandModel>::empty() + cmds.reverse(), stack, n)
                    == StepsOutcome::Failed(e);
            lemma_steps_to_run(cmds.reverse(), stack, n);
            lemma_run_result(cmds.reverse(), stack, n);
        },
        RecOutcome::OutOfDepth => {},
    }
}

/// Determinism of the pipeline: its contract pins one result for each
/// source text and argument list, so any two results that satisfy it are
/// equal.
pub proof fn lemma_compile_and_run_deterministic(
    chars: Seq<char>,
    args: Seq<i32>,
    r1: Result<i32, ErrorModel>,
    r2: Result<i32, ErrorModel>,
)
    requires
        spec_compile_and_run(chars, args, r1),
        spec_compile_and_run(chars, args, r2),
    ensures
        r1 == r2,
{
}

} // verus!

