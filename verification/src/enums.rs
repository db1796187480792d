//! Keywords, commands, the command-tree model, the program builder, and the
//! stack-machine evaluator's single step.
//!
//! The evaluator is specified as a small-step machine over sequences of
//! command models: `spec_step` consumes the last pending command, and
//! `spec_run` iterates it under a fuel bound. Every executable function is
//! proved to follow the machine exactly.

use vstd::prelude::*;

use crate::errors::ErrorModel;
use crate::errors::PostfixError;
use crate::lexer::Token;

verus! {

/// An arithmetic-shaped built-in: it pops two integers and pushes one.
#[derive(Debug, Copy, Clone, PartialEq, Eq, Structural)]
pub enum PostfixArithmetic {
    ADD,
    DIV,
    EQ,
    GT,
    LT,
    MUL,
    SUB,
    REM,
}

/// A built-in function of the language.
#[derive(Debug, Copy, Clone, PartialEq, Eq, Structural)]
pub enum PostfixFunction {
    ARITHMETIC(PostfixArithmetic),
    EXEC,
    NGET,
    POP,
    SEL,
    SWAP,
}

/// A resolved keyword: either a built-in function or the program header marker.
#[derive(Debug, Copy, Clone, PartialEq, Eq, Structural)]
pub enum PostfixKeyword {
    FUNCTION(PostfixFunction),
    HEAD,
}

/// One executable unit of a parsed program: an integer constant, a built-in
/// function reference, or a nested executable block.
#[derive(Debug, PartialEq)]
pub enum PostfixCommand {
    INTEGER(i32),
    SPECIAL(PostfixFunction),
    EXECUTE(Vec<PostfixCommand>),
}

/// The mathematical model of a command: the same tree with ghost sequences
/// in place of vectors. All contracts of the parser and the evaluator speak
/// of this type.
pub enum CommandModel {
    Int(i32),
    Fun(PostfixFunction),
    Block(Seq<CommandModel>),
}

impl PostfixCommand {
    /// The model of this command tree.
    pub open spec fn deep(self) -> CommandModel
        decreases self,
    {
        match self {
            PostfixCommand::INTEGER(n) => CommandModel::Int(n),
            PostfixCommand::SPECIAL(f) => CommandModel::Fun(f),
            PostfixCommand::EXECUTE(cmds) => CommandModel::Block(deep_seq(cmds@)),
        }
    }
}

impl View for PostfixCommand {
    type V = CommandModel;

    open spec fn view(&self) -> CommandModel {
        self.deep()
    }
}

/// The models of a whole sequence of commands, elementwise.
pub open spec fn deep_seq(s: Seq<PostfixCommand>) -> Seq<CommandModel>
    decreases s,
{
    if s.len() == 0 {
        Seq::empty()
    } else {
        deep_seq(s.subrange(0, s.len() - 1)).push(s[s.len() - 1].deep())
    }
}

/// `deep_seq` maps each command of a sequence to its model.
pub proof fn lemma_deep_seq_index(s: Seq<PostfixCommand>)
    ensures
        deep_seq(s).len() == s.len(),
        forall|i: int| 0 <= i < s.len() ==> #[trigger] deep_seq(s)[i] == s[i].deep(),
    decreases s.len(),
{
    if s.len() > 0 {
        lemma_deep_seq_index(s.subrange(0, s.len() - 1));
    }
}

/// Appending one command appends its model.
pub proof fn lemma_deep_seq_push(s: Seq<PostfixCommand>, c: PostfixCommand)
    ensures
        deep_seq(s.push(c)) == deep_seq(s).push(c.deep()),
{
    assert(s.push(c).subrange(0, s.push(c).len() - 1) =~= s);
}

/// Taking a subrange of a sequence takes the same subrange of its models.
pub proof fn lemma_deep_seq_subrange(s: Seq<PostfixCommand>, i: int, j: int)
    requires
        0 <= i <= j <= s.len(),
    ensures
        deep_seq(s.subrange(i, j)) == deep_seq(s).subrange(i, j),
{
    lemma_deep_seq_index(s);
    lemma_deep_seq_index(s.subrange(i, j));
    assert(deep_seq(s.subrange(i, j)) =~= deep_seq(s).subrange(i, j));
}

/// The wrapped result of one arithmetic built-in on two integer operands.
/// Addition, subtraction and multiplication wrap around on overflow;
/// division and remainder truncate toward zero, with the one overflowing
/// pair (the smallest integer divided by minus one) wrapping as well; the
/// relational operators yield 1 for true and 0 for false.
pub open spec fn spec_arith(op: PostfixArithmetic, pre: i32, post: i32) -> i32
    recommends
        (op == PostfixArithmetic::DIV || op == PostfixArithmetic::REM) ==> post != 0,
{
    match op {
        PostfixArithmetic::ADD => pre.wrapping_add(post),
        PostfixArithmetic::SUB => pre.wrapping_sub(post),
        PostfixArithmetic::MUL => pre.wrapping_mul(post),
        PostfixArithmetic::DIV => match pre.checked_div(post) {
            Some(q) => q,
            None => i32::MIN,
        },
        PostfixArithmetic::REM => match pre.checked_rem(post) {
            Some(m) => m,
            None => 0,
        },
        PostfixArithmetic::EQ => if pre == post {
            1
        } else {
            0
        },
        PostfixArithmetic::GT => if pre > post {
            1
        } else {
            0
        },
        PostfixArithmetic::LT => if pre < post {
            1
        } else {
            0
        },
    }
}

/// What one built-in does to the machine: the pending command list and the
/// operand stack, both with their last element as the top. Exactly the
/// errors of the error taxonomy come out, each on the inputs it names.
pub open spec fn spec_apply_function(
    f: PostfixFunction,
    pending: Seq<CommandModel>,
    stack: Seq<CommandModel>,
) -> Result<(Seq<CommandModel>, Seq<CommandModel>), ErrorModel> {
    match f {
        PostfixFunction::ARITHMETIC(op) => {
            if stack.len() < 2 {
                Err(ErrorModel::WrongNumberOfFunctionArguments { function: f, expected: 2 })
            } else {
                match (stack[stack.len() - 2], stack[stack.len() - 1]) {
                    (CommandModel::Int(a), CommandModel::Int(b)) => {
                        if (op == PostfixArithmetic::DIV || op == PostfixArithmetic::REM) && b
                            == 0 {
                            Err(ErrorModel::DivideByZero)
                        } else {
                            Ok(
                                (
                                    pending,
                                    stack.subrange(0, stack.len() - 2).push(
                                        CommandModel::Int(spec_arith(op, a, b)),
                                    ),
                                ),
                            )
                        }
                    },
                    _ => Err(ErrorModel::WrongTypeOfFunctionArguments { function: f }),
                }
            }
        },
        PostfixFunction::EXEC => {
            if stack.len() < 1 {
                Err(ErrorModel::WrongNumberOfFunctionArguments { function: f, expected: 1 })
            } else {
                match stack.last() {
                    CommandModel::Block(cmds) => Ok((pending + cmds.reverse(), stack.drop_last())),
                    _ => Err(ErrorModel::WrongTypeOfFunctionArguments { function: f }),
                }
            }
        },
        PostfixFunction::NGET => {
            if stack.len() < 1 {
                Err(ErrorModel::WrongNumberOfFunctionArguments { function: f, expected: 1 })
            } else {
                match stack.last() {
                    CommandModel::Int(n) => {
                        let rest = stack.drop_last();
                        if n < 1 || (rest.len() as int) < (n as int) {
                            Err(
                                ErrorModel::IndexOutOfRange {
                                    index: n,
                                    min: 1,
                                    max: rest.len() as usize,
                                },
                            )
                        } else {
                            match rest[rest.len() - n] {
                                CommandModel::Int(v) => Ok((pending, rest.push(CommandModel::Int(v)))),
                                c => Err(ErrorModel::InvalidValueByNget { command: c }),
                            }
                        }
                    },
                    _ => Err(ErrorModel::WrongTypeOfFunctionArguments { function: f }),
                }
            }
        },
        PostfixFunction::POP => {
            if stack.len() < 1 {
                Err(ErrorModel::WrongNumberOfFunctionArguments { function: f, expected: 1 })
            } else {
                Ok((pending, stack.drop_last()))
            }
        },
        PostfixFunction::SEL => {
            if stack.len() < 3 {
                Err(ErrorModel::WrongNumberOfFunctionArguments { function: f, expected: 3 })
            } else {
                match stack[stack.len() - 3] {
                    CommandModel::Int(cond) => Ok(
                        (
                            pending,
                            stack.subrange(0, stack.len() - 3).push(
                                if cond == 0 {
                                    stack[stack.len() - 1]
                                } else {
                                    stack[stack.len() - 2]
                                },
                            ),
                        ),
                    ),
                    _ => Err(ErrorModel::WrongTypeOfFunctionArguments { function: f }),
                }
            }
        },
        PostfixFunction::SWAP => {
            if stack.len() < 2 {
                Err(ErrorModel::WrongNumberOfFunctionArguments { function: f, expected: 2 })
            } else {
                Ok(
                    (
                        pending,
                        stack.subrange(0, stack.len() - 2).push(stack[stack.len() - 1]).push(
                            stack[stack.len() - 2],
                        ),
                    ),
                )
            }
        },
    }
}

/// What one command does to the machine: an integer constant or a block is
/// pushed onto the operand stack; a function reference dispatches to its
/// built-in.
pub open spec fn spec_execute_command(
    cmd: CommandModel,
    pending: Seq<CommandModel>,
    stack: Seq<CommandModel>,
) -> Result<(Seq<CommandModel>, Seq<CommandModel>), ErrorModel> {
    match cmd {
        CommandModel::Fun(f) => spec_apply_function(f, pending, stack),
        _ => Ok((pending, stack.push(cmd))),
    }
}

/// One machine step: the last pending command is consumed and executed.
pub open spec fn spec_step(pending: Seq<CommandModel>, stack: Seq<CommandModel>) -> Result<
    (Seq<CommandModel>, Seq<CommandModel>),
    ErrorModel,
>
    recommends
        pending.len() > 0,
{
    spec_execute_command(pending.last(), pending.drop_last(), stack)
}

/// The final result once the pending list is empty: the top of the operand
/// stack if it is an integer constant, an error otherwise.
pub open spec fn spec_final_result(stack: Seq<CommandModel>) -> Result<i32, ErrorModel> {
    if stack.len() == 0 {
        Err(ErrorModel::EmptyStackFinalState)
    } else {
        match stack.last() {
            CommandModel::Int(n) => Ok(n),
            c => Err(ErrorModel::NonNumeralFinalState { command: c }),
        }
    }
}

/// The outcome of running the machine under a fuel bound.
pub enum RunOutcome {
    OutOfFuel,
    Finished(Result<i32, ErrorModel>),
}

/// Runs the machine for at most `fuel` steps: stepping until the pending
/// list is empty yields the final result, and the first step error aborts
/// the run with that error.
pub open spec fn spec_run(
    pending: Seq<CommandModel>,
    stack: Seq<CommandModel>,
    fuel: nat,
) -> RunOutcome
    decreases fuel,
{
    if pending.len() == 0 {
        RunOutcome::Finished(spec_final_result(stack))
    } else if fuel == 0 {
        RunOutcome::OutOfFuel
    } else {
        match spec_step(pending, stack) {
            Err(e) => RunOutcome::Finished(Err(e)),
            Ok(ps) => spec_run(ps.0, ps.1, (fuel - 1) as nat),
        }
    }
}

/// The machine halts on this state: some fuel suffices to finish.
pub open spec fn spec_halts(pending: Seq<CommandModel>, stack: Seq<CommandModel>) -> bool {
    exists|fuel: nat| spec_run(pending, stack, fuel) is Finished
}

/// The result of a halting run. By `lemma_run_monotonic` every finishing
/// fuel yields this same result.
pub open spec fn spec_run_result(pending: Seq<CommandModel>, stack: Seq<CommandModel>) -> Result<
    i32,
    ErrorModel,
>
    recommends
        spec_halts(pending, stack),
{
    spec_run(
        pending,
        stack,
        choose|fuel: nat| spec_run(pending, stack, fuel) is Finished,
    )->Finished_0
}

/// The weight of one command: its size, with each element of a block also
/// paying the cost of being executed once. Only integers are ever copied by
/// a step, so total weight can never grow.
pub open spec fn cmd_weight(c: CommandModel) -> nat
    decreases c,
{
    match c {
        CommandModel::Int(n) => 1,
        CommandModel::Fun(f) => 1,
        CommandModel::Block(cs) => 1 + pending_cost(cs),
    }
}

/// The cost of a pending command list: each command's weight plus one for
/// the step that consumes it.
pub open spec fn pending_cost(s: Seq<CommandModel>) -> nat
    decreases s,
{
    if s.len() == 0 {
        0
    } else {
        pending_cost(s.drop_last()) + 1 + cmd_weight(s.last())
    }
}

/// The cost of an operand stack: the weights of its commands.
pub open spec fn stack_cost(s: Seq<CommandModel>) -> nat
    decreases s,
{
    if s.len() == 0 {
        0
    } else {
        stack_cost(s.drop_last()) + cmd_weight(s.last())
    }
}

/// The energy of a machine state. Every step strictly decreases it, which
/// is why every run of the machine terminates.
pub open spec fn spec_energy(pending: Seq<CommandModel>, stack: Seq<CommandModel>) -> nat {
    pending_cost(pending) + stack_cost(stack)
}

/// Appending one command adds its weight (and a step) to the cost.
pub proof fn lemma_pending_cost_push(s: Seq<CommandModel>, c: CommandModel)
    ensures
        pending_cost(s.push(c)) == pending_cost(s) + 1 + cmd_weight(c),
        stack_cost(s.push(c)) == stack_cost(s) + cmd_weight(c),
{
    assert(s.push(c).drop_last() =~= s);
}

/// The cost of a single command on its own.
pub proof fn lemma_cost_singleton(c: CommandModel)
    ensures
        pending_cost(seq![c]) == 1 + cmd_weight(c),
        stack_cost(seq![c]) == cmd_weight(c),
{
    assert(seq![c].drop_last() =~= Seq::<CommandModel>::empty());
    assert(pending_cost(Seq::<CommandModel>::empty()) == 0);
    assert(stack_cost(Seq::<CommandModel>::empty()) == 0);
    assert(seq![c].last() == c);
}

/// Costs add over concatenation.
pub proof fn lemma_cost_concat(s1: Seq<CommandModel>, s2: Seq<CommandModel>)
    ensures
        pending_cost(s1 + s2) == pending_cost(s1) + pending_cost(s2),
        stack_cost(s1 + s2) == stack_cost(s1) + stack_cost(s2),
    decreases s2.len(),
{
    if s2.len() == 0 {
        assert(s1 + s2 =~= s1);
    } else {
        lemma_cost_concat(s1, s2.drop_last());
        assert((s1 + s2).drop_last() =~= s1 + s2.drop_last());
        assert((s1 + s2).last() == s2.last());
        assert(s1 + s2 == (s1 + s2.drop_last()).push(s2.last())) by {
            assert(s1 + s2 =~= (s1 + s2.drop_last()).push(s2.last()));
        }
        lemma_pending_cost_push(s1 + s2.drop_last(), s2.last());
    }
}

/// Reversal keeps the cost.
pub proof fn lemma_pending_cost_reverse(s: Seq<CommandModel>)
    ensures
        pending_cost(s.reverse()) == pending_cost(s),
    decreases s.len(),
{
    if s.len() > 0 {
        lemma_pending_cost_reverse(s.drop_last());
        assert(s.reverse() =~= seq![s.last()] + s.drop_last().reverse());
        lemma_cost_concat(seq![s.last()], s.drop_last().reverse());
        lemma_cost_singleton(s.last());
    }
}

/// A prefix costs no more than the whole stack; exactly, the cost splits at
/// any cut.
pub proof fn lemma_stack_cost_split(s: Seq<CommandModel>, k: int)
    requires
        0 <= k <= s.len(),
    ensures
        stack_cost(s) == stack_cost(s.subrange(0, k)) + stack_cost(s.subrange(k, s.len() as int)),
{
    assert(s =~= s.subrange(0, k) + s.subrange(k, s.len() as int));
    lemma_cost_concat(s.subrange(0, k), s.subrange(k, s.len() as int));
}

/// A successful machine step strictly decreases the energy.
pub proof fn lemma_step_decreases_energy(pending: Seq<CommandModel>, stack: Seq<CommandModel>)
    requires
        pending.len() > 0,
        spec_step(pending, stack) is Ok,
    ensures
        ({
            let ps = spec_step(pending, stack)->Ok_0;
            spec_energy(ps.0, ps.1) < spec_energy(pending, stack)
        }),
{
    let cmd = pending.last();
    let rest = pending.drop_last();
    assert(pending =~= rest.push(cmd));
    lemma_pending_cost_push(rest, cmd);
    let n = stack.len() as int;
    match cmd {
        CommandModel::Fun(f) => {
            match f {
                PostfixFunction::ARITHMETIC(op) => {
                    let a = stack[n - 2]->Int_0;
                    let b = stack[n - 1]->Int_0;
                    let s1 = stack.subrange(0, n - 2).push(
                        CommandModel::Int(spec_arith(op, a, b)),
                    );
                    assert(spec_step(pending, stack) == Ok::<_, ErrorModel>((rest, s1)));
                    lemma_stack_cost_split(stack, n - 2);
                    let tail = stack.subrange(n - 2, n);
                    assert(tail =~= seq![stack[n - 2]].push(stack[n - 1]));
                    lemma_pending_cost_push(seq![stack[n - 2]], stack[n - 1]);
                    lemma_cost_singleton(stack[n - 2]);
                    lemma_pending_cost_push(
                        stack.subrange(0, n - 2),
                        CommandModel::Int(spec_arith(op, a, b)),
                    );
                },
                PostfixFunction::EXEC => {
                    let cs = stack.last()->Block_0;
                    let s1 = stack.drop_last();
                    assert(spec_step(pending, stack) == Ok::<_, ErrorModel>(
                        (rest + cs.reverse(), s1),
                    ));
                    lemma_cost_concat(rest, cs.reverse());
                    lemma_pending_cost_reverse(cs);
                    assert(stack =~= s1.push(stack.last()));
                    lemma_pending_cost_push(s1, stack.last());
                    assert(cmd_weight(stack.last()) == 1 + pending_cost(cs));
                },
                PostfixFunction::NGET => {
                    let restk = stack.drop_last();
                    let idx = stack.last()->Int_0;
                    let v = restk[restk.len() - idx]->Int_0;
                    let s1 = restk.push(CommandModel::Int(v));
                    assert(spec_step(pending, stack) == Ok::<_, ErrorModel>((rest, s1)));
                    assert(stack =~= restk.push(stack.last()));
                    lemma_pending_cost_push(restk, stack.last());
                    lemma_pending_cost_push(restk, CommandModel::Int(v));
                },
                PostfixFunction::POP => {
                    let s1 = stack.drop_last();
                    assert(spec_step(pending, stack) == Ok::<_, ErrorModel>((rest, s1)));
                    assert(stack =~= s1.push(stack.last()));
                    lemma_pending_cost_push(s1, stack.last());
                    assert(cmd_weight(stack.last()) >= 1);
                },
                PostfixFunction::SEL => {
                    let cond = stack[n - 3]->Int_0;
                    let chosen = if cond == 0 {
                        stack[n - 1]
                    } else {
                        stack[n - 2]
                    };
                    let s1 = stack.subrange(0, n - 3).push(chosen);
                    assert(spec_step(pending, stack) == Ok::<_, ErrorModel>((rest, s1)));
                    lemma_stack_cost_split(stack, n - 3);
                    let tail = stack.subrange(n - 3, n);
                    assert(tail =~= seq![stack[n - 3]].push(stack[n - 2]).push(stack[n - 1]));
                    lemma_cost_singleton(stack[n - 3]);
                    lemma_pending_cost_push(seq![stack[n - 3]], stack[n - 2]);
                    lemma_pending_cost_push(
                        seq![stack[n - 3]].push(stack[n - 2]),
                        stack[n - 1],
                    );
                    lemma_pending_cost_push(stack.subrange(0, n - 3), chosen);
                    assert(cmd_weight(stack[n - 1]) >= 1 && cmd_weight(stack[n - 2]) >= 1);
                },
                PostfixFunction::SWAP => {
                    let s1 = stack.subrange(0, n - 2).push(stack[n - 1]).push(stack[n - 2]);
                    assert(spec_step(pending, stack) == Ok::<_, ErrorModel>((rest, s1)));
                    lemma_stack_cost_split(stack, n - 2);
                    let tail = stack.subrange(n - 2, n);
                    assert(tail =~= seq![stack[n - 2]].push(stack[n - 1]));
                    lemma_cost_singleton(stack[n - 2]);
                    lemma_pending_cost_push(seq![stack[n - 2]], stack[n - 1]);
                    let mid = stack.subrange(0, n - 2).push(stack[n - 1]);
                    lemma_pending_cost_push(stack.subrange(0, n - 2), stack[n - 1]);
                    lemma_pending_cost_push(mid, stack[n - 2]);
                },
            }
        },
        _ => {
            let s1 = stack.push(cmd);
            assert(spec_step(pending, stack) == Ok::<_, ErrorModel>((rest, s1)));
            lemma_pending_cost_push(stack, cmd);
        },
    }
}

/// The machine halts on every state: the energy strictly decreases with
/// each step, so some fuel always suffices.
pub proof fn lemma_machine_halts(pending: Seq<CommandModel>, stack: Seq<CommandModel>)
    ensures
        spec_halts(pending, stack),
    decreases spec_energy(pending, stack),
{
    if pending.len() == 0 {
        assert(spec_run(pending, stack, 0) is Finished);
    } else {
        match spec_step(pending, stack) {
            Err(e) => {
                assert(spec_run(pending, stack, 1) is Finished);
            },
            Ok(ps) => {
                lemma_step_decreases_energy(pending, stack);
                lemma_machine_halts(ps.0, ps.1);
                let f = choose|f: nat| spec_run(ps.0, ps.1, f) is Finished;
                assert(spec_run(pending, stack, f + 1) == spec_run(ps.0, ps.1, f));
            },
        }
    }
}

/// A finished run stays finished, with the same result, under more fuel.
pub proof fn lemma_run_monotonic(
    pending: Seq<CommandModel>,
    stack: Seq<CommandModel>,
    f1: nat,
    f2: nat,
)
    requires
        f1 <= f2,
        spec_run(pending, stack, f1) is Finished,
    ensures
        spec_run(pending, stack, f2) == spec_run(pending, stack, f1),
    decreases f1,
{
    if pending.len() == 0 {
    } else {
        match spec_step(pending, stack) {
            Err(e) => {},
            Ok(ps) => {
                lemma_run_monotonic(ps.0, ps.1, (f1 - 1) as nat, (f2 - 1) as nat);
            },
        }
    }
}

/// Whatever run finishes determines the machine's one result: the machine
/// halts and `spec_run_result` equals that run's result.
pub proof fn lemma_run_result(pending: Seq<CommandModel>, stack: Seq<CommandModel>, fuel: nat)
    requires
        spec_run(pending, stack, fuel) is Finished,
    ensures
        spec_halts(pending, stack),
        RunOutcome::Finished(spec_run_result(pending, stack)) == spec_run(pending, stack, fuel),
{
    assert(spec_halts(pending, stack));
    let fc = choose|f: nat| spec_run(pending, stack, f) is Finished;
    if fc <= fuel {
        lemma_run_monotonic(pending, stack, fc, fuel);
    } else {
        lemma_run_monotonic(pending, stack, fuel, fc);
    }
}

/// A structural copy of one command tree: the copy has the same model.
pub fn copy_command(c: &PostfixCommand) -> (r: PostfixCommand)
    ensures
        r.deep() == c.deep(),
    decreases c,
{
    match c {
        PostfixCommand::INTEGER(n) => PostfixCommand::INTEGER(*n),
        PostfixCommand::SPECIAL(f) => PostfixCommand::SPECIAL(*f),
        PostfixCommand::EXECUTE(cmds) => {
            proof {
                lemma_deep_seq_index(cmds@);
            }
            let mut v: Vec<PostfixCommand> = Vec::new();
            let mut i: usize = 0;
            while i < cmds.len()
                invariant
                    i <= cmds.len(),
                    *c == PostfixCommand::EXECUTE(*cmds),
                    deep_seq(cmds@).len() == cmds@.len(),
                    deep_seq(v@) == deep_seq(cmds@).subrange(0, i as int),
                decreases cmds.len() - i,
            {
                proof {
                    lemma_deep_seq_index(cmds@);
                    assert(decreases_to!(*c => (*c)->EXECUTE_0));
                    assert((*c)->EXECUTE_0 == *cmds);
                    assert(decreases_to!(*cmds => cmds@[i as int]));
                    assert(decreases_to!(*c => cmds@[i as int]));
                }
                let copied = copy_command(&cmds[i]);
                let ghost vold = v@;
                v.push(copied);
                proof {
                    lemma_deep_seq_push(vold, copied);
                    assert(deep_seq(cmds@).subrange(0, i + 1) =~= deep_seq(cmds@).subrange(
                        0,
                        i as int,
                    ).push(deep_seq(cmds@)[i as int]));
                }
                i += 1;
            }
            proof {
                lemma_deep_seq_index(cmds@);
                assert(deep_seq(cmds@).subrange(0, cmds@.len() as int) =~= deep_seq(cmds@));
            }
            PostfixCommand::EXECUTE(v)
        },
    }
}

/// A structural copy of a sequence of commands: the copy has the same models.
pub fn copy_commands(cmds: &Vec<PostfixCommand>) -> (r: Vec<PostfixCommand>)
    ensures
        deep_seq(r@) == deep_seq(cmds@),
{
    proof {
        lemma_deep_seq_index(cmds@);
    }
    let mut v: Vec<PostfixCommand> = Vec::new();
    let mut i: usize = 0;
    while i < cmds.len()
        invariant
            i <= cmds.len(),
            deep_seq(cmds@).len() == cmds@.len(),
            deep_seq(v@) == deep_seq(cmds@).subrange(0, i as int),
        decreases cmds.len() - i,
    {
        let copied = copy_command(&cmds[i]);
        let ghost vold = v@;
        v.push(copied);
        proof {
            lemma_deep_seq_push(vold, copied);
            lemma_deep_seq_index(cmds@);
            assert(deep_seq(cmds@).subrange(0, i + 1) =~= deep_seq(cmds@).subrange(0, i as int).push(
                deep_seq(cmds@)[i as int],
            ));
        }
        i += 1;
    }
    proof {
        lemma_deep_seq_index(cmds@);
        assert(deep_seq(cmds@).subrange(0, cmds@.len() as int) =~= deep_seq(cmds@));
    }
    v
}

/// The wrapped result of one arithmetic built-in, exactly as `spec_arith`
/// says.
pub fn compute_arithmetic_function(
    arithmetic: &PostfixArithmetic,
    pre_operand: i32,
    post_operand: i32,
) -> (r: i32)
    requires
        (*arithmetic == PostfixArithmetic::DIV || *arithmetic == PostfixArithmetic::REM)
            ==> post_operand != 0,
    ensures
        r == spec_arith(*arithmetic, pre_operand, post_operand),
{
    match arithmetic {
        PostfixArithmetic::ADD => pre_operand.wrapping_add(post_operand),
        PostfixArithmetic::SUB => pre_operand.wrapping_sub(post_operand),
        PostfixArithmetic::MUL => pre_operand.wrapping_mul(post_operand),
        PostfixArithmetic::DIV => match pre_operand.checked_div(post_operand) {
            Some(q) => q,
            None => i32::MIN,
        },
        PostfixArithmetic::REM => match pre_operand.checked_rem(post_operand) {
            Some(m) => m,
            None => 0,
        },
        PostfixArithmetic::EQ => if pre_operand == post_operand {
            1
        } else {
            0
        },
        PostfixArithmetic::GT => if pre_operand > post_operand {
            1
        } else {
            0
        },
        PostfixArithmetic::LT => if pre_operand < post_operand {
            1
        } else {
            0
        },
    }
}

/// Applies one built-in to the machine, exactly as `spec_apply_function`
/// says; on an error nothing is changed.
fn execute_postfix_function(
    function: &PostfixFunction,
    remaining_commands: &mut Vec<PostfixCommand>,
    stack: &mut Vec<PostfixCommand>,
) -> (r: Result<(), PostfixError>)
    ensures
        ({
            let step = spec_apply_function(
                *function,
                deep_seq(old(remaining_commands)@),
                deep_seq(old(stack)@),
            );
            match r {
                Ok(u) => step matches Ok(ps) && deep_seq(final(remaining_commands)@) == ps.0
                    && deep_seq(final(stack)@) == ps.1,
                Err(e) => step matches Err(em) && em == e@ && final(remaining_commands)@ == old(
                    remaining_commands,
                )@ && final(stack)@ == old(stack)@,
            }
        }),
{
    proof {
        lemma_deep_seq_index(stack@);
        lemma_deep_seq_index(remaining_commands@);
    }
    let ghost old_stack = deep_seq(stack@);
    match function {
        PostfixFunction::ARITHMETIC(operator) => {
            let n = stack.len();
            if n < 2 {
                return Err(
                    PostfixError::WrongNumberOfFunctionArguments {
                        function: PostfixFunction::ARITHMETIC(*operator),
                        expected_number_of_arguments: 2,
                    },
                );
            }
            let (pre_operand, post_operand) = match (&stack[n - 2], &stack[n - 1]) {
                (PostfixCommand::INTEGER(a), PostfixCommand::INTEGER(b)) => (*a, *b),
                _ => {
                    return Err(
                        PostfixError::WrongTypeOfFunctionArguments {
                            function: PostfixFunction::ARITHMETIC(*operator),
                        },
                    );
                },
            };
            let divides = matches!(operator, PostfixArithmetic::DIV) || matches!(
                operator,
                PostfixArithmetic::REM,
            );
            if divides && post_operand == 0 {
                return Err(PostfixError::DivideByZero);
            }
            let value = compute_arithmetic_function(operator, pre_operand, post_operand);
            let _ = stack.pop();
            let _ = stack.pop();
            let pushed = PostfixCommand::INTEGER(value);
            stack.push(pushed);
            proof {
                lemma_deep_seq_subrange(old(stack)@, 0, n - 2);
                lemma_deep_seq_push(old(stack)@.subrange(0, n - 2), pushed);
                assert(stack@ =~= old(stack)@.subrange(0, n - 2).push(pushed));
            }
            Ok(())
        },
        PostfixFunction::EXEC => {
            let n = stack.len();
            if n < 1 {
                return Err(
                    PostfixError::WrongNumberOfFunctionArguments {
                        function: PostfixFunction::EXEC,
                        expected_number_of_arguments: 1,
                    },
                );
            }
            match stack.pop() {
                Some(PostfixCommand::EXECUTE(commands)) => {
                    let ghost old_rc = remaining_commands@;
                    let ghost block = deep_seq(commands@);
                    proof {
                        lemma_deep_seq_index(commands@);
                        assert(old_stack.last() == CommandModel::Block(block));
                        assert(old_stack.drop_last() =~= deep_seq(old(stack)@.subrange(
                            0,
                            n - 1,
                        )));
                        lemma_deep_seq_subrange(old(stack)@, 0, n - 1);
                    }
                    let m = commands.len();
                    let mut j: usize = m;
                    proof {
                        assert(block.subrange(m as int, m as int).reverse() =~= Seq::empty());
                        assert(deep_seq(remaining_commands@) =~= deep_seq(old_rc)
                            + block.subrange(m as int, m as int).reverse());
                    }
                    while j > 0
                        invariant
                            j <= m,
                            m == commands@.len(),
                            block == deep_seq(commands@),
                            block.len() == m,
                            deep_seq(remaining_commands@) == deep_seq(old_rc) + block.subrange(
                                j as int,
                                m as int,
                            ).reverse(),
                        decreases j,
                    {
                        j -= 1;
                        let copied = copy_command(&commands[j]);
                        let ghost prev = remaining_commands@;
                        remaining_commands.push(copied);
                        proof {
                            lemma_deep_seq_index(commands@);
                            lemma_deep_seq_push(prev, copied);
                            assert(copied.deep() == block[j as int]);
                            assert((deep_seq(old_rc) + block.subrange(j + 1, m as int).reverse())
                                .push(block[j as int]) =~= deep_seq(old_rc) + block.subrange(
                                j as int,
                                m as int,
                            ).reverse());
                        }
                    }
                    proof {
                        assert(block.subrange(0, m as int) =~= block);
                        assert(deep_seq(remaining_commands@) =~= deep_seq(old_rc)
                            + block.reverse());
                    }
                    Ok(())
                },
                Some(other) => {
                    stack.push(other);
                    proof {
                        assert(old(stack)@.subrange(0, n - 1).push(old(stack)@[n - 1]) =~= old(
                            stack,
                        )@);
                    }
                    Err(PostfixError::WrongTypeOfFunctionArguments { function: PostfixFunction::EXEC })
                },
                None => {
                    proof {
                        assert(false);
                    }
                    Err(PostfixError::WrongNumberOfFunctionArguments {
                        function: PostfixFunction::EXEC,
                        expected_number_of_arguments: 1,
                    })
                },
            }
        },
        PostfixFunction::NGET => {
            let n = stack.len();
            if n < 1 {
                return Err(
                    PostfixError::WrongNumberOfFunctionArguments {
                        function: PostfixFunction::NGET,
                        expected_number_of_arguments: 1,
                    },
                );
            }
            let index = match &stack[n - 1] {
                PostfixCommand::INTEGER(idx) => *idx,
                _ => {
                    return Err(
                        PostfixError::WrongTypeOfFunctionArguments {
                            function: PostfixFunction::NGET,
                        },
                    );
                },
            };
            proof {
                assert(old_stack.drop_last() =~= deep_seq(old(stack)@).subrange(0, n - 1));
            }
            if index < 1 {
                return Err(
                    PostfixError::IndexOutOfRangeByNGETFunction { index, min: 1, max: n - 1 },
                );
            }
            let offset = index as usize;
            if n - 1 < offset {
                return Err(
                    PostfixError::IndexOutOfRangeByNGETFunction { index, min: 1, max: n - 1 },
                );
            }
            match &stack[n - 1 - offset] {
                PostfixCommand::INTEGER(v) => {
                    let value = *v;
                    let _ = stack.pop();
                    let pushed = PostfixCommand::INTEGER(value);
                    stack.push(pushed);
                    proof {
                        lemma_deep_seq_subrange(old(stack)@, 0, n - 1);
                        lemma_deep_seq_push(old(stack)@.subrange(0, n - 1), pushed);
                        assert(stack@ =~= old(stack)@.subrange(0, n - 1).push(pushed));
                    }
                    Ok(())
                },
                c => Err(PostfixError::InvalidValueByNGETFunction { command: copy_command(c) }),
            }
        },
        PostfixFunction::POP => {
            let n = stack.len();
            if n < 1 {
                return Err(
                    PostfixError::WrongNumberOfFunctionArguments {
                        function: PostfixFunction::POP,
                        expected_number_of_arguments: 1,
                    },
                );
            }
            let _ = stack.pop();
            proof {
                lemma_deep_seq_subrange(old(stack)@, 0, n - 1);
                assert(old_stack.drop_last() =~= deep_seq(old(stack)@).subrange(0, n - 1));
            }
            Ok(())
        },
        PostfixFunction::SEL => {
            let n = stack.len();
            if n < 3 {
                return Err(
                    PostfixError::WrongNumberOfFunctionArguments {
                        function: PostfixFunction::SEL,
                        expected_number_of_arguments: 3,
                    },
                );
            }
            let condition = match &stack[n - 3] {
                PostfixCommand::INTEGER(c) => *c,
                _ => {
                    return Err(
                        PostfixError::WrongTypeOfFunctionArguments {
                            function: PostfixFunction::SEL,
                        },
                    );
                },
            };
            let c1 = stack.pop().unwrap();
            let c2 = stack.pop().unwrap();
            let _ = stack.pop();
            if condition == 0 {
                stack.push(c1);
                proof {
                    lemma_deep_seq_subrange(old(stack)@, 0, n - 3);
                    lemma_deep_seq_push(old(stack)@.subrange(0, n - 3), old(stack)@[n - 1]);
                    assert(stack@ =~= old(stack)@.subrange(0, n - 3).push(old(stack)@[n - 1]));
                }
            } else {
                stack.push(c2);
                proof {
                    lemma_deep_seq_subrange(old(stack)@, 0, n - 3);
                    lemma_deep_seq_push(old(stack)@.subrange(0, n - 3), old(stack)@[n - 2]);
                    assert(stack@ =~= old(stack)@.subrange(0, n - 3).push(old(stack)@[n - 2]));
                }
            }
            Ok(())
        },
        PostfixFunction::SWAP => {
            let n = stack.len();
            if n < 2 {
                return Err(
                    PostfixError::WrongNumberOfFunctionArguments {
                        function: PostfixFunction::SWAP,
                        expected_number_of_arguments: 2,
                    },
                );
            }
            let c1 = stack.pop().unwrap();
            let c2 = stack.pop().unwrap();
            stack.push(c1);
            stack.push(c2);
            proof {
                lemma_deep_seq_subrange(old(stack)@, 0, n - 2);
                lemma_deep_seq_push(old(stack)@.subrange(0, n - 2), old(stack)@[n - 1]);
                lemma_deep_seq_push(
                    old(stack)@.subrange(0, n - 2).push(old(stack)@[n - 1]),
                    old(stack)@[n - 2],
                );
                assert(stack@ =~= old(stack)@.subrange(0, n - 2).push(old(stack)@[n - 1]).push(
                    old(stack)@[n - 2],
                ));
            }
            Ok(())
        },
    }
}

/// A parsed program: its declared parameter count and its top-level
/// commands. Built once by the parser, immutable thereafter.
#[derive(Debug)]
pub struct PostfixProgram {
    pub paramsize: u32,
    pub commands: Vec<PostfixCommand>,
}

/// The model of a program.
pub struct ProgramModel {
    pub paramsize: u32,
    pub commands: Seq<CommandModel>,
}

impl View for PostfixProgram {
    type V = ProgramModel;

    open spec fn view(&self) -> ProgramModel {
        ProgramModel { paramsize: self.paramsize, commands: deep_seq(self.commands@) }
    }
}

/// The parser's fold state: the declared parameter count, the completed
/// top-level commands, and one open command list per bracket not yet closed,
/// innermost last.
pub struct ProgramBuilder {
    pub paramsize: usize,
    pub commands: Vec<PostfixCommand>,
    pub stack: Vec<Vec<PostfixCommand>>,
}

/// The model of the parser's fold state.
pub struct BuilderState {
    pub paramsize: usize,
    pub commands: Seq<CommandModel>,
    pub stack: Seq<Seq<CommandModel>>,
}

/// The models of a stack of open command lists, elementwise.
pub open spec fn deep_stack(s: Seq<Vec<PostfixCommand>>) -> Seq<Seq<CommandModel>> {
    s.map_values(|v: Vec<PostfixCommand>| deep_seq(v@))
}

impl View for ProgramBuilder {
    type V = BuilderState;

    open spec fn view(&self) -> BuilderState {
        BuilderState {
            paramsize: self.paramsize,
            commands: deep_seq(self.commands@),
            stack: deep_stack(self.stack@),
        }
    }
}

/// A fresh fold state with the given parameter count and nothing open.
pub open spec fn spec_new_builder(paramsize: usize) -> BuilderState {
    BuilderState { paramsize, commands: Seq::empty(), stack: Seq::empty() }
}

/// Appends one completed command to the innermost open list, or to the
/// top-level sequence when no bracket is open.
pub open spec fn spec_append_command(b: BuilderState, c: CommandModel) -> BuilderState {
    if b.stack.len() == 0 {
        BuilderState { commands: b.commands.push(c), ..b }
    } else {
        BuilderState { stack: b.stack.drop_last().push(b.stack.last().push(c)), ..b }
    }
}

/// One parser fold step. A left bracket opens a new list; a right bracket
/// closes the innermost list into a block command appended to its parent
/// (closing with nothing open is an error); an integer or a function keyword
/// appends the matching command; the header keyword anywhere here is an
/// error.
pub open spec fn spec_builder_consume(b: BuilderState, t: Token) -> Result<
    BuilderState,
    ErrorModel,
> {
    match t {
        Token::LEFT => Ok(BuilderState { stack: b.stack.push(Seq::empty()), ..b }),
        Token::RIGHT => {
            if b.stack.len() == 0 {
                Err(ErrorModel::UnmatchedRightParenthesis)
            } else {
                let block = CommandModel::Block(b.stack.last());
                let rest = b.stack.drop_last();
                if rest.len() == 0 {
                    Ok(BuilderState { commands: b.commands.push(block), stack: rest, ..b })
                } else {
                    Ok(
                        BuilderState {
                            stack: rest.drop_last().push(rest.last().push(block)),
                            ..b
                        },
                    )
                }
            }
        },
        Token::NUMBER(d) => Ok(spec_append_command(b, CommandModel::Int(d))),
        Token::KEYWORD(PostfixKeyword::HEAD) => Err(
            ErrorModel::InvalidKeyword(PostfixKeyword::HEAD),
        ),
        Token::KEYWORD(PostfixKeyword::FUNCTION(f)) => Ok(
            spec_append_command(b, CommandModel::Fun(f)),
        ),
    }
}

/// The program a finished fold state builds: the parameter count truncated
/// to 32 bits, and the completed top-level commands.
pub open spec fn spec_build(b: BuilderState) -> ProgramModel {
    ProgramModel { paramsize: b.paramsize as u32, commands: b.commands }
}

impl ProgramBuilder {
    /// A fresh builder with the given parameter count.
    pub fn new(paramsize: usize) -> (r: Self)
        ensures
            r@ == spec_new_builder(paramsize),
    {
        let r = Self { paramsize, commands: Vec::new(), stack: Vec::new() };
        proof {
            assert(deep_seq(r.commands@) =~= Seq::<CommandModel>::empty());
            assert(deep_stack(r.stack@) =~= Seq::<Seq<CommandModel>>::empty());
        }
        r
    }

    /// The program built from this fold state, exactly as `spec_build` says.
    pub fn build(&self) -> (p: PostfixProgram)
        ensures
            p@ == spec_build(self@),
    {
        PostfixProgram {
            paramsize: #[verifier::truncate] (self.paramsize as u32),
            commands: copy_commands(&self.commands),
        }
    }

    /// Folds one token into this state, exactly as `spec_builder_consume`
    /// says.
    pub fn consume(self, token: Token) -> (r: Result<Self, PostfixError>)
        ensures
            ({
                match r {
                    Ok(b2) => spec_builder_consume(self@, token) matches Ok(m) && b2@ == m,
                    Err(e) => spec_builder_consume(self@, token) matches Err(em) && em == e@,
                }
            }),
    {
        let mut this = self;
        match token {
            Token::LEFT => {
                let ghost st = this.stack@;
                this.stack.push(Vec::new());
                proof {
                    assert(deep_stack(this.stack@) =~= deep_stack(st).push(
                        Seq::<CommandModel>::empty(),
                    ));
                }
                Ok(this)
            },
            Token::RIGHT => {
                let ghost st = this.stack@;
                match this.stack.pop() {
                    None => Err(PostfixError::UnmatchedRightParenthese),
                    Some(current) => {
                        proof {
                            assert(deep_stack(this.stack@) =~= deep_stack(st).drop_last());
                            assert(deep_seq(current@) == deep_stack(st).last());
                        }
                        let execute = PostfixCommand::EXECUTE(current);
                        let ghost st2 = this.stack@;
                        match this.stack.pop() {
                            None => {
                                let ghost cs = this.commands@;
                                this.commands.push(execute);
                                proof {
                                    lemma_deep_seq_push(cs, execute);
                                    assert(deep_stack(this.stack@) =~= deep_stack(st2));
                                }
                            },
                            Some(mut parent) => {
                                proof {
                                    assert(deep_seq(parent@) == deep_stack(st2).last());
                                }
                                let ghost pv = parent@;
                                parent.push(execute);
                                proof {
                                    lemma_deep_seq_push(pv, execute);
                                }
                                let ghost st3 = this.stack@;
                                this.stack.push(parent);
                                proof {
                                    assert(deep_stack(st3) =~= deep_stack(st2).drop_last());
                                    assert(deep_stack(this.stack@) =~= deep_stack(st3).push(
                                        deep_seq(parent@),
                                    ));
                                }
                            },
                        }
                        Ok(this)
                    },
                }
            },
            Token::NUMBER(d) => {
                let integer = PostfixCommand::INTEGER(d);
                this.append_command(integer);
                Ok(this)
            },
            Token::KEYWORD(PostfixKeyword::HEAD) => Err(
                PostfixError::InvalidPostfixKeyword(PostfixKeyword::HEAD),
            ),
            Token::KEYWORD(PostfixKeyword::FUNCTION(func)) => {
                let keyword = PostfixCommand::SPECIAL(func);
                this.append_command(keyword);
                Ok(this)
            },
        }
    }

    /// Appends one completed command, exactly as `spec_append_command` says.
    fn append_command(&mut self, c: PostfixCommand)
        ensures
            final(self)@ == spec_append_command(old(self)@, c.deep()),
    {
        let ghost st = self.stack@;
        match self.stack.pop() {
            None => {
                let ghost cs = self.commands@;
                self.commands.push(c);
                proof {
                    lemma_deep_seq_push(cs, c);
                    assert(deep_stack(self.stack@) =~= deep_stack(st));
                }
            },
            Some(mut current) => {
                proof {
                    assert(deep_seq(current@) == deep_stack(st).last());
                }
                let ghost cv = current@;
                current.push(c);
                proof {
                    lemma_deep_seq_push(cv, c);
                }
                let ghost st2 = self.stack@;
                self.stack.push(current);
                proof {
                    assert(deep_stack(st2) =~= deep_stack(st).drop_last());
                    assert(deep_stack(self.stack@) =~= deep_stack(st2).push(deep_seq(current@)));
                    assert(deep_stack(self.stack@) =~= deep_stack(st).drop_last().push(
                        deep_stack(st).last().push(c.deep()),
                    ));
                }
            },
        }
    }
}

/// Executes one command against the machine, exactly as
/// `spec_execute_command` says; on an error nothing is changed.
pub fn execute_command(
    command: &PostfixCommand,
    remaining_commands: &mut Vec<PostfixCommand>,
    stack: &mut Vec<PostfixCommand>,
) -> (r: Result<(), PostfixError>)
    ensures
        ({
            let step = spec_execute_command(
                command.deep(),
                deep_seq(old(remaining_commands)@),
                deep_seq(old(stack)@),
            );
            match r {
                Ok(u) => step matches Ok(ps) && deep_seq(final(remaining_commands)@) == ps.0
                    && deep_seq(final(stack)@) == ps.1,
                Err(e) => step matches Err(em) && em == e@ && final(remaining_commands)@ == old(
                    remaining_commands,
                )@ && final(stack)@ == old(stack)@,
            }
        }),
{
    match command {
        PostfixCommand::SPECIAL(function) => execute_postfix_function(
            function,
            remaining_commands,
            stack,
        ),
        _ => {
            let copied = copy_command(command);
            stack.push(copied);
            proof {
                lemma_deep_seq_push(old(stack)@, copied);
            }
            Ok(())
        },
    }
}

} // verus!
