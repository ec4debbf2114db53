//! The evaluation of an expression, one question to the host at a time.
//!
//! An [`Evaluation`] walks through an expression and decides everything but
//! the arithmetic: in which order the operands are taken, what a name stands
//! for, when a variable is stored and when the evaluation fails. Whenever it
//! needs a number read or an operator applied it stops with a [`Step`] that
//! says so, and goes on when it is given the [`Reply`]:
//!
//! 1. [`Evaluation::new`] starts the evaluation of an expression;
//! 2. [`Evaluation::pending`] tells what it waits for, or how it ended;
//! 3. [`Evaluation::resume`] takes the host's answer.
//!
//! [`lemma_run_evaluates`] shows that, whatever the host, answering every
//! question in turn ends with what [`evaluate_spec`] says. [`evaluate`] does
//! just that, with two functions for a host.

use crate::env::{Environment, Number};
use crate::eval::{
    arithmetic, arithmetic_operator, arithmetic_tree, assignment_of, evaluable, evaluate_spec,
    value_of, BinaryOp, EvalError, Evaluated, Host,
};
use crate::expr::{lemma_view_kind, Expression, SpecExpr};
use vstd::prelude::*;

verus! {

/// One instruction of the postfix program that an expression is turned into.
#[derive(Clone, Copy)]
enum Instr<'a> {
    /// Make sure that the name of the assigned variable is no number.
    Target(&'a str),
    /// Push the value of an operand.
    Operand(&'a str),
    /// Replace the two topmost values by the result of the operator on them.
    Apply(BinaryOp),
}

/// The mathematical value of an instruction.
pub enum SpecInstr {
    Target(Seq<char>),
    Operand(Seq<char>),
    Apply(BinaryOp),
}

impl<'a> View for Instr<'a> {
    type V = SpecInstr;

    closed spec fn view(&self) -> SpecInstr {
        match *self {
            Instr::Target(name) => SpecInstr::Target(name@),
            Instr::Operand(text) => SpecInstr::Operand(text@),
            Instr::Apply(op) => SpecInstr::Apply(op),
        }
    }
}

spec fn instr_views(code: Seq<Instr<'_>>) -> Seq<SpecInstr> {
    code.map_values(|instr: Instr<'_>| instr@)
}

/// What an evaluation waits for, or how it ended.
#[derive(Debug, Clone, Copy, PartialEq)]
pub enum Step<'a> {
    /// The host is to read the text as a number, and to answer with
    /// [`Reply::Resolved`]: the number, or `None` if the text is none.
    Resolve(&'a str),
    /// The host is to apply the operator to the left and the right number,
    /// and to answer with [`Reply::Computed`].
    Compute(BinaryOp, Number, Number),
    /// The evaluation is over: the value of the expression, `None` after an
    /// assignment, or the failure.
    Done(Result<Option<Number>, EvalError>),
}

/// The mathematical value of a [`Step`].
pub enum SpecStep {
    Resolve(Seq<char>),
    Compute(BinaryOp, Number, Number),
    Done(Result<Option<Number>, EvalError>),
}

impl<'a> View for Step<'a> {
    type V = SpecStep;

    open spec fn view(&self) -> SpecStep {
        match *self {
            Step::Resolve(text) => SpecStep::Resolve(text@),
            Step::Compute(op, left, right) => SpecStep::Compute(op, left, right),
            Step::Done(result) => SpecStep::Done(result),
        }
    }
}

/// The host's answer to a [`Step`].
#[derive(Debug, Clone, Copy, PartialEq)]
pub enum Reply {
    /// The answer to [`Step::Resolve`].
    Resolved(Option<Number>),
    /// The answer to [`Step::Compute`].
    Computed(Number),
}

/// The postfix program of an arithmetic tree: the program of the left
/// operand, that of the right operand, then the operator.
pub open spec fn postfix(expr: SpecExpr) -> Seq<SpecInstr>
    recommends
        arithmetic_tree(expr),
    decreases expr,
{
    match expr {
        SpecExpr::Operand(text) => seq![SpecInstr::Operand(text)],
        SpecExpr::Operation(operator, operands) => {
            if operands.len() == 2 && arithmetic(operator) is Some {
                postfix(operands[0]) + postfix(operands[1]) + seq![
                    SpecInstr::Apply(arithmetic(operator)->Some_0),
                ]
            } else {
                Seq::empty()
            }
        },
    }
}

/// Whether `code` can run on a stack of `depth` values: no operator finds
/// fewer than two values, and a value is left at the end.
pub open spec fn balanced(code: Seq<SpecInstr>, depth: nat) -> bool
    decreases code.len(),
{
    if code.len() == 0 {
        depth >= 1
    } else {
        match code[0] {
            SpecInstr::Target(_) => balanced(code.drop_first(), depth),
            SpecInstr::Operand(_) => balanced(code.drop_first(), depth + 1),
            SpecInstr::Apply(_) => depth >= 2 && balanced(code.drop_first(), (depth - 1) as nat),
        }
    }
}

/// The state of an evaluation.
pub struct SpecEvaluation {
    /// The program.
    pub code: Seq<SpecInstr>,
    /// The place in `code` of the instruction that waits for the host.
    pub next: nat,
    /// The values of the operands that wait for their operator.
    pub stack: Seq<Number>,
    /// How the evaluation ended, once it has.
    pub outcome: Option<Result<Option<Number>, EvalError>>,
}

impl SpecEvaluation {
    /// Whether the evaluation still waits for the host.
    pub open spec fn running(self) -> bool {
        self.outcome is None && self.next < self.code.len()
    }

    /// The invariant of a state: while the evaluation runs, the rest of the
    /// program can run on the stack as it is.
    pub open spec fn sound(self) -> bool {
        self.outcome is None ==> {
            &&& self.next < self.code.len()
            &&& balanced(self.code.skip(self.next as int), self.stack.len())
        }
    }

    /// What the evaluation waits for, or how it ended.
    pub open spec fn pending(self) -> SpecStep {
        match self.outcome {
            Some(result) => SpecStep::Done(result),
            None => match self.code[self.next as int] {
                SpecInstr::Target(name) => SpecStep::Resolve(name),
                SpecInstr::Operand(text) => SpecStep::Resolve(text),
                SpecInstr::Apply(op) => SpecStep::Compute(
                    op,
                    self.stack[self.stack.len() - 2],
                    self.stack[self.stack.len() - 1],
                ),
            },
        }
    }

    /// The state in which the evaluation has failed with `error`.
    pub open spec fn failed(self, error: EvalError) -> SpecEvaluation {
        SpecEvaluation { outcome: Some(Err(error)), ..self }
    }

    /// The state and the variables once the pending instruction is done and
    /// has left `stack`.
    ///
    /// With more instructions to come the evaluation goes on to the next
    /// one. At the end of the program the value on top of the stack is the
    /// value of the expression: an assignment stores it under its name and
    /// shows nothing, any other expression shows it.
    pub open spec fn advance(self, stack: Seq<Number>, env: Map<Seq<char>, Number>) -> (
        SpecEvaluation,
        Map<Seq<char>, Number>,
    ) {
        let next = self.next + 1;
        if next < self.code.len() {
            (SpecEvaluation { next, stack, ..self }, env)
        } else {
            match self.code[0] {
                SpecInstr::Target(name) => (
                    SpecEvaluation { next, stack, outcome: Some(Ok(None)), ..self },
                    env.insert(name, stack.last()),
                ),
                _ => (
                    SpecEvaluation { next, stack, outcome: Some(Ok(Some(stack.last()))), ..self },
                    env,
                ),
            }
        }
    }

    /// The state and the variables after the host's `reply`.
    ///
    /// - The name of an assigned variable must not be a number: if it is,
    ///   the evaluation fails with `InvalidAssignmentTarget`.
    /// - An operand that is a number has that number as its value. One that
    ///   is none has the value of the variable of that name; without such a
    ///   variable the evaluation fails with `UndefinedVariable`.
    /// - The result of an operator takes the place of its two operands.
    ///
    /// A reply of the wrong kind, and any reply after the end, changes
    /// nothing.
    pub open spec fn resume(self, env: Map<Seq<char>, Number>, reply: Reply) -> (
        SpecEvaluation,
        Map<Seq<char>, Number>,
    ) {
        if !self.running() {
            (self, env)
        } else {
            match (self.code[self.next as int], reply) {
                (SpecInstr::Target(_), Reply::Resolved(Some(_))) => (
                    self.failed(EvalError::InvalidAssignmentTarget),
                    env,
                ),
                (SpecInstr::Target(_), Reply::Resolved(None)) => self.advance(self.stack, env),
                (SpecInstr::Operand(_), Reply::Resolved(Some(number))) => self.advance(
                    self.stack.push(number),
                    env,
                ),
                (SpecInstr::Operand(text), Reply::Resolved(None)) => {
                    if env.contains_key(text) {
                        self.advance(self.stack.push(env[text]), env)
                    } else {
                        (self.failed(EvalError::UndefinedVariable), env)
                    }
                },
                (SpecInstr::Apply(_), Reply::Computed(number)) => self.advance(
                    self.stack.drop_last().drop_last().push(number),
                    env,
                ),
                _ => (self, env),
            }
        }
    }

    /// How many replies the evaluation can still take at most.
    pub open spec fn remaining(self) -> nat {
        if self.running() {
            (self.code.len() - self.next) as nat
        } else {
            0
        }
    }

    /// The end of the evaluation when `host` answers every step.
    pub open spec fn run(self, env: Map<Seq<char>, Number>, host: Host) -> Evaluated
        decreases self.remaining(),
    {
        if !self.running() {
            match self.outcome {
                Some(result) => Evaluated { result, env },
                None => arbitrary(),
            }
        } else {
            let resumed = self.resume(env, answer(host, self.pending()));
            resumed.0.run(resumed.1, host)
        }
    }
}

/// The answer of `host` to `step`.
pub open spec fn answer(host: Host, step: SpecStep) -> Reply {
    match step {
        SpecStep::Resolve(text) => Reply::Resolved((host.number)(text)),
        SpecStep::Compute(op, left, right) => Reply::Computed((host.apply)(op, left, right)),
        SpecStep::Done(_) => Reply::Resolved(None),
    }
}

/// The state in which the evaluation of `expr` starts.
///
/// An assignment with an invalid target has failed before it starts. The
/// program of any other assignment checks the name, then computes the value
/// expression; the program of any other expression computes the expression.
pub open spec fn start_spec(expr: SpecExpr) -> SpecEvaluation
    recommends
        evaluable(expr),
{
    match assignment_of(expr) {
        Err(error) => SpecEvaluation {
            code: Seq::empty(),
            next: 0,
            stack: Seq::empty(),
            outcome: Some(Err(error)),
        },
        Ok(Some((name, value))) => SpecEvaluation {
            code: seq![SpecInstr::Target(name)] + postfix(value),
            next: 0,
            stack: Seq::empty(),
            outcome: None,
        },
        Ok(None) => SpecEvaluation {
            code: postfix(expr),
            next: 0,
            stack: Seq::empty(),
            outcome: None,
        },
    }
}

/// The program of an arithmetic tree is not empty and starts with an
/// operand.
pub proof fn lemma_postfix_starts_with_operand(expr: SpecExpr)
    requires
        arithmetic_tree(expr),
    ensures
        postfix(expr).len() >= 1,
        postfix(expr)[0] is Operand,
    decreases expr,
{
    if let SpecExpr::Operation(_, operands) = expr {
        lemma_postfix_starts_with_operand(operands[0]);
    }
}

/// The program of an arithmetic tree runs on any stack and leaves one value
/// more on it.
pub proof fn lemma_postfix_balanced(expr: SpecExpr, rest: Seq<SpecInstr>, depth: nat)
    requires
        arithmetic_tree(expr),
    ensures
        balanced(postfix(expr) + rest, depth) == balanced(rest, depth + 1),
    decreases expr,
{
    match expr {
        SpecExpr::Operand(text) => {
            assert((postfix(expr) + rest).drop_first() == rest);
        },
        SpecExpr::Operation(operator, operands) => {
            let left = postfix(operands[0]);
            let right = postfix(operands[1]);
            let apply = seq![SpecInstr::Apply(arithmetic(operator)->Some_0)];
            assert(postfix(expr) + rest == left + (right + (apply + rest)));
            lemma_postfix_balanced(operands[0], right + (apply + rest), depth);
            lemma_postfix_balanced(operands[1], apply + rest, depth + 1);
            assert((apply + rest).drop_first() == rest);
        },
    }
}

/// An expression under evaluation.
pub struct Evaluation<'a> {
    code: Vec<Instr<'a>>,
    next: usize,
    stack: Vec<Number>,
    outcome: Option<Result<Option<Number>, EvalError>>,
}

impl<'a> View for Evaluation<'a> {
    type V = SpecEvaluation;

    closed spec fn view(&self) -> SpecEvaluation {
        SpecEvaluation {
            code: instr_views(self.code@),
            next: self.next as nat,
            stack: self.stack@,
            outcome: self.outcome,
        }
    }
}

/// Appends the postfix program of `expr` to `code`.
fn emit<'a>(expr: &Expression<'a>, code: &mut Vec<Instr<'a>>)
    requires
        arithmetic_tree(expr@),
    ensures
        instr_views(final(code)@) == instr_views(old(code)@) + postfix(expr@),
    decreases expr,
{
    let ghost before = instr_views(code@);
    proof {
        lemma_view_kind(*expr);
    }
    match expr {
        Expression::Operand(text) => {
            code.push(Instr::Operand(*text));
            assert(instr_views(code@) == before + postfix(expr@));
        },
        Expression::Operation(operator, operands) => {
            emit(&operands[0], code);
            emit(&operands[1], code);
            let ghost operands_done = instr_views(code@);
            if let Some(op) = arithmetic_operator(operator) {
                code.push(Instr::Apply(op));
                assert(instr_views(code@) == operands_done + seq![SpecInstr::Apply(op)]);
            }
            assert(instr_views(code@) == before + postfix(expr@));
        },
    }
}

/// The state after the instruction at `next` has left `stack`.
fn advance<'a>(code: Vec<Instr<'a>>, next: usize, stack: Vec<Number>, env: &mut Environment) -> (run:
    Evaluation<'a>)
    requires
        next < code.len(),
        balanced(instr_views(code@).skip(next + 1), stack.len() as nat),
    ensures
        (run@, final(env)@) == (SpecEvaluation {
            code: instr_views(code@),
            next: next as nat,
            stack: Seq::empty(),
            outcome: None,
        }).advance(stack@, old(env)@),
{
    let after = next + 1;
    if after < code.len() {
        Evaluation { code, next: after, stack, outcome: None }
    } else {
        let value = stack[stack.len() - 1];
        match code[0] {
            Instr::Target(name) => {
                env.insert(name, value);
                Evaluation { code, next: after, stack, outcome: Some(Ok(None)) }
            },
            _ => Evaluation { code, next: after, stack, outcome: Some(Ok(Some(value))) },
        }
    }
}

impl<'a> Evaluation<'a> {
    #[verifier::type_invariant]
    spec fn well_formed(self) -> bool {
        self@.sound()
    }

    /// Starts the evaluation of `expr`.
    pub fn new(expr: &Expression<'a>) -> (run: Evaluation<'a>)
        requires
            evaluable(expr@),
        ensures
            run@ == start_spec(expr@),
    {
        let mut code: Vec<Instr<'a>> = Vec::new();
        match expr.is_asign() {
            Err(error) => {
                let run = Evaluation { code, next: 0, stack: Vec::new(), outcome: Some(Err(error)) };
                assert(run@.code =~= start_spec(expr@).code);
                run
            },
            Ok(Some((name, value))) => {
                code.push(Instr::Target(name));
                assert(instr_views(code@) == seq![SpecInstr::Target(name@)]);
                emit(value, &mut code);
                proof {
                    let program = seq![SpecInstr::Target(name@)] + postfix(value@);
                    assert(program.skip(0) == program);
                    assert(program.drop_first() == postfix(value@) + Seq::<SpecInstr>::empty());
                    lemma_postfix_balanced(value@, Seq::empty(), 0);
                }
                let run = Evaluation { code, next: 0, stack: Vec::new(), outcome: None };
                assert(run@.code =~= start_spec(expr@).code);
                run
            },
            Ok(None) => {
                assert(instr_views(code@) == Seq::<SpecInstr>::empty());
                emit(expr, &mut code);
                proof {
                    let program = postfix(expr@);
                    assert(program == Seq::<SpecInstr>::empty() + program);
                    assert(program.skip(0) == program + Seq::<SpecInstr>::empty());
                    lemma_postfix_balanced(expr@, Seq::empty(), 0);
                    lemma_postfix_starts_with_operand(expr@);
                }
                let run = Evaluation { code, next: 0, stack: Vec::new(), outcome: None };
                assert(run@.code =~= start_spec(expr@).code);
                run
            },
        }
    }

    /// What the evaluation waits for, or how it ended.
    pub fn pending(&self) -> (step: Step<'a>)
        ensures
            step@ == self@.pending(),
    {
        proof {
            use_type_invariant(self);
        }
        match self.outcome {
            Some(result) => Step::Done(result),
            None => {
                assert(instr_views(self.code@).skip(self.next as int)[0]
                    == self.code[self.next as int]@);
                match self.code[self.next] {
                    Instr::Target(name) => Step::Resolve(name),
                    Instr::Operand(text) => Step::Resolve(text),
                    Instr::Apply(op) => {
                        let n = self.stack.len();
                        Step::Compute(op, self.stack[n - 2], self.stack[n - 1])
                    },
                }
            },
        }
    }

    /// Takes the host's `reply` to the pending step and goes on to the next
    /// step. Only the reply that ends an assignment changes `env`.
    pub fn resume(self, env: &mut Environment, reply: Reply) -> (run: Evaluation<'a>)
        ensures
            (run@, final(env)@) == self@.resume(old(env)@, reply),
            run@.remaining() < self@.remaining() || run@ == self@,
    {
        proof {
            use_type_invariant(&self);
        }
        if self.outcome.is_some() {
            return self;
        }
        let Evaluation { code, next, mut stack, outcome } = self;
        proof {
            let program = instr_views(code@);
            assert(program.skip(next as int)[0] == program[next as int]);
            assert(program.skip(next as int).drop_first() == program.skip(next + 1));
        }
        match (code[next], reply) {
            (Instr::Target(_), Reply::Resolved(Some(_))) => Evaluation {
                code,
                next,
                stack,
                outcome: Some(Err(EvalError::InvalidAssignmentTarget)),
            },
            (Instr::Target(_), Reply::Resolved(None)) => advance(code, next, stack, env),
            (Instr::Operand(_), Reply::Resolved(Some(number))) => {
                stack.push(number);
                advance(code, next, stack, env)
            },
            (Instr::Operand(text), Reply::Resolved(None)) => {
                match env.get(text) {
                    Some(number) => {
                        stack.push(number);
                        advance(code, next, stack, env)
                    },
                    None => Evaluation {
                        code,
                        next,
                        stack,
                        outcome: Some(Err(EvalError::UndefinedVariable)),
                    },
                }
            },
            (Instr::Apply(_), Reply::Computed(number)) => {
                stack.pop();
                stack.pop();
                stack.push(number);
                advance(code, next, stack, env)
            },
            _ => Evaluation { code, next, stack, outcome },
        }
    }
}

/// Whether `host` says what the two functions `number` and `apply` return:
/// whatever a call of `number` gives for a text is what `host` reads out of
/// its characters, and whatever a call of `apply` gives is what `host`
/// computes.
pub open spec fn describes<'a, N, A>(host: Host, number: N, apply: A) -> bool where
    N: Fn(&'a str) -> Option<Number>,
    A: Fn(BinaryOp, Number, Number) -> Number,
 {
    &&& forall|text: &'a str, found: Option<Number>| #[trigger]
        call_ensures(number, (text,), found) ==> found == (host.number)(text@)
    &&& forall|op: BinaryOp, lhs: Number, rhs: Number, out: Number| #[trigger]
        call_ensures(apply, (op, lhs, rhs), out) ==> out == (host.apply)(op, lhs, rhs)
}

/// What every evaluation of `expr` keeps to, whatever the host answers:
/// only an assignment changes a variable, and only the one that it names; a
/// failure and a shown value leave the variables `before` as they are.
pub open spec fn keeps_to(
    expr: SpecExpr,
    before: Map<Seq<char>, Number>,
    result: Result<Option<Number>, EvalError>,
    after: Map<Seq<char>, Number>,
) -> bool {
    match result {
        Err(_) => after == before,
        Ok(Some(_)) => after == before && assignment_of(expr) matches Ok(None),
        Ok(None) => {
            &&& assignment_of(expr) matches Ok(Some((name, _)))
            &&& exists|number: Number| after == #[trigger] before.insert(name, number)
        },
    }
}

/// Evaluates `expr` against `env`, with `number` to read a number out of a
/// text and `apply` to do the arithmetic.
///
/// Returns the value of the expression; for an assignment it stores the
/// value in `env` and returns `None`. It fails with `UndefinedVariable` on
/// an operand that is neither a number nor an assigned variable, and with
/// `InvalidAssignmentTarget` on an assignment to anything but a name that is
/// no number. A failure leaves `env` as it was. All of this is
/// [`evaluate_spec`], for the host that the two functions make up.
pub fn evaluate<'a, N, A>(
    expr: &Expression<'a>,
    env: &mut Environment,
    number: N,
    apply: A,
) -> (result: Result<Option<Number>, EvalError>) where
    N: Fn(&'a str) -> Option<Number>,
    A: Fn(BinaryOp, Number, Number) -> Number,

    requires
        evaluable(expr@),
        forall|text: &'a str| call_requires(number, (text,)),
        forall|op: BinaryOp, lhs: Number, rhs: Number| call_requires(apply, (op, lhs, rhs)),
    ensures
        forall|host: Host| #[trigger]
            describes(host, number, apply) ==> (Evaluated { result, env: final(env)@ })
                == evaluate_spec(expr@, old(env)@, host),
        keeps_to(expr@, old(env)@, result, final(env)@),
        assignment_of(expr@) is Err ==> result == Err::<Option<Number>, EvalError>(
            EvalError::InvalidAssignmentTarget,
        ),
{
    let mut run = Evaluation::new(expr);
    proof {
        assert forall|host: Host| #[trigger] describes(host, number, apply) implies run@.run(
            env@,
            host,
        ) == evaluate_spec(expr@, env@, host) by {
            lemma_run_evaluates(expr@, env@, host);
        }
        if assignment_of(expr@) matches Ok(None) {
            lemma_postfix_starts_with_operand(expr@);
        }
    }
    loop
        invariant
            forall|text: &'a str| call_requires(number, (text,)),
            forall|op: BinaryOp, lhs: Number, rhs: Number| call_requires(apply, (op, lhs, rhs)),
            forall|host: Host| #[trigger]
                describes(host, number, apply) ==> run@.run(env@, host) == evaluate_spec(
                    expr@,
                    old(env)@,
                    host,
                ),
            run@.code == start_spec(expr@).code,
            assignment_of(expr@) matches Ok(Some((name, _))) ==> run@.code[0] == SpecInstr::Target(
                name,
            ),
            assignment_of(expr@) matches Ok(None) ==> run@.code[0] is Operand,
            assignment_of(expr@) is Err ==> run@.outcome == Some(
                Err::<Option<Number>, EvalError>(EvalError::InvalidAssignmentTarget),
            ),
            match run@.outcome {
                Some(result) => keeps_to(expr@, old(env)@, result, env@),
                None => env@ == old(env)@,
            },
        decreases run@.remaining(),
    {
        proof {
            use_type_invariant(&run);
        }
        let ghost before = run@;
        let ghost variables = env@;
        let reply = match run.pending() {
            Step::Done(result) => {
                proof {
                    assert forall|host: Host| #[trigger]
                        describes(host, number, apply) implies (Evaluated {
                        result,
                        env: env@,
                    }) == evaluate_spec(expr@, old(env)@, host) by {
                        lemma_run_ended(before, variables, host);
                    }
                }
                return result;
            },
            Step::Resolve(text) => Reply::Resolved(number(text)),
            Step::Compute(op, lhs, rhs) => Reply::Computed(apply(op, lhs, rhs)),
        };
        run = run.resume(env, reply);
        proof {
            assert forall|host: Host| #[trigger] describes(host, number, apply) implies run@.run(
                env@,
                host,
            ) == evaluate_spec(expr@, old(env)@, host) by {
                assert(reply == answer(host, before.pending()));
                assert(before.run(variables, host) == run@.run(env@, host));
            }
            if run@.outcome == Some(Ok::<Option<Number>, EvalError>(None)) {
                assert(env@ == variables.insert(
                    before.code[0]->Target_0,
                    run@.stack.last(),
                ));
            }
        }
    }
}

/// An evaluation that has ended stays as it is, whatever the host.
pub proof fn lemma_run_ended(
    state: SpecEvaluation,
    env: Map<Seq<char>, Number>,
    host: Host,
)
    requires
        state.outcome is Some,
    ensures
        state.run(env, host) == (Evaluated { result: state.outcome->Some_0, env }),
{
}

/// Running the program of an arithmetic tree computes the value of the tree.
///
/// If the evaluation stands at the first instruction of the program of
/// `expr`, then its run fails as the tree does, or it goes on as from the
/// last of these instructions with the value of the tree pushed.
pub proof fn lemma_run_tree(
    state: SpecEvaluation,
    expr: SpecExpr,
    env: Map<Seq<char>, Number>,
    host: Host,
)
    requires
        arithmetic_tree(expr),
        state.outcome is None,
        state.next + postfix(expr).len() <= state.code.len(),
        state.code.subrange(state.next as int, (state.next + postfix(expr).len()) as int)
            == postfix(expr),
    ensures
        state.run(env, host) == match value_of(expr, env, host) {
            Err(error) => Evaluated { result: Err(error), env },
            Ok(number) => {
                let last = SpecEvaluation {
                    next: (state.next + postfix(expr).len() - 1) as nat,
                    ..state
                };
                let resumed = last.advance(state.stack.push(number), env);
                resumed.0.run(resumed.1, host)
            },
        },
    decreases expr,
{
    let program = postfix(expr);
    let start = state.next as int;
    assert forall|i: int| 0 <= i < program.len() implies state.code[start + i] == program[i] by {
        assert(state.code.subrange(start, start + program.len())[i] == program[i]);
    }
    match expr {
        SpecExpr::Operand(text) => {
            assert(state.code[start] == program[0]);
            assert(state == SpecEvaluation { next: (state.next + program.len() - 1) as nat, ..state });
            lemma_run_ended(state.failed(EvalError::UndefinedVariable), env, host);
        },
        SpecExpr::Operation(operator, operands) => {
            let op = arithmetic(operator)->Some_0;
            let left = postfix(operands[0]);
            let right = postfix(operands[1]);
            lemma_postfix_starts_with_operand(operands[0]);
            lemma_postfix_starts_with_operand(operands[1]);
            assert(state.code.subrange(start, start + left.len()) =~= left) by {
                assert forall|i: int| 0 <= i < left.len() implies state.code[start + i] == left[i] by {
                    assert(program[i] == left[i]);
                }
            }
            lemma_run_tree(state, operands[0], env, host);
            if let Ok(first) = value_of(operands[0], env, host) {
                let middle = SpecEvaluation {
                    next: (start + left.len()) as nat,
                    stack: state.stack.push(first),
                    ..state
                };
                assert(state.run(env, host) == middle.run(env, host));
                assert(middle.code.subrange(start + left.len(), start + left.len() + right.len())
                    =~= right) by {
                    assert forall|i: int| 0 <= i < right.len() implies state.code[start + left.len()
                        + i] == right[i] by {
                        assert(program[left.len() + i] == right[i]);
                    }
                }
                lemma_run_tree(middle, operands[1], env, host);
                if let Ok(second) = value_of(operands[1], env, host) {
                    let ready = SpecEvaluation {
                        next: (start + left.len() + right.len()) as nat,
                        stack: state.stack.push(first).push(second),
                        ..state
                    };
                    assert(middle.run(env, host) == ready.run(env, host));
                    assert(state.code[start + left.len() + right.len()] == SpecInstr::Apply(op)) by {
                        assert(program[(left.len() + right.len()) as int] == SpecInstr::Apply(op));
                    }
                    let number = (host.apply)(op, first, second);
                    assert(ready.pending() == SpecStep::Compute(op, first, second));
                    assert(ready.stack.drop_last().drop_last() =~= state.stack);
                    let last = SpecEvaluation {
                        next: (state.next + program.len() - 1) as nat,
                        ..state
                    };
                    assert(ready.resume(env, answer(host, ready.pending())) == last.advance(
                        state.stack.push(number),
                        env,
                    ));
                }
            }
        },
    }
}

/// Answering every step of an evaluation ends with the meaning of the
/// expression: for every expression that can be evaluated, every set of
/// variables and every host, the run from the start gives the result and
/// leaves the variables that [`evaluate_spec`] states.
pub proof fn lemma_run_evaluates(expr: SpecExpr, env: Map<Seq<char>, Number>, host: Host)
    requires
        evaluable(expr),
    ensures
        start_spec(expr).run(env, host) == evaluate_spec(expr, env, host),
{
    let state = start_spec(expr);
    match assignment_of(expr) {
        Err(_) => {},
        Ok(Some((name, value))) => {
            let program = postfix(value);
            lemma_postfix_starts_with_operand(value);
            assert(state.code[0] == SpecInstr::Target(name));
            assert(state.pending() == SpecStep::Resolve(name));
            if (host.number)(name) is Some {
                lemma_run_ended(state.failed(EvalError::InvalidAssignmentTarget), env, host);
            } else {
                let first = SpecEvaluation { next: 1, ..state };
                assert(state.run(env, host) == first.run(env, host));
                assert(first.code.subrange(1, (1 + program.len()) as int) =~= program);
                lemma_run_tree(first, value, env, host);
                if let Ok(number) = value_of(value, env, host) {
                    let last = SpecEvaluation { next: program.len(), ..state };
                    let resumed = last.advance(state.stack.push(number), env);
                    assert(state.stack.push(number).last() == number);
                    lemma_run_ended(resumed.0, resumed.1, host);
                }
            }
        },
        Ok(None) => {
            let program = postfix(expr);
            lemma_postfix_starts_with_operand(expr);
            assert(state.code.subrange(0, program.len() as int) =~= program);
            lemma_run_tree(state, expr, env, host);
            if let Ok(number) = value_of(expr, env, host) {
                let last = SpecEvaluation { next: (program.len() - 1) as nat, ..state };
                let resumed = last.advance(state.stack.push(number), env);
                assert(state.stack.push(number).last() == number);
                lemma_run_ended(resumed.0, resumed.1, host);
            }
        },
    }
}

} // verus!
