//! Running a program, one step at a time.
//!
//! The steps of a run are the library's; reading and writing are the
//! caller's. `Interpreter::run` prepares an `Execution`, and the caller asks
//! it for one step after another: a step may hand out a number to write, ask
//! for a line of input, or report that the program has ended or failed. A
//! program that loops forever takes steps forever; no step does.

use crate::ast::AstNode;
use crate::error::EvalError;
use crate::eval::{
    evaluate, evaluate_condition, lemma_condition_is_never_malformed,
    lemma_expression_is_never_malformed, truth_of, value_of,
};
use crate::number::{integer_of, parse_integer, trimmed};
use crate::scope::{
    declared, entered, lemma_binding_frame_is_bound, procedure, registered, resolve, stored,
    CallStack, FrameView,
};
use vstd::prelude::*;

verus! {

/// One thing that is left to do.
#[derive(Debug, Clone, Copy)]
pub enum Task<'a> {
    /// Run the node as a statement.
    Visit(&'a AstNode<'a>),
    /// Declare the variable that the node names, with the value 0.
    Declare(&'a AstNode<'a>),
    /// Leave the procedure call: remove its frame.
    Return,
}

/// What one step did.
#[derive(Debug, Clone, Copy, PartialEq, Eq)]
pub enum Step {
    /// The program went on; nothing is to be done outside.
    Advanced,
    /// The program wrote this number.
    Output(i32),
    /// The program waits for a line of input: hand it to `feed`.
    AwaitingInput,
    /// The program has ended.
    Finished,
    /// The program has failed, now or earlier.
    Failed(EvalError),
}

/// The state of a run.
pub struct ExecutionView<'a> {
    /// The call stack, the outermost frame first.
    pub frames: Seq<FrameView<'a>>,
    /// What is left to do; the last task is the next.
    pub control: Seq<Task<'a>>,
    /// The fault that ended the run, if one did.
    pub fault: Option<EvalError>,
}

impl<'a> Task<'a> {
    /// The task is one that a program of the grammar leaves to do.
    pub open spec fn grammatical(self) -> bool {
        match self {
            Task::Visit(node) => node.is_statement() || node.is_block() || node.is_const()
                || node.is_procedure(),
            Task::Declare(node) => node.name() is Some,
            Task::Return => true,
        }
    }
}

/// Every procedure that a frame has on record is a block of the grammar.
pub open spec fn procedures_are_blocks(frames: Seq<FrameView>) -> bool {
    forall|i: int, name: Seq<char>|
        0 <= i < frames.len() && (#[trigger] frames[i].procs.contains_key(name))
            ==> frames[i].procs[name].is_block()
}

/// The tasks that run `nodes` as statements, the first node next.
pub open spec fn visits<'a>(nodes: Seq<AstNode<'a>>) -> Seq<Task<'a>> {
    Seq::new(nodes.len(), |i: int| Task::Visit(&nodes[nodes.len() - 1 - i]))
}

/// The tasks that declare the variables that `nodes` name, the first node
/// next.
pub open spec fn declarations<'a>(nodes: Seq<AstNode<'a>>) -> Seq<Task<'a>> {
    Seq::new(nodes.len(), |i: int| Task::Declare(&nodes[nodes.len() - 1 - i]))
}

/// The number of calls that `control` will leave.
pub open spec fn pending_returns(control: Seq<Task>) -> nat
    decreases control.len(),
{
    if control.len() == 0 {
        0
    } else if control.last() is Return {
        pending_returns(control.drop_last()) + 1
    } else {
        pending_returns(control.drop_last())
    }
}

impl<'a> ExecutionView<'a> {
    /// The run goes on with these frames and tasks.
    pub open spec fn advance(frames: Seq<FrameView<'a>>, control: Seq<Task<'a>>) -> (Self, Step) {
        (ExecutionView { frames, control, fault: None }, Step::Advanced)
    }

    /// The run ends with the fault `e`, which stays recorded.
    pub open spec fn fail(frames: Seq<FrameView<'a>>, control: Seq<Task<'a>>, e: EvalError) -> (
        Self,
        Step,
    ) {
        (ExecutionView { frames, control, fault: Some(e) }, Step::Failed(e))
    }

    /// The run waits for a line of input: it has not failed, and its next
    /// task is an input statement.
    pub open spec fn awaits_input(self) -> bool {
        &&& self.fault is None
        &&& self.control.len() > 0
        &&& self.control.last() matches Task::Visit(node)
        &&& *node is QuestionMark
    }

    /// Every call in progress will return exactly once: there is one frame
    /// for the outermost block and one for each return that is left to do.
    pub open spec fn balanced(self) -> bool {
        self.frames.len() == 1 + pending_returns(self.control)
    }

    /// The state in which the run of `program` starts: one empty frame, and
    /// the program as the one thing to do.
    pub open spec fn start(program: &'a AstNode<'a>) -> Self {
        ExecutionView {
            frames: seq![FrameView::empty()],
            control: seq![Task::Visit(program)],
            fault: None,
        }
    }

    /// The run is that of a program of the grammar: each node that is left to
    /// run is a statement, a block or a declaration where one is expected,
    /// each procedure on record is a block, and calls and returns are
    /// balanced.
    pub open spec fn grammatical(self) -> bool {
        &&& self.balanced()
        &&& forall|i: int| 0 <= i < self.control.len() ==> (#[trigger] self.control[i]).grammatical()
        &&& procedures_are_blocks(self.frames)
        &&& self.fault != Some(EvalError::InvariantViolation)
    }

    /// The state after one step, and what the step reports.
    ///
    /// A failed run stays failed and a finished run finished. Otherwise the
    /// next task is taken off and done.
    pub open spec fn step(self) -> (Self, Step) {
        if self.fault is Some {
            (self, Step::Failed(self.fault.unwrap()))
        } else if self.control.len() == 0 {
            (self, Step::Finished)
        } else {
            let rest = self.control.drop_last();
            match self.control.last() {
                Task::Return => if self.frames.len() >= 2 {
                    Self::advance(self.frames.drop_last(), rest)
                } else {
                    Self::fail(self.frames, rest, EvalError::InvariantViolation)
                },
                Task::Declare(node) => match node.name() {
                    Some(name) => Self::advance(declared(self.frames, name, 0), rest),
                    None => Self::fail(self.frames, rest, EvalError::InvariantViolation),
                },
                Task::Visit(node) => Self::visit(self.frames, rest, node),
            }
        }
    }

    /// What running `node` as a statement does to the frames and to the
    /// tasks `rest` that follow it.
    ///
    /// An input statement stays the next task until `feed` brings its line.
    /// A block's declarations are done in a fixed order, whatever their
    /// order in the text: constants, variables, procedures, and then the
    /// statement. A procedure is recorded, not run. A call runs the
    /// procedure in a frame of its own and leaves it afterwards. A node that
    /// has a value is evaluated and the value dropped; a condition where a
    /// statement is expected does nothing.
    pub open spec fn visit(frames: Seq<FrameView<'a>>, rest: Seq<Task<'a>>, node: &'a AstNode<'a>) -> (
        Self,
        Step,
    ) {
        match *node {
            AstNode::Odd(_) | AstNode::ComposedExpression { .. } => Self::advance(frames, rest),
            AstNode::QuestionMark(_) => (
                ExecutionView { frames, control: rest.push(Task::Visit(node)), fault: None },
                Step::AwaitingInput,
            ),
            AstNode::BeginEnd(statements) => Self::advance(frames, rest + visits(statements@)),
            AstNode::IfThen { condition, statement } => match truth_of(*condition, frames) {
                Ok(true) => Self::advance(frames, rest.push(Task::Visit(&*statement))),
                Ok(false) => Self::advance(frames, rest),
                Err(e) => Self::fail(frames, rest, e),
            },
            AstNode::WhileDo { condition, statement } => match truth_of(*condition, frames) {
                Ok(true) => Self::advance(
                    frames,
                    rest.push(Task::Visit(node)).push(Task::Visit(&*statement)),
                ),
                Ok(false) => Self::advance(frames, rest),
                Err(e) => Self::fail(frames, rest, e),
            },
            AstNode::Assignment { ident, expression } => match ident.name() {
                Some(name) => match value_of(*expression, frames) {
                    Ok(value) => match stored(frames, name, value) {
                        Some(written) => Self::advance(written, rest),
                        None => Self::fail(frames, rest, EvalError::UnresolvedIdentifier),
                    },
                    Err(e) => Self::fail(frames, rest, e),
                },
                None => Self::fail(frames, rest, EvalError::InvariantViolation),
            },
            AstNode::Call(ident) => match ident.name() {
                Some(name) => match procedure(frames, name) {
                    Some(body) => Self::advance(
                        entered(frames),
                        rest.push(Task::Return).push(Task::Visit(body)),
                    ),
                    None => Self::fail(frames, rest, EvalError::UnresolvedIdentifier),
                },
                None => Self::fail(frames, rest, EvalError::InvariantViolation),
            },
            AstNode::ExclaimationMark(expression) => match value_of(*expression, frames) {
                Ok(value) => (
                    ExecutionView { frames, control: rest, fault: None },
                    Step::Output(value),
                ),
                Err(e) => Self::fail(frames, rest, e),
            },
            AstNode::Const { ident, value } => match (ident.name(), *value) {
                (Some(name), AstNode::Number(n)) => Self::advance(declared(frames, name, n), rest),
                _ => Self::fail(frames, rest, EvalError::InvariantViolation),
            },
            AstNode::Procedure { ident, block } => match ident.name() {
                Some(name) => Self::advance(registered(frames, name, &*block), rest),
                None => Self::fail(frames, rest, EvalError::InvariantViolation),
            },
            AstNode::Block { const_decl, var_decl, procedures, statement } => Self::advance(
                frames,
                rest.push(Task::Visit(&*statement)) + visits(procedures@) + declarations(var_decl@)
                    + visits(const_decl@),
            ),
            _ => match value_of(*node, frames) {
                Ok(_) => Self::advance(frames, rest),
                Err(e) => Self::fail(frames, rest, e),
            },
        }
    }

    /// The state after a line of input came, and what that step reports, for
    /// a run that waits for input: the input statement is taken off, the line
    /// read as a number and the number written to the variable.
    pub open spec fn feed(self, line: Seq<char>) -> (Self, Step)
        recommends
            self.awaits_input(),
    {
        let rest = self.control.drop_last();
        match self.control.last() {
            Task::Visit(AstNode::QuestionMark(ident)) => match integer_of(trimmed(line)) {
                Some(value) => match ident.name() {
                    Some(name) => match stored(self.frames, name, value) {
                        Some(written) => Self::advance(written, rest),
                        None => Self::fail(self.frames, rest, EvalError::UnresolvedIdentifier),
                    },
                    None => Self::fail(self.frames, rest, EvalError::InvariantViolation),
                },
                None => Self::fail(self.frames, rest, EvalError::MalformedInput),
            },
            _ => (self, Step::Advanced),
        }
    }
}

/// A program, ready to run.
pub struct Interpreter<'a> {
    ast: AstNode<'a>,
}

impl<'a> Interpreter<'a> {
    /// The program that the interpreter holds.
    pub closed spec fn program(&self) -> &AstNode<'a> {
        &self.ast
    }

    /// Takes the tree of a program.
    pub fn new(ast: AstNode<'a>) -> (interpreter: Self)
        ensures
            *interpreter.program() == ast,
    {
        Interpreter { ast }
    }

    /// Starts a run of the program: nothing is declared yet, and nothing
    /// has been done.
    pub fn run<'b>(&'b self) -> (execution: Execution<'b>)
        ensures
            execution.wf(),
            execution@ == ExecutionView::start(self.program()),
    {
        let mut control: Vec<Task<'b>> = Vec::new();
        control.push(Task::Visit(&self.ast));
        let execution = Execution { stack: CallStack::new(), control, fault: None };
        proof {
            assert(execution@.control =~= seq![Task::Visit(self.program())]);
            assert(execution@.control.drop_last() =~= Seq::<Task>::empty());
            assert(pending_returns(execution@.control.drop_last()) == 0);
        }
        execution
    }
}

/// A run of a program: its call stack and what is left to do.
pub struct Execution<'a> {
    stack: CallStack<'a>,
    control: Vec<Task<'a>>,
    fault: Option<EvalError>,
}

impl<'a> View for Execution<'a> {
    type V = ExecutionView<'a>;

    closed spec fn view(&self) -> ExecutionView<'a> {
        ExecutionView { frames: self.stack@, control: self.control@, fault: self.fault }
    }
}

/// Puts on `control` the tasks that run `nodes`, the first node next.
fn schedule_visits<'a>(control: &mut Vec<Task<'a>>, nodes: &'a Vec<AstNode<'a>>)
    ensures
        final(control)@ == old(control)@ + visits(nodes@),
{
    let ghost before = control@;
    let mut k: usize = nodes.len();
    assert(control@ =~= before + visits(nodes@).take(0));
    while k > 0
        invariant
            k <= nodes.len(),
            control@ == before + visits(nodes@).take(nodes.len() - k),
        decreases k,
    {
        k -= 1;
        control.push(Task::Visit(&nodes[k]));
        assert(control@ =~= before + visits(nodes@).take(nodes.len() - k));
    }
    assert(visits(nodes@).take(nodes.len() as int) =~= visits(nodes@));
}

/// Puts on `control` the tasks that declare the variables that `nodes`
/// name, the first node next.
fn schedule_declarations<'a>(control: &mut Vec<Task<'a>>, nodes: &'a Vec<AstNode<'a>>)
    ensures
        final(control)@ == old(control)@ + declarations(nodes@),
{
    let ghost before = control@;
    let mut k: usize = nodes.len();
    assert(control@ =~= before + declarations(nodes@).take(0));
    while k > 0
        invariant
            k <= nodes.len(),
            control@ == before + declarations(nodes@).take(nodes.len() - k),
        decreases k,
    {
        k -= 1;
        control.push(Task::Declare(&nodes[k]));
        assert(control@ =~= before + declarations(nodes@).take(nodes.len() - k));
    }
    assert(declarations(nodes@).take(nodes.len() as int) =~= declarations(nodes@));
}

impl<'a> Execution<'a> {
    /// The invariant of a run: its calls and returns are balanced, so the
    /// outermost frame is always there.
    pub open spec fn wf(&self) -> bool {
        self@.balanced()
    }

    /// Records the fault that ends the run.
    fn abort(&mut self, e: EvalError) -> (step: Step)
        ensures
            final(self)@ == (ExecutionView {
                frames: old(self)@.frames,
                control: old(self)@.control,
                fault: Some(e),
            }),
            step == Step::Failed(e),
    {
        self.fault = Some(e);
        Step::Failed(e)
    }

    /// Takes one step of the run.
    ///
    /// Write the number of an `Output`, bring a line to `feed` on
    /// `AwaitingInput`, and stop on `Finished` and on `Failed`.
    pub fn step(&mut self) -> (step: Step)
        requires
            old(self).wf(),
        ensures
            final(self).wf(),
            final(self)@ == old(self)@.step().0,
            step == old(self)@.step().1,
    {
        proof {
            lemma_step_keeps_balance(self@);
        }
        if let Some(e) = self.fault {
            return Step::Failed(e);
        }
        let task = match self.control.pop() {
            Some(task) => task,
            None => {
                return Step::Finished;
            },
        };
        match task {
            Task::Return => match self.stack.pop_frame() {
                Ok(()) => Step::Advanced,
                Err(e) => self.abort(e),
            },
            Task::Declare(node) => match node {
                AstNode::Ident(name) => {
                    self.stack.declare(name, 0);
                    Step::Advanced
                },
                _ => self.abort(EvalError::InvariantViolation),
            },
            Task::Visit(node) => self.visit(node),
        }
    }

    /// Runs `node` as a statement.
    fn visit(&mut self, node: &'a AstNode<'a>) -> (step: Step)
        requires
            old(self)@.fault is None,
            old(self)@.frames.len() >= 1,
        ensures
            final(self)@ == ExecutionView::visit(old(self)@.frames, old(self)@.control, node).0,
            step == ExecutionView::visit(old(self)@.frames, old(self)@.control, node).1,
    {
        match node {
            AstNode::Odd(_) | AstNode::ComposedExpression { .. } => Step::Advanced,
            AstNode::QuestionMark(_) => {
                self.control.push(Task::Visit(node));
                Step::AwaitingInput
            },
            AstNode::BeginEnd(statements) => {
                schedule_visits(&mut self.control, statements);
                Step::Advanced
            },
            AstNode::IfThen { condition, statement } => match evaluate_condition(
                condition,
                &self.stack,
            ) {
                Ok(true) => {
                    self.control.push(Task::Visit(&**statement));
                    Step::Advanced
                },
                Ok(false) => Step::Advanced,
                Err(e) => self.abort(e),
            },
            AstNode::WhileDo { condition, statement } => match evaluate_condition(
                condition,
                &self.stack,
            ) {
                Ok(true) => {
                    self.control.push(Task::Visit(node));
                    self.control.push(Task::Visit(&**statement));
                    Step::Advanced
                },
                Ok(false) => Step::Advanced,
                Err(e) => self.abort(e),
            },
            AstNode::Assignment { ident, expression } => match &**ident {
                AstNode::Ident(name) => match evaluate(expression, &self.stack) {
                    Ok(value) => match self.stack.assign(name, value) {
                        Ok(()) => Step::Advanced,
                        Err(e) => self.abort(e),
                    },
                    Err(e) => self.abort(e),
                },
                _ => self.abort(EvalError::InvariantViolation),
            },
            AstNode::Call(ident) => match &**ident {
                AstNode::Ident(name) => match self.stack.lookup_procedure(name) {
                    Ok(body) => {
                        self.stack.push_frame();
                        self.control.push(Task::Return);
                        self.control.push(Task::Visit(body));
                        Step::Advanced
                    },
                    Err(e) => self.abort(e),
                },
                _ => self.abort(EvalError::InvariantViolation),
            },
            AstNode::ExclaimationMark(expression) => match evaluate(expression, &self.stack) {
                Ok(value) => Step::Output(value),
                Err(e) => self.abort(e),
            },
            AstNode::Const { ident, value } => match (&**ident, &**value) {
                (AstNode::Ident(name), AstNode::Number(n)) => {
                    self.stack.declare(name, *n);
                    Step::Advanced
                },
                _ => self.abort(EvalError::InvariantViolation),
            },
            AstNode::Procedure { ident, block } => match &**ident {
                AstNode::Ident(name) => {
                    self.stack.register_procedure(name, &**block);
                    Step::Advanced
                },
                _ => self.abort(EvalError::InvariantViolation),
            },
            AstNode::Block { const_decl, var_decl, procedures, statement } => {
                self.control.push(Task::Visit(&**statement));
                schedule_visits(&mut self.control, procedures);
                schedule_declarations(&mut self.control, var_decl);
                schedule_visits(&mut self.control, const_decl);
                Step::Advanced
            },
            _ => match evaluate(node, &self.stack) {
                Ok(_) => Step::Advanced,
                Err(e) => self.abort(e),
            },
        }
    }

    /// Brings a line of input to a run that waits for one.
    ///
    /// The line is read as a decimal number, the whitespace around it
    /// dropped, and written to the variable of the input statement. Where the
    /// run does not wait for input, the line is not used, nothing changes and
    /// the result is `None`.
    pub fn feed(&mut self, line: &str) -> (result: Option<Step>)
        requires
            old(self).wf(),
        ensures
            final(self).wf(),
            old(self)@.awaits_input() ==> final(self)@ == old(self)@.feed(line@).0 && result
                == Some(old(self)@.feed(line@).1),
            !old(self)@.awaits_input() ==> final(self)@ == old(self)@ && result is None,
    {
        proof {
            if self@.awaits_input() {
                lemma_feed_keeps_balance(self@, line@);
            }
        }
        if self.fault.is_some() || self.control.len() == 0 {
            return None;
        }
        let ident = match self.control[self.control.len() - 1] {
            Task::Visit(AstNode::QuestionMark(ident)) => ident,
            _ => {
                return None;
            },
        };
        self.control.pop();
        let value = match parse_integer(line) {
            Some(value) => value,
            None => {
                return Some(self.abort(EvalError::MalformedInput));
            },
        };
        match &**ident {
            AstNode::Ident(name) => match self.stack.assign(name, value) {
                Ok(()) => Some(Step::Advanced),
                Err(e) => Some(self.abort(e)),
            },
            _ => Some(self.abort(EvalError::InvariantViolation)),
        }
    }

    /// Reads a variable as the program would at this point of the run.
    pub fn variable(&self, name: &str) -> (result: Result<i32, EvalError>)
        ensures
            result == match resolve(self@.frames, name@) {
                Some(value) => Ok::<i32, EvalError>(value),
                None => Err(EvalError::UnresolvedIdentifier),
            },
    {
        self.stack.resolve_ref(name)
    }

    /// The number of frames on the call stack: one more than the calls in
    /// progress.
    pub fn depth(&self) -> (depth: usize)
        ensures
            depth == self@.frames.len(),
    {
        self.stack.depth()
    }
}

/// Tasks that only visit or declare leave no call.
pub proof fn lemma_pending_returns_of_tasks(control: Seq<Task>)
    requires
        forall|i: int| 0 <= i < control.len() ==> !(#[trigger] control[i] is Return),
    ensures
        pending_returns(control) == 0,
    decreases control.len(),
{
    if control.len() > 0 {
        assert(!(control[control.len() - 1] is Return));
        lemma_pending_returns_of_tasks(control.drop_last());
    }
}

/// The returns of two runs of tasks, one after the other, add up.
pub proof fn lemma_pending_returns_add_up(first: Seq<Task>, second: Seq<Task>)
    ensures
        pending_returns(first + second) == pending_returns(first) + pending_returns(second),
    decreases second.len(),
{
    if second.len() == 0 {
        assert(first + second =~= first);
    } else {
        assert((first + second).drop_last() =~= first + second.drop_last());
        assert((first + second).last() == second.last());
        lemma_pending_returns_add_up(first, second.drop_last());
    }
}

/// Frames and returns stay balanced from step to step: a frame is pushed
/// only together with the task that removes it, and removed only by that
/// task. So each call returns exactly once, by whatever statements its body
/// ends.
pub proof fn lemma_step_keeps_balance(state: ExecutionView)
    requires
        state.balanced(),
    ensures
        state.step().0.balanced(),
{
    if state.fault is None && state.control.len() > 0 {
        let rest = state.control.drop_last();
        match state.control.last() {
            Task::Return => {},
            Task::Declare(node) => {},
            Task::Visit(node) => {
                lemma_visit_keeps_balance(state.frames, rest, node);
            },
        }
    }
}

/// Running a statement keeps frames and returns balanced.
pub proof fn lemma_visit_keeps_balance<'a>(
    frames: Seq<FrameView<'a>>,
    rest: Seq<Task<'a>>,
    node: &'a AstNode<'a>,
)
    requires
        frames.len() == 1 + pending_returns(rest),
    ensures
        ExecutionView::visit(frames, rest, node).0.balanced(),
{
    let after = ExecutionView::visit(frames, rest, node).0;
    match *node {
        AstNode::BeginEnd(statements) => {
            lemma_pending_returns_of_tasks(visits(statements@));
            lemma_pending_returns_add_up(rest, visits(statements@));
        },
        AstNode::QuestionMark(_) => {
            assert(after.control.drop_last() =~= rest);
        },
        AstNode::IfThen { condition, statement } => {
            assert(rest.push(Task::Visit(&*statement)).drop_last() =~= rest);
        },
        AstNode::WhileDo { condition, statement } => {
            let once = rest.push(Task::Visit(node));
            assert(once.drop_last() =~= rest);
            assert(pending_returns(once) == pending_returns(rest));
            assert(once.push(Task::Visit(&*statement)).drop_last() =~= once);
        },
        AstNode::Assignment { ident, expression } => {
            if ident.name() is Some {
                lemma_binding_frame_is_bound(frames, ident.name().unwrap());
            }
        },
        AstNode::Call(ident) => {
            let once = rest.push(Task::Return);
            assert(once.drop_last() =~= rest);
            assert(pending_returns(once) == pending_returns(rest) + 1);
            if ident.name() is Some && procedure(frames, ident.name().unwrap()) is Some {
                let body = procedure(frames, ident.name().unwrap()).unwrap();
                assert(once.push(Task::Visit(body)).drop_last() =~= once);
            }
        },
        AstNode::Block { const_decl, var_decl, procedures, statement } => {
            let first = rest.push(Task::Visit(&*statement));
            assert(first.drop_last() =~= rest);
            lemma_pending_returns_of_tasks(visits(procedures@));
            lemma_pending_returns_of_tasks(declarations(var_decl@));
            lemma_pending_returns_of_tasks(visits(const_decl@));
            lemma_pending_returns_add_up(first, visits(procedures@));
            lemma_pending_returns_add_up(first + visits(procedures@), declarations(var_decl@));
            lemma_pending_returns_add_up(
                first + visits(procedures@) + declarations(var_decl@),
                visits(const_decl@),
            );
        },
        _ => {},
    }
}

/// A line of input keeps frames and returns balanced.
pub proof fn lemma_feed_keeps_balance(state: ExecutionView, line: Seq<char>)
    requires
        state.balanced(),
        state.awaits_input(),
    ensures
        state.feed(line).0.balanced(),
{
    match state.control.last() {
        Task::Visit(AstNode::QuestionMark(ident)) => {
            if ident.name() is Some {
                lemma_binding_frame_is_bound(state.frames, ident.name().unwrap());
            }
        },
        _ => {},
    }
}

/// A run starts as that of a program of the grammar where its program is a
/// block of the grammar.
pub proof fn lemma_start_is_grammatical<'a>(program: &'a AstNode<'a>)
    requires
        program.is_block(),
    ensures
        ExecutionView::start(program).grammatical(),
{
    let state = ExecutionView::start(program);
    assert(state.control.drop_last() =~= Seq::<Task>::empty());
    assert(pending_returns(state.control.drop_last()) == 0);
}

/// What the parser promises is all that the evaluator needs: the run of a
/// program of the grammar stays one from step to step, and no step of it
/// fails with `InvariantViolation`.
pub proof fn lemma_step_keeps_grammar(state: ExecutionView)
    requires
        state.grammatical(),
    ensures
        state.step().0.grammatical(),
        state.step().1 != Step::Failed(EvalError::InvariantViolation),
{
    lemma_step_keeps_balance(state);
    if state.fault is None && state.control.len() > 0 {
        let rest = state.control.drop_last();
        let last = state.control.last();
        assert(state.control[state.control.len() - 1].grammatical());
        assert forall|i: int| 0 <= i < rest.len() implies (#[trigger] rest[i]).grammatical() by {
            assert(rest[i] == state.control[i]);
        }
        match last {
            Task::Return => {
                let after = state.frames.drop_last();
                if state.frames.len() >= 2 {
                    assert forall|i: int, name: Seq<char>|
                        0 <= i < after.len() && (#[trigger] after[i].procs.contains_key(
                            name,
                        )) implies after[i].procs[name].is_block() by {
                        assert(after[i] == state.frames[i]);
                    }
                } else {
                    assert(pending_returns(state.control) >= 1);
                }
            },
            Task::Declare(node) => {
                lemma_declaring_keeps_procedures(state.frames, node.name().unwrap(), 0);
            },
            Task::Visit(node) => {
                lemma_visit_keeps_grammar(state.frames, rest, node);
            },
        }
    }
}

/// Running a statement, a block or a declaration of the grammar leaves the
/// run one of the grammar, and does not fail with `InvariantViolation`.
pub proof fn lemma_visit_keeps_grammar<'a>(
    frames: Seq<FrameView<'a>>,
    rest: Seq<Task<'a>>,
    node: &'a AstNode<'a>,
)
    requires
        frames.len() == 1 + pending_returns(rest),
        forall|i: int| 0 <= i < rest.len() ==> (#[trigger] rest[i]).grammatical(),
        procedures_are_blocks(frames),
        Task::Visit(node).grammatical(),
    ensures
        ExecutionView::visit(frames, rest, node).0.grammatical(),
        ExecutionView::visit(frames, rest, node).1 != Step::Failed(EvalError::InvariantViolation),
{
    lemma_visit_keeps_balance(frames, rest, node);
    let after = ExecutionView::visit(frames, rest, node).0;
    match *node {
        AstNode::BeginEnd(statements) => {
            let more = visits(statements@);
            assert forall|i: int| 0 <= i < after.control.len() implies (
            #[trigger] after.control[i]).grammatical() by {
                if i >= rest.len() {
                    assert(after.control[i] == more[i - rest.len()]);
                    assert(statements[statements.len() - 1 - (i - rest.len())].is_statement());
                } else {
                    assert(after.control[i] == rest[i]);
                }
            }
        },
        AstNode::IfThen { condition, statement } => {
            lemma_condition_is_never_malformed(*condition, frames);
            assert forall|i: int| 0 <= i < after.control.len() implies (
            #[trigger] after.control[i]).grammatical() by {
                if i < rest.len() {
                    assert(after.control[i] == rest[i]);
                }
            }
        },
        AstNode::WhileDo { condition, statement } => {
            lemma_condition_is_never_malformed(*condition, frames);
            assert forall|i: int| 0 <= i < after.control.len() implies (
            #[trigger] after.control[i]).grammatical() by {
                if i < rest.len() {
                    assert(after.control[i] == rest[i]);
                }
            }
        },
        AstNode::Assignment { ident, expression } => {
            lemma_expression_is_never_malformed(*expression, frames);
            match value_of(*expression, frames) {
                Ok(value) => {
                    lemma_storing_keeps_procedures(frames, ident.name().unwrap(), value);
                },
                Err(_) => {},
            }
        },
        AstNode::Call(ident) => {
            let name = ident.name().unwrap();
            match procedure(frames, name) {
                Some(body) => {
                    assert(frames[frames.len() - 1].procs.contains_key(name));
                    assert(body.is_block());
                    let inner = entered(frames);
                    assert forall|i: int, other: Seq<char>|
                        0 <= i < inner.len() && (#[trigger] inner[i].procs.contains_key(
                            other,
                        )) implies inner[i].procs[other].is_block() by {
                        if i < frames.len() {
                            assert(inner[i] == frames[i]);
                        }
                    }
                    assert forall|i: int| 0 <= i < after.control.len() implies (
                    #[trigger] after.control[i]).grammatical() by {
                        if i < rest.len() {
                            assert(after.control[i] == rest[i]);
                        }
                    }
                },
                None => {},
            }
        },
        AstNode::ExclaimationMark(expression) => {
            lemma_expression_is_never_malformed(*expression, frames);
        },
        AstNode::QuestionMark(_) => {
            assert forall|i: int| 0 <= i < after.control.len() implies (
            #[trigger] after.control[i]).grammatical() by {
                if i < rest.len() {
                    assert(after.control[i] == rest[i]);
                }
            }
        },
        AstNode::Const { ident, value } => {
            match *value {
                AstNode::Number(n) => {
                    lemma_declaring_keeps_procedures(frames, ident.name().unwrap(), n);
                },
                _ => {},
            }
        },
        AstNode::Procedure { ident, block } => {
            let name = ident.name().unwrap();
            let recorded = registered(frames, name, &*block);
            assert forall|i: int, other: Seq<char>|
                0 <= i < recorded.len() && (#[trigger] recorded[i].procs.contains_key(
                    other,
                )) implies recorded[i].procs[other].is_block() by {
                if i < frames.len() - 1 {
                    assert(recorded[i] == frames[i]);
                } else if other != name {
                    assert(frames[i].procs.contains_key(other));
                }
            }
        },
        AstNode::Block { const_decl, var_decl, procedures, statement } => {
            let first = rest.push(Task::Visit(&*statement));
            let second = first + visits(procedures@);
            let third = second + declarations(var_decl@);
            assert forall|i: int| 0 <= i < after.control.len() implies (
            #[trigger] after.control[i]).grammatical() by {
                if i < rest.len() {
                    assert(after.control[i] == rest[i]);
                } else if i < first.len() {
                    assert(after.control[i] == Task::Visit(&*statement));
                } else if i < second.len() {
                    let k = i - first.len();
                    assert(after.control[i] == visits(procedures@)[k]);
                    assert(procedures[procedures.len() - 1 - k].is_procedure());
                } else if i < third.len() {
                    let k = i - second.len();
                    assert(after.control[i] == declarations(var_decl@)[k]);
                    assert(var_decl[var_decl.len() - 1 - k].name() is Some);
                } else {
                    let k = i - third.len();
                    assert(after.control[i] == visits(const_decl@)[k]);
                    assert(const_decl[const_decl.len() - 1 - k].is_const());
                }
            }
        },
        _ => {},
    }
}

/// A line of input leaves the run of a program of the grammar one of the
/// grammar, and the step it makes does not fail with `InvariantViolation`.
pub proof fn lemma_feed_keeps_grammar(state: ExecutionView, line: Seq<char>)
    requires
        state.grammatical(),
        state.awaits_input(),
    ensures
        state.feed(line).0.grammatical(),
        state.feed(line).1 != Step::Failed(EvalError::InvariantViolation),
{
    lemma_feed_keeps_balance(state, line);
    let rest = state.control.drop_last();
    assert(state.control[state.control.len() - 1].grammatical());
    assert forall|i: int| 0 <= i < rest.len() implies (#[trigger] rest[i]).grammatical() by {
        assert(rest[i] == state.control[i]);
    }
    match state.control.last() {
        Task::Visit(AstNode::QuestionMark(ident)) => {
            match integer_of(trimmed(line)) {
                Some(value) => {
                    lemma_storing_keeps_procedures(state.frames, ident.name().unwrap(), value);
                },
                None => {},
            }
        },
        _ => {},
    }
}

/// Declaring a variable changes no procedure on record.
pub proof fn lemma_declaring_keeps_procedures(frames: Seq<FrameView>, name: Seq<char>, value: i32)
    requires
        frames.len() >= 1,
        procedures_are_blocks(frames),
    ensures
        procedures_are_blocks(declared(frames, name, value)),
{
    let after = declared(frames, name, value);
    assert forall|i: int, other: Seq<char>|
        0 <= i < after.len() && (#[trigger] after[i].procs.contains_key(
            other,
        )) implies after[i].procs[other].is_block() by {
        assert(after[i].procs == frames[i].procs);
        assert(frames[i].procs.contains_key(other));
    }
}

/// Writing to a variable changes no procedure on record.
pub proof fn lemma_storing_keeps_procedures(frames: Seq<FrameView>, name: Seq<char>, value: i32)
    requires
        procedures_are_blocks(frames),
    ensures
        stored(frames, name, value) matches Some(after) ==> procedures_are_blocks(after),
{
    match stored(frames, name, value) {
        Some(after) => {
            lemma_binding_frame_is_bound(frames, name);
            assert forall|i: int, other: Seq<char>|
                0 <= i < after.len() && (#[trigger] after[i].procs.contains_key(
                    other,
                )) implies after[i].procs[other].is_block() by {
                assert(after[i].procs == frames[i].procs);
                assert(frames[i].procs.contains_key(other));
            }
        },
        None => {},
    }
}

} // verus!
