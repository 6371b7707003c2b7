//! What a program does, one step at a time.
//!
//! An evaluation is a state and a rule that takes a state to the next one.
//! The state holds the work still to be done, as a stack of tasks; the values
//! computed and not yet used, as a second stack; the environment; and the
//! heap. Each step takes the top task and either computes with the top
//! values, or replaces the task by the tasks that its parts call for. A step
//! also says what the surroundings are to do: nothing, write a value, or read
//! one. The top of a stack is the end of its sequence.

use vstd::prelude::*;

use crate::arith::{bin_value, un_value};
use crate::ast::{CmdModel, ExprModel, UnOp};
use crate::error::EvalError;
use crate::mem::{first_fit, free_run, with_run};

verus! {

/// The built-in functions.
#[derive(Clone, Copy, Debug, PartialEq, Eq, Structural)]
pub enum Builtin {
    /// `write_int(e)`: writes the value of `e` in decimal; its value is that
    /// of `e`.
    WriteInt,
    /// `write_char(e)`: writes the character whose code is the low eight bits
    /// of the value of `e`; its value is that of `e`.
    WriteChar,
    /// `read_int()`: its value is the integer read.
    ReadInt,
    /// `read_char()`: its value is the code of the character read.
    ReadChar,
    /// `malloc(e)`: allocates as many cells as the value of `e`, each holding
    /// 0; its value is the index of the first.
    Malloc,
    /// `free(e)`: releases the allocation that starts at the value of `e`;
    /// its value is 1 if there was one, else 0.
    Free,
}

/// What the surroundings are to do after a step.
#[derive(Clone, Copy, Debug, PartialEq, Eq, Structural)]
pub enum Action {
    /// Nothing: take the next step.
    Continue,
    /// Write this integer in decimal, then take the next step.
    WriteInt(i128),
    /// Write the character with this code, then take the next step.
    WriteChar(u8),
    /// Read an integer and hand it over.
    ReadInt,
    /// Read a character and hand it over.
    ReadChar,
    /// Nothing is left to do.
    Done,
    /// The evaluation has failed, for this reason.
    Failed(EvalError),
}

/// What an evaluation that has stopped for input is waiting for.
#[derive(Clone, Copy, Debug, PartialEq, Eq, Structural)]
pub enum Input {
    Int,
    Char,
}

/// One piece of work.
pub enum TaskModel {
    /// Evaluate the expression and push its value.
    Eval(ExprModel),
    /// Execute the command.
    Exec(CmdModel),
    /// Execute the commands of the sequence from the given index on.
    Rest(Seq<CmdModel>, nat),
    /// Pop a value, apply the prefix operator, push the result.
    Unary(UnOp),
    /// Pop the right operand, then the left, apply the infix operator, push
    /// the result.
    Binary(crate::ast::BinOp),
    /// Pop the argument, call the built-in function on it, push its value.
    Call(Builtin),
    /// Pop a value and drop it.
    Discard,
    /// Assign the top value to the target.
    AssignTo(ExprModel),
    /// Pop an offset, then a value, and put the value into the cell at the
    /// offset.
    Poke,
    /// Pop a value; go on with the first command if it is not 0, else with
    /// the second.
    Branch(CmdModel, CmdModel),
    /// Pop a value; if it is not 0, execute the body and come back to the
    /// condition.
    Loop(ExprModel, CmdModel),
}

/// The heap as a mathematical value.
pub struct Heap {
    /// The cells, by index.
    pub cells: Seq<Option<i128>>,
    /// The allocation table: first cell to length.
    pub table: Map<usize, usize>,
}

/// The state of an evaluation.
#[verifier::ext_equal]
pub struct State {
    /// The work to be done; the next task is the last.
    pub tasks: Seq<TaskModel>,
    /// The values computed and not yet used; the newest is the last.
    pub values: Seq<i128>,
    /// The environment.
    pub registers: Map<Seq<u8>, i128>,
    /// The heap.
    pub heap: Heap,
    /// The input that the evaluation is waiting for, if it is.
    pub waiting: Option<Input>,
    /// Why the evaluation failed, if it did.
    pub failed: Option<EvalError>,
}

/// The bytes of `write_int`.
pub open spec fn name_write_int() -> Seq<u8> {
    seq![
        'w' as u8,
        'r' as u8,
        'i' as u8,
        't' as u8,
        'e' as u8,
        '_' as u8,
        'i' as u8,
        'n' as u8,
        't' as u8,
    ]
}

/// The bytes of `write_char`.
pub open spec fn name_write_char() -> Seq<u8> {
    seq![
        'w' as u8,
        'r' as u8,
        'i' as u8,
        't' as u8,
        'e' as u8,
        '_' as u8,
        'c' as u8,
        'h' as u8,
        'a' as u8,
        'r' as u8,
    ]
}

/// The bytes of `read_int`.
pub open spec fn name_read_int() -> Seq<u8> {
    seq!['r' as u8, 'e' as u8, 'a' as u8, 'd' as u8, '_' as u8, 'i' as u8, 'n' as u8, 't' as u8]
}

/// The bytes of `read_char`.
pub open spec fn name_read_char() -> Seq<u8> {
    seq![
        'r' as u8,
        'e' as u8,
        'a' as u8,
        'd' as u8,
        '_' as u8,
        'c' as u8,
        'h' as u8,
        'a' as u8,
        'r' as u8,
    ]
}

/// The bytes of `malloc`.
pub open spec fn name_malloc() -> Seq<u8> {
    seq!['m' as u8, 'a' as u8, 'l' as u8, 'l' as u8, 'o' as u8, 'c' as u8]
}

/// The bytes of `free`.
pub open spec fn name_free() -> Seq<u8> {
    seq!['f' as u8, 'r' as u8, 'e' as u8, 'e' as u8]
}

/// The built-in function that a call names, if its name is one and it has an
/// argument exactly where the function takes one.
pub open spec fn builtin_of(name: Seq<u8>, has_arg: bool) -> Option<Builtin> {
    if name == name_write_int() && has_arg {
        Some(Builtin::WriteInt)
    } else if name == name_write_char() && has_arg {
        Some(Builtin::WriteChar)
    } else if name == name_read_int() && !has_arg {
        Some(Builtin::ReadInt)
    } else if name == name_read_char() && !has_arg {
        Some(Builtin::ReadChar)
    } else if name == name_malloc() && has_arg {
        Some(Builtin::Malloc)
    } else if name == name_free() && has_arg {
        Some(Builtin::Free)
    } else {
        None
    }
}

/// Whether `v` can be an index into the heap at all.
pub open spec fn is_offset(v: i128) -> bool {
    0 <= v <= usize::MAX
}

/// The value in the cell at `offset`.
pub open spec fn load(heap: Heap, offset: i128) -> Result<i128, EvalError> {
    if is_offset(offset) && offset < heap.cells.len() && heap.cells[offset as int] is Some {
        Ok(heap.cells[offset as int]->0)
    } else {
        Err(EvalError::InvalidMemoryAccess)
    }
}

/// The heap with `value` in the cell at `offset`.
pub open spec fn store(heap: Heap, offset: i128, value: i128) -> Result<Heap, EvalError> {
    if is_offset(offset) && offset < heap.cells.len() && heap.cells[offset as int] is Some {
        Ok(Heap { cells: heap.cells.update(offset as int, Some(value)), table: heap.table })
    } else {
        Err(EvalError::InvalidMemoryAccess)
    }
}

/// Where first-fit places an allocation of `size` cells.
pub open spec fn place(cells: Seq<Option<i128>>, size: int) -> int {
    choose|start: int| first_fit(cells, size, start)
}

/// The heap after an allocation of `size` cells that hold 0, and the index of
/// the first of them. It fails where `size` is not positive, and where the
/// cells would have to be added at the end and the heap would outgrow
/// `usize`.
pub open spec fn allocate(heap: Heap, size: i128) -> Result<(Heap, i128), EvalError> {
    if size <= 0 || size > usize::MAX || (heap.cells.len() + size > usize::MAX && !exists|s: int|
        free_run(heap.cells, s, size as int)) {
        Err(EvalError::InvalidArgument)
    } else {
        let start = place(heap.cells, size as int);
        Ok(
            (
                Heap {
                    cells: with_run(heap.cells, start, size as int, Some(0i128)),
                    table: heap.table.insert(start as usize, size as usize),
                },
                start as i128,
            ),
        )
    }
}

/// The heap after the release of the allocation that starts at `offset`, and
/// 1; or, where no allocation starts there, the heap as it is, and 0.
pub open spec fn release(heap: Heap, offset: i128) -> (Heap, i128) {
    if is_offset(offset) && heap.table.contains_key(offset as usize) {
        (
            Heap {
                cells: with_run(
                    heap.cells,
                    offset as int,
                    heap.table[offset as usize] as int,
                    None,
                ),
                table: heap.table.remove(offset as usize),
            },
            1,
        )
    } else {
        (heap, 0)
    }
}

/// The state in which `task` is all there is to do, nothing has been
/// computed, and the environment and the heap are as given.
pub open spec fn start(task: TaskModel, registers: Map<Seq<u8>, i128>, heap: Heap) -> State {
    State {
        tasks: seq![task],
        values: Seq::empty(),
        registers,
        heap,
        waiting: None,
        failed: None,
    }
}

/// The state `s` after a failure for the reason `e`.
pub open spec fn fail(s: State, e: EvalError) -> (State, Action) {
    (State { failed: Some(e), ..s }, Action::Failed(e))
}

/// The state `s` with `v` pushed.
pub open spec fn push(s: State, v: i128) -> State {
    State { values: s.values.push(v), ..s }
}

/// The state `s` with its top value popped.
pub open spec fn pop(s: State) -> State {
    State { values: s.values.drop_last(), ..s }
}

/// The state `s` with the task `t` on top.
pub open spec fn with_task(s: State, t: TaskModel) -> State {
    State { tasks: s.tasks.push(t), ..s }
}

/// The step for `Eval(e)`, from the state `s` without that task.
pub open spec fn step_eval(s: State, e: ExprModel) -> (State, Action) {
    match e {
        ExprModel::Int(i) => (push(s, i), Action::Continue),
        ExprModel::Ident(x) => if s.registers.contains_key(x) {
            (push(s, s.registers[x]), Action::Continue)
        } else {
            fail(s, EvalError::UndefinedVariable)
        },
        ExprModel::UnOp(op, inner) => (
            with_task(with_task(s, TaskModel::Unary(op)), TaskModel::Eval(*inner)),
            Action::Continue,
        ),
        ExprModel::BinOp(op, l, r) => (
            with_task(
                with_task(with_task(s, TaskModel::Binary(op)), TaskModel::Eval(*r)),
                TaskModel::Eval(*l),
            ),
            Action::Continue,
        ),
        ExprModel::Call(name, arg) => match builtin_of(name, arg is Some) {
            None => fail(s, EvalError::InvalidCall),
            Some(Builtin::ReadInt) => (State { waiting: Some(Input::Int), ..s }, Action::ReadInt),
            Some(Builtin::ReadChar) => (
                State { waiting: Some(Input::Char), ..s },
                Action::ReadChar,
            ),
            Some(f) => (
                with_task(with_task(s, TaskModel::Call(f)), TaskModel::Eval(*arg->0)),
                Action::Continue,
            ),
        },
    }
}

/// The step for `Unary(op)`.
pub open spec fn step_unary(s: State, op: UnOp) -> (State, Action) {
    let v = s.values.last();
    match op {
        UnOp::Deref => match load(s.heap, v) {
            Ok(w) => (push(pop(s), w), Action::Continue),
            Err(e) => fail(pop(s), e),
        },
        _ => (push(pop(s), un_value(op, v)), Action::Continue),
    }
}

/// The step for `Binary(op)`.
pub open spec fn step_binary(s: State, op: crate::ast::BinOp) -> (State, Action) {
    let r = s.values.last();
    let l = s.values.drop_last().last();
    match bin_value(op, l, r) {
        Ok(v) => (push(pop(pop(s)), v), Action::Continue),
        Err(e) => fail(pop(pop(s)), e),
    }
}

/// The step for `Call(f)`, where `f` takes an argument.
pub open spec fn step_call(s: State, f: Builtin) -> (State, Action) {
    let v = s.values.last();
    match f {
        Builtin::WriteInt => (s, Action::WriteInt(v)),
        Builtin::WriteChar => (s, Action::WriteChar((v % 256) as u8)),
        Builtin::Malloc => match allocate(s.heap, v) {
            Ok((heap, start)) => (push(pop(State { heap, ..s }), start), Action::Continue),
            Err(e) => fail(pop(s), e),
        },
        Builtin::Free => (
            push(pop(State { heap: release(s.heap, v).0, ..s }), release(s.heap, v).1),
            Action::Continue,
        ),
        _ => (s, Action::Continue),
    }
}

/// The step for `Exec(c)`.
pub open spec fn step_exec(s: State, c: CmdModel) -> (State, Action) {
    match c {
        CmdModel::Expr(e) => (
            with_task(with_task(s, TaskModel::Discard), TaskModel::Eval(e)),
            Action::Continue,
        ),
        CmdModel::Decl(x) => (State { registers: s.registers.insert(x, 0), ..s }, Action::Continue),
        CmdModel::Assign(target, value) => (
            with_task(with_task(s, TaskModel::AssignTo(target)), TaskModel::Eval(value)),
            Action::Continue,
        ),
        CmdModel::Sequence(cs) => (with_task(s, TaskModel::Rest(cs, 0)), Action::Continue),
        CmdModel::If(cond, first, second) => (
            with_task(with_task(s, TaskModel::Branch(*first, *second)), TaskModel::Eval(cond)),
            Action::Continue,
        ),
        CmdModel::While(cond, body) => (
            with_task(with_task(s, TaskModel::Loop(cond, *body)), TaskModel::Eval(cond)),
            Action::Continue,
        ),
    }
}

/// The step for `Rest(cs, i)`.
pub open spec fn step_rest(s: State, cs: Seq<CmdModel>, i: nat) -> (State, Action) {
    if i < cs.len() {
        (with_task(with_task(s, TaskModel::Rest(cs, i + 1)), TaskModel::Exec(cs[i as int])), Action::Continue)
    } else {
        (s, Action::Continue)
    }
}

/// The step for `AssignTo(target)`: an identifier is bound to the top value;
/// for a dereference the offset is evaluated next; any other target fails.
pub open spec fn step_assign(s: State, target: ExprModel) -> (State, Action) {
    match target {
        ExprModel::Ident(x) => (
            State { registers: s.registers.insert(x, s.values.last()), ..pop(s) },
            Action::Continue,
        ),
        ExprModel::UnOp(UnOp::Deref, inner) => (
            with_task(with_task(s, TaskModel::Poke), TaskModel::Eval(*inner)),
            Action::Continue,
        ),
        _ => fail(pop(s), EvalError::InvalidAssignmentTarget),
    }
}

/// The step for `Poke`.
pub open spec fn step_poke(s: State) -> (State, Action) {
    let offset = s.values.last();
    let value = s.values.drop_last().last();
    match store(s.heap, offset, value) {
        Ok(heap) => (State { heap, ..pop(pop(s)) }, Action::Continue),
        Err(e) => fail(pop(pop(s)), e),
    }
}

/// The step for `Branch(first, second)`.
pub open spec fn step_branch(s: State, first: CmdModel, second: CmdModel) -> (State, Action) {
    if s.values.last() != 0 {
        (with_task(pop(s), TaskModel::Exec(first)), Action::Continue)
    } else {
        (with_task(pop(s), TaskModel::Exec(second)), Action::Continue)
    }
}

/// The step for `Loop(cond, body)`.
pub open spec fn step_loop(s: State, cond: ExprModel, body: CmdModel) -> (State, Action) {
    if s.values.last() != 0 {
        (
            with_task(
                with_task(with_task(pop(s), TaskModel::Loop(cond, body)), TaskModel::Eval(cond)),
                TaskModel::Exec(body),
            ),
            Action::Continue,
        )
    } else {
        (pop(s), Action::Continue)
    }
}

/// The step that the task `t` calls for, from the state `s` without that
/// task.
pub open spec fn perform(s: State, t: TaskModel) -> (State, Action) {
    match t {
        TaskModel::Eval(e) => step_eval(s, e),
        TaskModel::Exec(c) => step_exec(s, c),
        TaskModel::Rest(cs, i) => step_rest(s, cs, i),
        TaskModel::Unary(op) => step_unary(s, op),
        TaskModel::Binary(op) => step_binary(s, op),
        TaskModel::Call(f) => step_call(s, f),
        TaskModel::Discard => (pop(s), Action::Continue),
        TaskModel::AssignTo(target) => step_assign(s, target),
        TaskModel::Poke => step_poke(s),
        TaskModel::Branch(first, second) => step_branch(s, first, second),
        TaskModel::Loop(cond, body) => step_loop(s, cond, body),
    }
}

/// One step: the next state, and what the surroundings are to do. A state
/// that has failed, is waiting for input or has nothing left to do stays as it
/// is, and says so again.
#[verifier::opaque]
pub open spec fn step(s: State) -> (State, Action) {
    if s.failed is Some {
        (s, Action::Failed(s.failed->0))
    } else if s.waiting is Some {
        (
            s,
            match s.waiting->0 {
                Input::Int => Action::ReadInt,
                Input::Char => Action::ReadChar,
            },
        )
    } else if s.tasks.len() == 0 {
        (s, Action::Done)
    } else {
        perform(State { tasks: s.tasks.drop_last(), ..s }, s.tasks.last())
    }
}

/// The task `t` on top of the work makes the next step what `t` says.
pub proof fn lemma_step_with_task(s: State, t: TaskModel)
    requires
        s.failed is None,
        s.waiting is None,
    ensures
        step(with_task(s, t)) == perform(s, t),
{
    reveal(step);
    assert(with_task(s, t).tasks.drop_last() =~= s.tasks);
    assert(State { tasks: with_task(s, t).tasks.drop_last(), ..with_task(s, t) } =~= s);
}

/// The state after the integer `v` was handed over: where the evaluation
/// was waiting for an integer, `v` is pushed and it waits no more; else
/// nothing changes.
pub open spec fn supply_int(s: State, v: i128) -> State {
    if s.failed is None && s.waiting == Some(Input::Int) {
        State { waiting: None, ..push(s, v) }
    } else {
        s
    }
}

/// The state after the character `c` was handed over: where the evaluation
/// was waiting for a character, its code is pushed and it waits no more; else
/// nothing changes.
pub open spec fn supply_char(s: State, c: char) -> State {
    if s.failed is None && s.waiting == Some(Input::Char) {
        State { waiting: None, ..push(s, c as i128) }
    } else {
        s
    }
}

/// Up to `budget` steps: the steps are taken one after the other until one
/// asks for something other than the next step, or the budget is used up.
/// The result is the state then, and what the last step asked for.
pub open spec fn run(s: State, budget: nat) -> (State, Action)
    decreases budget,
{
    if budget == 0 {
        (s, Action::Continue)
    } else if step(s).1 == Action::Continue {
        run(step(s).0, (budget - 1) as nat)
    } else {
        step(s)
    }
}

/// How many values a task takes from the stack.
pub open spec fn pops(t: TaskModel) -> nat {
    match t {
        TaskModel::Eval(_) | TaskModel::Exec(_) | TaskModel::Rest(_, _) => 0,
        TaskModel::Binary(_) | TaskModel::Poke => 2,
        _ => 1,
    }
}

/// How many values a task, with the tasks it calls for, leaves on the stack.
pub open spec fn pushes(t: TaskModel) -> nat {
    match t {
        TaskModel::Eval(_) | TaskModel::Unary(_) | TaskModel::Binary(_) | TaskModel::Call(_) => 1,
        _ => 0,
    }
}

/// Starting with `depth` values, each task of `tasks` finds the values it
/// takes.
pub open spec fn balanced(tasks: Seq<TaskModel>, depth: int) -> bool
    decreases tasks.len(),
{
    tasks.len() == 0 || (depth >= pops(tasks.last()) && balanced(
        tasks.drop_last(),
        depth - pops(tasks.last()) + pushes(tasks.last()),
    ))
}

/// The state can be stepped: it has failed, or every task will find the
/// values it takes, counting the value that is being waited for.
pub open spec fn runnable(s: State) -> bool {
    s.failed is Some || balanced(
        s.tasks,
        s.values.len() + if s.waiting is Some {
            1int
        } else {
            0int
        },
    )
}

/// With the task `t` on top, the tasks are balanced if `t` finds its values
/// and the others are balanced after it.
pub proof fn lemma_balanced_push(tasks: Seq<TaskModel>, t: TaskModel, depth: int)
    ensures
        balanced(tasks.push(t), depth) == (depth >= pops(t) && balanced(
            tasks,
            depth - pops(t) + pushes(t),
        )),
{
    assert(tasks.push(t).drop_last() =~= tasks);
    assert(tasks.push(t).last() == t);
}

/// A step takes a state that can be stepped to one that can be stepped.
pub proof fn lemma_step_runnable(s: State)
    requires
        runnable(s),
    ensures
        runnable(step(s).0),
{
    reveal(step);
    if s.failed is None && s.waiting is None && s.tasks.len() > 0 {
        let rest = s.tasks.drop_last();
        let d = s.values.len() as int;
        match s.tasks.last() {
            TaskModel::Eval(e) => match e {
                ExprModel::UnOp(op, inner) => {
                    lemma_balanced_push(rest.push(TaskModel::Unary(op)), TaskModel::Eval(*inner), d);
                    lemma_balanced_push(rest, TaskModel::Unary(op), d + 1);
                },
                ExprModel::BinOp(op, l, r) => {
                    lemma_balanced_push(
                        rest.push(TaskModel::Binary(op)).push(TaskModel::Eval(*r)),
                        TaskModel::Eval(*l),
                        d,
                    );
                    lemma_balanced_push(rest.push(TaskModel::Binary(op)), TaskModel::Eval(*r), d + 1);
                    lemma_balanced_push(rest, TaskModel::Binary(op), d + 2);
                },
                ExprModel::Call(name, arg) => match builtin_of(name, arg is Some) {
                    Some(Builtin::ReadInt) | Some(Builtin::ReadChar) | None => {},
                    Some(f) => {
                        lemma_balanced_push(
                            rest.push(TaskModel::Call(f)),
                            TaskModel::Eval(*arg->0),
                            d,
                        );
                        lemma_balanced_push(rest, TaskModel::Call(f), d + 1);
                    },
                },
                _ => {},
            },
            TaskModel::Exec(c) => match c {
                CmdModel::Expr(e) => {
                    lemma_balanced_push(rest.push(TaskModel::Discard), TaskModel::Eval(e), d);
                    lemma_balanced_push(rest, TaskModel::Discard, d + 1);
                },
                CmdModel::Assign(target, value) => {
                    lemma_balanced_push(
                        rest.push(TaskModel::AssignTo(target)),
                        TaskModel::Eval(value),
                        d,
                    );
                    lemma_balanced_push(rest, TaskModel::AssignTo(target), d + 1);
                },
                CmdModel::Sequence(cs) => {
                    lemma_balanced_push(rest, TaskModel::Rest(cs, 0), d);
                },
                CmdModel::If(cond, first, second) => {
                    lemma_balanced_push(
                        rest.push(TaskModel::Branch(*first, *second)),
                        TaskModel::Eval(cond),
                        d,
                    );
                    lemma_balanced_push(rest, TaskModel::Branch(*first, *second), d + 1);
                },
                CmdModel::While(cond, body) => {
                    lemma_balanced_push(
                        rest.push(TaskModel::Loop(cond, *body)),
                        TaskModel::Eval(cond),
                        d,
                    );
                    lemma_balanced_push(rest, TaskModel::Loop(cond, *body), d + 1);
                },
                _ => {},
            },
            TaskModel::Rest(cs, i) => {
                if i < cs.len() {
                    lemma_balanced_push(
                        rest.push(TaskModel::Rest(cs, i + 1)),
                        TaskModel::Exec(cs[i as int]),
                        d,
                    );
                    lemma_balanced_push(rest, TaskModel::Rest(cs, i + 1), d);
                }
            },
            TaskModel::AssignTo(target) => match target {
                ExprModel::UnOp(UnOp::Deref, inner) => {
                    lemma_balanced_push(rest.push(TaskModel::Poke), TaskModel::Eval(*inner), d);
                    lemma_balanced_push(rest, TaskModel::Poke, d + 1);
                },
                _ => {},
            },
            TaskModel::Branch(first, second) => {
                lemma_balanced_push(rest, TaskModel::Exec(first), d - 1);
                lemma_balanced_push(rest, TaskModel::Exec(second), d - 1);
            },
            TaskModel::Loop(cond, body) => {
                lemma_balanced_push(
                    rest.push(TaskModel::Loop(cond, body)).push(TaskModel::Eval(cond)),
                    TaskModel::Exec(body),
                    d - 1,
                );
                lemma_balanced_push(rest.push(TaskModel::Loop(cond, body)), TaskModel::Eval(cond), d - 1);
                lemma_balanced_push(rest, TaskModel::Loop(cond, body), d);
            },
            _ => {},
        }
    }
}

} // verus!
