//! The evaluator: a machine that runs a program step by step and never
//! reads or writes anything itself. Whoever drives it takes a step, does what
//! the step asks for, and hands over what was read.

use vstd::prelude::*;

use crate::ast::{lemma_sequence_model, models, BinOp, Cmd, Expr, UnOp};
use crate::env::{same_bytes, Env};
use crate::error::EvalError;
use crate::interp::Console;
use crate::meaning;
use crate::mem::{lemma_first_fit_unique, Mem};
use crate::semantics;
use crate::semantics::{start, Action, Builtin, Heap, Input, State, TaskModel};

verus! {

/// One piece of work, with the parts of the program that it refers to.
#[derive(Clone, Copy)]
enum Task<'a> {
    Eval(&'a Expr<'a>),
    Exec(&'a Cmd<'a>),
    Rest(&'a Vec<Box<Cmd<'a>>>, usize),
    Unary(UnOp),
    Binary(BinOp),
    Call(Builtin),
    Discard,
    AssignTo(&'a Expr<'a>),
    Poke,
    Branch(&'a Cmd<'a>, &'a Cmd<'a>),
    Loop(&'a Expr<'a>, &'a Cmd<'a>),
}

impl<'a> Task<'a> {
    /// The task as a mathematical value.
    spec fn model(self) -> TaskModel {
        match self {
            Task::Eval(e) => TaskModel::Eval(e.model()),
            Task::Exec(c) => TaskModel::Exec(c.model()),
            Task::Rest(cs, i) => TaskModel::Rest(models(cs@), i as nat),
            Task::Unary(op) => TaskModel::Unary(op),
            Task::Binary(op) => TaskModel::Binary(op),
            Task::Call(f) => TaskModel::Call(f),
            Task::Discard => TaskModel::Discard,
            Task::AssignTo(target) => TaskModel::AssignTo(target.model()),
            Task::Poke => TaskModel::Poke,
            Task::Branch(first, second) => TaskModel::Branch(first.model(), second.model()),
            Task::Loop(cond, body) => TaskModel::Loop(cond.model(), body.model()),
        }
    }
}

/// The tasks of `tasks` as mathematical values.
spec fn task_models<'a>(tasks: Seq<Task<'a>>) -> Seq<TaskModel> {
    Seq::new(tasks.len(), |i: int| tasks[i].model())
}

/// An evaluation in progress. It owns the environment and the heap of the
/// program it runs, and gives them back when asked.
pub struct Machine<'a> {
    tasks: Vec<Task<'a>>,
    values: Vec<i128>,
    registers: Env<'a>,
    mem: Mem<i128>,
    waiting: Option<Input>,
    failed: Option<EvalError>,
}

impl<'a> View for Machine<'a> {
    type V = State;

    /// The state that the machine is in.
    closed spec fn view(&self) -> State {
        State {
            tasks: task_models(self.tasks@),
            values: self.values@,
            registers: self.registers@,
            heap: Heap { cells: self.mem.cells(), table: self.mem.table() },
            waiting: self.waiting,
            failed: self.failed,
        }
    }
}

impl<'a> Machine<'a> {
    /// The machine's invariant: the environment and the heap are well formed,
    /// and the state can be stepped.
    pub closed spec fn wf(&self) -> bool {
        &&& self.registers.wf()
        &&& self.mem.wf()
        &&& semantics::runnable(self@)
    }

    /// A machine that has `task` to do.
    fn new(task: Task<'a>, registers: Env<'a>, mem: Mem<i128>) -> (m: Self)
        requires
            registers.wf(),
            mem.wf(),
            semantics::pops(task.model()) == 0,
        ensures
            m.wf(),
            m@ == start(task.model(), registers@, Heap { cells: mem.cells(), table: mem.table() }),
    {
        let mut tasks: Vec<Task<'a>> = Vec::new();
        tasks.push(task);
        let m = Machine { tasks, values: Vec::new(), registers, mem, waiting: None, failed: None };
        proof {
            assert(m@.tasks =~= Seq::<TaskModel>::empty().push(task.model()));
            semantics::lemma_balanced_push(Seq::empty(), task.model(), 0);
        }
        m
    }

    /// Puts `task` on top of the work.
    fn with_task(&mut self, task: Task<'a>)
        ensures
            final(self)@ == semantics::with_task(old(self)@, task.model()),
            final(self).registers == old(self).registers,
            final(self).mem == old(self).mem,
    {
        self.tasks.push(task);
        assert(self@.tasks =~= old(self)@.tasks.push(task.model()));
    }

    /// Pushes `v`.
    fn push(&mut self, v: i128)
        ensures
            final(self)@ == semantics::push(old(self)@, v),
            final(self).registers == old(self).registers,
            final(self).mem == old(self).mem,
    {
        self.values.push(v);
    }

    /// Pops the top value.
    fn pop(&mut self) -> (v: i128)
        requires
            old(self)@.values.len() > 0,
        ensures
            v == old(self)@.values.last(),
            final(self)@ == semantics::pop(old(self)@),
            final(self).registers == old(self).registers,
            final(self).mem == old(self).mem,
    {
        let v = self.values.pop().unwrap();
        assert(self@.values =~= old(self)@.values.drop_last());
        v
    }

    /// Fails for the reason `e`.
    fn fail(&mut self, e: EvalError) -> (action: Action)
        ensures
            (final(self)@, action) == semantics::fail(old(self)@, e),
            final(self).registers == old(self).registers,
            final(self).mem == old(self).mem,
    {
        self.failed = Some(e);
        Action::Failed(e)
    }

    /// The step for `Eval(e)`, which has been taken off the work.
    fn step_eval(&mut self, e: &'a Expr<'a>) -> (action: Action)
        requires
            old(self).registers.wf(),
        ensures
            (final(self)@, action) == semantics::step_eval(old(self)@, e.model()),
            final(self).registers == old(self).registers,
            final(self).mem == old(self).mem,
    {
        match e {
            Expr::Int(i) => {
                self.push(*i);
                Action::Continue
            },
            Expr::Ident(x) => match self.registers.get(x) {
                Some(v) => {
                    self.push(v);
                    Action::Continue
                },
                None => self.fail(EvalError::UndefinedVariable),
            },
            Expr::UnOp(op, inner) => {
                self.with_task(Task::Unary(*op));
                self.with_task(Task::Eval(&**inner));
                Action::Continue
            },
            Expr::BinOp(op, l, r) => {
                self.with_task(Task::Binary(*op));
                self.with_task(Task::Eval(&**r));
                self.with_task(Task::Eval(&**l));
                Action::Continue
            },
            Expr::Call(name, arg) => match builtin(name, arg.is_some()) {
                None => self.fail(EvalError::InvalidCall),
                Some(Builtin::ReadInt) => {
                    self.waiting = Some(Input::Int);
                    Action::ReadInt
                },
                Some(Builtin::ReadChar) => {
                    self.waiting = Some(Input::Char);
                    Action::ReadChar
                },
                Some(f) => match arg {
                    Some(a) => {
                        self.with_task(Task::Call(f));
                        self.with_task(Task::Eval(&**a));
                        Action::Continue
                    },
                    None => Action::Continue,
                },
            },
        }
    }

    /// The step for `Unary(op)`.
    fn step_unary(&mut self, op: UnOp) -> (action: Action)
        requires
            old(self)@.values.len() >= 1,
        ensures
            (final(self)@, action) == semantics::step_unary(old(self)@, op),
            final(self).registers == old(self).registers,
            final(self).mem == old(self).mem,
    {
        let v = self.pop();
        match op {
            UnOp::Deref => {
                if v < 0 || v > usize::MAX as i128 {
                    return self.fail(EvalError::InvalidMemoryAccess);
                }
                match self.mem.read(v as usize) {
                    Ok(w) => {
                        self.push(w);
                        Action::Continue
                    },
                    Err(e) => self.fail(e),
                }
            },
            _ => {
                self.push(op.apply(v));
                Action::Continue
            },
        }
    }

    /// The step for `Binary(op)`.
    fn step_binary(&mut self, op: BinOp) -> (action: Action)
        requires
            old(self)@.values.len() >= 2,
        ensures
            (final(self)@, action) == semantics::step_binary(old(self)@, op),
            final(self).registers == old(self).registers,
            final(self).mem == old(self).mem,
    {
        let r = self.pop();
        let l = self.pop();
        match op.apply(l, r) {
            Ok(v) => {
                self.push(v);
                Action::Continue
            },
            Err(e) => self.fail(e),
        }
    }

    /// The step for `Call(f)`.
    fn step_call(&mut self, f: Builtin) -> (action: Action)
        requires
            old(self)@.values.len() >= 1,
            old(self).mem.wf(),
        ensures
            (final(self)@, action) == semantics::step_call(old(self)@, f),
            final(self).registers == old(self).registers,
            final(self).mem.wf(),
    {
        match f {
            Builtin::WriteInt => {
                let v = self.values[self.values.len() - 1];
                Action::WriteInt(v)
            },
            Builtin::WriteChar => {
                let v = self.values[self.values.len() - 1];
                match v.checked_rem_euclid(256) {
                    Some(low) => Action::WriteChar(low as u8),
                    None => Action::WriteChar(0),
                }
            },
            Builtin::Malloc => {
                let v = self.pop();
                if v < 0 || v > usize::MAX as i128 {
                    return self.fail(EvalError::InvalidArgument);
                }
                let ghost cells = self.mem.cells();
                match self.mem.malloc(v as usize, 0) {
                    Ok(start) => {
                        proof {
                            let want = semantics::place(cells, v as int);
                            lemma_first_fit_unique(cells, v as int, start as int, want);
                        }
                        self.push(start as i128);
                        Action::Continue
                    },
                    Err(e) => self.fail(e),
                }
            },
            Builtin::Free => {
                let v = self.pop();
                if v < 0 || v > usize::MAX as i128 {
                    self.push(0);
                } else if self.mem.free(v as usize) {
                    self.push(1);
                } else {
                    self.push(0);
                }
                Action::Continue
            },
            _ => Action::Continue,
        }
    }

    /// The step for `Exec(c)`.
    fn step_exec(&mut self, c: &'a Cmd<'a>) -> (action: Action)
        requires
            old(self).registers.wf(),
        ensures
            (final(self)@, action) == semantics::step_exec(old(self)@, c.model()),
            final(self).registers.wf(),
            final(self).mem == old(self).mem,
    {
        match c {
            Cmd::Expr(e) => {
                self.with_task(Task::Discard);
                self.with_task(Task::Eval(&**e));
            },
            Cmd::Decl(x) => {
                self.registers.insert(x, 0);
            },
            Cmd::Assign(target, value) => {
                self.with_task(Task::AssignTo(&**target));
                self.with_task(Task::Eval(&**value));
            },
            Cmd::Sequence(cs) => {
                proof {
                    lemma_sequence_model(*cs);
                }
                self.with_task(Task::Rest(cs, 0));
            },
            Cmd::If(cond, first, second) => {
                self.with_task(Task::Branch(&**first, &**second));
                self.with_task(Task::Eval(&**cond));
            },
            Cmd::While(cond, body) => {
                self.with_task(Task::Loop(&**cond, &**body));
                self.with_task(Task::Eval(&**cond));
            },
        }
        Action::Continue
    }

    /// The step for `Rest(cs, i)`.
    fn step_rest(&mut self, cs: &'a Vec<Box<Cmd<'a>>>, i: usize) -> (action: Action)
        ensures
            (final(self)@, action) == semantics::step_rest(old(self)@, models(cs@), i as nat),
            final(self).registers == old(self).registers,
            final(self).mem == old(self).mem,
    {
        if i < cs.len() {
            self.with_task(Task::Rest(cs, i + 1));
            self.with_task(Task::Exec(&*cs[i]));
        }
        Action::Continue
    }

    /// The step for `AssignTo(target)`.
    fn step_assign(&mut self, target: &'a Expr<'a>) -> (action: Action)
        requires
            old(self)@.values.len() >= 1,
            old(self).registers.wf(),
        ensures
            (final(self)@, action) == semantics::step_assign(old(self)@, target.model()),
            final(self).registers.wf(),
            final(self).mem == old(self).mem,
    {
        match target {
            Expr::Ident(x) => {
                let v = self.pop();
                self.registers.insert(x, v);
                Action::Continue
            },
            Expr::UnOp(UnOp::Deref, inner) => {
                self.with_task(Task::Poke);
                self.with_task(Task::Eval(&**inner));
                Action::Continue
            },
            _ => {
                let _ = self.pop();
                self.fail(EvalError::InvalidAssignmentTarget)
            },
        }
    }

    /// The step for `Poke`.
    fn step_poke(&mut self) -> (action: Action)
        requires
            old(self)@.values.len() >= 2,
            old(self).mem.wf(),
        ensures
            (final(self)@, action) == semantics::step_poke(old(self)@),
            final(self).registers == old(self).registers,
            final(self).mem.wf(),
    {
        let offset = self.pop();
        let value = self.pop();
        if offset < 0 || offset > usize::MAX as i128 {
            return self.fail(EvalError::InvalidMemoryAccess);
        }
        match self.mem.write(offset as usize, value) {
            Ok(()) => Action::Continue,
            Err(e) => self.fail(e),
        }
    }

    /// The step for `Branch(first, second)`.
    fn step_branch(&mut self, first: &'a Cmd<'a>, second: &'a Cmd<'a>) -> (action: Action)
        requires
            old(self)@.values.len() >= 1,
        ensures
            (final(self)@, action) == semantics::step_branch(
                old(self)@,
                first.model(),
                second.model(),
            ),
            final(self).registers == old(self).registers,
            final(self).mem == old(self).mem,
    {
        let v = self.pop();
        if v != 0 {
            self.with_task(Task::Exec(first));
        } else {
            self.with_task(Task::Exec(second));
        }
        Action::Continue
    }

    /// The step for `Loop(cond, body)`.
    fn step_loop(&mut self, cond: &'a Expr<'a>, body: &'a Cmd<'a>) -> (action: Action)
        requires
            old(self)@.values.len() >= 1,
        ensures
            (final(self)@, action) == semantics::step_loop(old(self)@, cond.model(), body.model()),
            final(self).registers == old(self).registers,
            final(self).mem == old(self).mem,
    {
        let v = self.pop();
        if v != 0 {
            self.with_task(Task::Loop(cond, body));
            self.with_task(Task::Eval(cond));
            self.with_task(Task::Exec(body));
        }
        Action::Continue
    }

    /// Takes one step, and says what is to be done before the next: nothing,
    /// a value to be written, or a value to be read and handed over with
    /// `supply_int` or `supply_char`. A machine that has failed, waits for
    /// input or has nothing left to do does not change, and says so again.
    pub fn step(&mut self) -> (action: Action)
        requires
            old(self).wf(),
        ensures
            final(self).wf(),
            (final(self)@, action) == semantics::step(old(self)@),
    {
        proof {
            reveal(semantics::step);
            semantics::lemma_step_runnable(self@);
        }
        if let Some(e) = self.failed {
            return Action::Failed(e);
        }
        if let Some(w) = self.waiting {
            return match w {
                Input::Int => Action::ReadInt,
                Input::Char => Action::ReadChar,
            };
        }
        if self.tasks.len() == 0 {
            return Action::Done;
        }
        let task = self.tasks.pop().unwrap();
        proof {
            assert(self@.tasks =~= old(self)@.tasks.drop_last());
            assert(task.model() == old(self)@.tasks.last());
        }
        match task {
            Task::Eval(e) => self.step_eval(e),
            Task::Exec(c) => self.step_exec(c),
            Task::Rest(cs, i) => self.step_rest(cs, i),
            Task::Unary(op) => self.step_unary(op),
            Task::Binary(op) => self.step_binary(op),
            Task::Call(f) => self.step_call(f),
            Task::Discard => {
                let _ = self.pop();
                Action::Continue
            },
            Task::AssignTo(target) => self.step_assign(target),
            Task::Poke => self.step_poke(),
            Task::Branch(first, second) => self.step_branch(first, second),
            Task::Loop(cond, body) => self.step_loop(cond, body),
        }
    }

    /// Takes steps until one asks for something other than the next step, but
    /// no more than `budget` of them. The result is what the last step asked
    /// for; it is `Continue` where the budget ran out first.
    pub fn run(&mut self, budget: u64) -> (action: Action)
        requires
            old(self).wf(),
        ensures
            final(self).wf(),
            (final(self)@, action) == semantics::run(old(self)@, budget as nat),
    {
        let mut left: u64 = budget;
        while left > 0
            invariant
                self.wf(),
                semantics::run(old(self)@, budget as nat) == semantics::run(self@, left as nat),
            decreases left,
        {
            let action = self.step();
            match action {
                Action::Continue => {},
                _ => {
                    return action;
                },
            }
            left = left - 1;
        }
        Action::Continue
    }

    /// Takes `steps` steps with `console` for surroundings: what the machine
    /// asks to be written is put into the console, and where it waits for
    /// input it is handed the next value from the console, if there is one.
    pub fn drive(&mut self, console: &mut Console, steps: u64)
        requires
            old(self).wf(),
            old(console).wf(),
        ensures
            final(self).wf(),
            final(console).wf(),
            (final(self)@, final(console)@) == meaning::drive(
                old(self)@,
                old(console)@,
                steps as nat,
            ),
    {
        let mut left: u64 = steps;
        while left > 0
            invariant
                self.wf(),
                console.wf(),
                meaning::drive(old(self)@, old(console)@, steps as nat) == meaning::drive(
                    self@,
                    console@,
                    left as nat,
                ),
            decreases left,
        {
            proof {
                reveal(meaning::drive);
            }
            let has_input = console.read < console.input.len();
            if self.failed.is_some() || (self.waiting.is_some() && !has_input) || (
            self.waiting.is_none() && self.tasks.len() == 0) {
                proof {
                    meaning::lemma_stuck(self@, console@, left as nat);
                }
                return ;
            }
            if self.waiting.is_some() {
                match console.take() {
                    Some(v) => {
                        self.push(v);
                        self.waiting = None;
                    },
                    None => {},
                }
            } else {
                let action = self.step();
                match action {
                    Action::WriteInt(_) | Action::WriteChar(_) => {
                        console.put(action);
                    },
                    _ => {},
                }
            }
            left = left - 1;
        }
        proof {
            reveal(meaning::drive);
        }
    }

    /// The value on top of the stack: once an expression has been evaluated,
    /// its value.
    pub fn value(&self) -> (v: Option<i128>)
        ensures
            v == if self@.values.len() > 0 {
                Some(self@.values.last())
            } else {
                None
            },
    {
        if self.values.len() > 0 {
            Some(self.values[self.values.len() - 1])
        } else {
            None
        }
    }

    /// The environment as it is now.
    pub fn registers(&self) -> (env: &Env<'a>)
        requires
            self.wf(),
        ensures
            env.wf(),
            env@ == self@.registers,
    {
        &self.registers
    }

    /// The heap as it is now.
    pub fn memory(&self) -> (mem: &Mem<i128>)
        requires
            self.wf(),
        ensures
            mem.wf(),
            mem.cells() == self@.heap.cells,
            mem.table() == self@.heap.table,
    {
        &self.mem
    }

    /// Ends the evaluation and gives back the environment and the heap as
    /// they are now.
    pub fn into_parts(self) -> (parts: (Env<'a>, Mem<i128>))
        requires
            self.wf(),
        ensures
            parts.0.wf(),
            parts.0@ == self@.registers,
            parts.1.wf(),
            parts.1.cells() == self@.heap.cells,
            parts.1.table() == self@.heap.table,
    {
        (self.registers, self.mem)
    }

    /// Hands over the integer that the machine asked for. Where it did not
    /// ask for an integer, nothing changes.
    pub fn supply_int(&mut self, v: i128)
        requires
            old(self).wf(),
        ensures
            final(self).wf(),
            final(self)@ == semantics::supply_int(old(self)@, v),
    {
        if self.failed.is_none() {
            if let Some(Input::Int) = self.waiting {
                self.push(v);
                self.waiting = None;
            }
        }
    }

    /// Hands over the character that the machine asked for. Where it did not
    /// ask for a character, nothing changes.
    pub fn supply_char(&mut self, c: char)
        requires
            old(self).wf(),
        ensures
            final(self).wf(),
            final(self)@ == semantics::supply_char(old(self)@, c),
    {
        if self.failed.is_none() {
            if let Some(Input::Char) = self.waiting {
                self.push(c as u32 as i128);
                self.waiting = None;
            }
        }
    }
}

impl<'a> Machine<'a> {
    /// A machine that is to evaluate the expression `e` in the environment
    /// `registers` and on the heap `mem`. When it is done, the value of `e`
    /// is on top of its stack.
    pub fn evaluating(e: &'a Expr<'a>, registers: Env<'a>, mem: Mem<i128>) -> (m: Machine<'a>)
        requires
            registers.wf(),
            mem.wf(),
        ensures
            m.wf(),
            m@ == start(
                TaskModel::Eval(e.model()),
                registers@,
                Heap { cells: mem.cells(), table: mem.table() },
            ),
    {
        Machine::new(Task::Eval(e), registers, mem)
    }

    /// A machine that is to execute the command `c` in the environment
    /// `registers` and on the heap `mem`.
    pub fn executing(c: &'a Cmd<'a>, registers: Env<'a>, mem: Mem<i128>) -> (m: Machine<'a>)
        requires
            registers.wf(),
            mem.wf(),
        ensures
            m.wf(),
            m@ == start(
                TaskModel::Exec(c.model()),
                registers@,
                Heap { cells: mem.cells(), table: mem.table() },
            ),
    {
        Machine::new(Task::Exec(c), registers, mem)
    }
}

/// The bytes of `write_int`.
fn name_write_int() -> (name: [u8; 9])
    ensures
        name@ == semantics::name_write_int(),
{
    let name = [
        'w' as u8,
        'r' as u8,
        'i' as u8,
        't' as u8,
        'e' as u8,
        '_' as u8,
        'i' as u8,
        'n' as u8,
        't' as u8,
    ];
    assert(name@ =~= semantics::name_write_int());
    name
}

/// The bytes of `write_char`.
fn name_write_char() -> (name: [u8; 10])
    ensures
        name@ == semantics::name_write_char(),
{
    let name = [
        'w' as u8,
        'r' as u8,
        'i' as u8,
        't' as u8,
        'e' as u8,
        '_' as u8,
        'c' as u8,
        'h' as u8,
        'a' as u8,
        'r' as u8,
    ];
    assert(name@ =~= semantics::name_write_char());
    name
}

/// The bytes of `read_int`.
fn name_read_int() -> (name: [u8; 8])
    ensures
        name@ == semantics::name_read_int(),
{
    let name = [
        'r' as u8,
        'e' as u8,
        'a' as u8,
        'd' as u8,
        '_' as u8,
        'i' as u8,
        'n' as u8,
        't' as u8,
    ];
    assert(name@ =~= semantics::name_read_int());
    name
}

/// The bytes of `read_char`.
fn name_read_char() -> (name: [u8; 9])
    ensures
        name@ == semantics::name_read_char(),
{
    let name = [
        'r' as u8,
        'e' as u8,
        'a' as u8,
        'd' as u8,
        '_' as u8,
        'c' as u8,
        'h' as u8,
        'a' as u8,
        'r' as u8,
    ];
    assert(name@ =~= semantics::name_read_char());
    name
}

/// The bytes of `malloc`.
fn name_malloc() -> (name: [u8; 6])
    ensures
        name@ == semantics::name_malloc(),
{
    let name = ['m' as u8, 'a' as u8, 'l' as u8, 'l' as u8, 'o' as u8, 'c' as u8];
    assert(name@ =~= semantics::name_malloc());
    name
}

/// The bytes of `free`.
fn name_free() -> (name: [u8; 4])
    ensures
        name@ == semantics::name_free(),
{
    let name = ['f' as u8, 'r' as u8, 'e' as u8, 'e' as u8];
    assert(name@ =~= semantics::name_free());
    name
}

/// The built-in function that a call of `name` means, with or without an
/// argument.
pub fn builtin(name: &[u8], has_arg: bool) -> (r: Option<Builtin>)
    ensures
        r == semantics::builtin_of(name@, has_arg),
{
    if has_arg {
        if same_bytes(name, name_write_int().as_slice()) {
            Some(Builtin::WriteInt)
        } else if same_bytes(name, name_write_char().as_slice()) {
            Some(Builtin::WriteChar)
        } else if same_bytes(name, name_malloc().as_slice()) {
            Some(Builtin::Malloc)
        } else if same_bytes(name, name_free().as_slice()) {
            Some(Builtin::Free)
        } else {
            None
        }
    } else {
        if same_bytes(name, name_read_int().as_slice()) {
            Some(Builtin::ReadInt)
        } else if same_bytes(name, name_read_char().as_slice()) {
            Some(Builtin::ReadChar)
        } else {
            None
        }
    }
}

} // verus!
