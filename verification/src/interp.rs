//! The evaluator for a program whose input is at hand: it walks the tree,
//! takes what the program reads from a list and keeps what it writes in
//! another.

use vstd::prelude::*;

use crate::ast::{lemma_sequence_model, models, Cmd, CmdModel, Expr, UnOp};
use crate::env::Env;
use crate::error::EvalError;
use crate::machine::builtin;
use crate::meaning;
use crate::meaning::{Ending, Outcome, World};
use crate::mem::{lemma_first_fit_unique, Mem};
use crate::semantics;
use crate::semantics::{Action, Builtin, Heap};

verus! {

/// What a program reads and writes, kept as values: the input, of which the
/// first `read` values have been read, and the values and characters written
/// so far.
pub struct Console {
    pub input: Vec<i128>,
    pub read: usize,
    pub written: Vec<Action>,
}

impl View for Console {
    type V = World;

    /// The surroundings that the console stands for: what is left to read,
    /// and what was written.
    open spec fn view(&self) -> World {
        World { ins: self.input@.skip(self.read as int), outs: self.written@ }
    }
}

impl Console {
    /// The console's invariant: no more was read than there is.
    pub open spec fn wf(&self) -> bool {
        self.read <= self.input@.len()
    }

    /// A console with `input` to read and nothing written.
    pub fn new(input: Vec<i128>) -> (console: Self)
        ensures
            console.wf(),
            console@ == (World { ins: input@, outs: Seq::empty() }),
    {
        let console = Console { input, read: 0, written: Vec::new() };
        assert(console@.ins =~= input@);
        console
    }

    /// Takes the next value of the input, if there is one.
    pub fn take(&mut self) -> (v: Option<i128>)
        requires
            old(self).wf(),
        ensures
            final(self).wf(),
            match v {
                Some(x) => old(self)@.ins.len() > 0 && x == old(self)@.ins[0] && final(self)@ == (
                World { ins: old(self)@.ins.skip(1), outs: old(self)@.outs }),
                None => old(self)@.ins.len() == 0 && final(self)@ == old(self)@,
            },
    {
        if self.read < self.input.len() {
            let v = self.input[self.read];
            self.read = self.read + 1;
            assert(self@.ins =~= old(self)@.ins.skip(1));
            Some(v)
        } else {
            None
        }
    }

    /// Keeps what `action` writes.
    pub fn put(&mut self, action: Action)
        requires
            old(self).wf(),
        ensures
            final(self).wf(),
            final(self)@ == (World { ins: old(self)@.ins, outs: old(self)@.outs.push(action) }),
    {
        self.written.push(action);
    }
}

/// The heap `mem` as a mathematical value.
pub open spec fn heap_of(mem: &Mem<i128>) -> Heap {
    Heap { cells: mem.cells(), table: mem.table() }
}

/// The evaluation ended as `o` says and left the heap and the console as `o`
/// says.
pub open spec fn ended<T>(o: Outcome<T>, end: Ending<T>, mem: &Mem<i128>, console: &Console) -> bool {
    end == o.end && heap_of(mem) == o.heap && console@ == o.world
}

/// An ending that is not that of all the work, as the ending of the work.
fn pass<A, B>(end: Ending<A>) -> (r: Ending<B>)
    ensures
        r == match end {
            Ending::Failed(e) => Ending::<B>::Failed(e),
            Ending::Starved => Ending::Starved,
            _ => Ending::Unfinished,
        },
{
    match end {
        Ending::Failed(e) => Ending::Failed(e),
        Ending::Starved => Ending::Starved,
        _ => Ending::Unfinished,
    }
}

/// Reads the cell at `offset`.
fn load(mem: &Mem<i128>, offset: i128) -> (r: Result<i128, EvalError>)
    ensures
        r == semantics::load(heap_of(mem), offset),
{
    if offset < 0 || offset > usize::MAX as i128 {
        Err(EvalError::InvalidMemoryAccess)
    } else {
        mem.read(offset as usize)
    }
}

/// Puts `value` into the cell at `offset`.
fn store(mem: &mut Mem<i128>, offset: i128, value: i128) -> (r: Result<(), EvalError>)
    requires
        old(mem).wf(),
    ensures
        final(mem).wf(),
        match semantics::store(heap_of(old(mem)), offset, value) {
            Ok(heap) => r is Ok && heap_of(final(mem)) == heap,
            Err(e) => r == Err::<(), EvalError>(e) && heap_of(final(mem)) == heap_of(old(mem)),
        },
{
    if offset < 0 || offset > usize::MAX as i128 {
        Err(EvalError::InvalidMemoryAccess)
    } else {
        mem.write(offset as usize, value)
    }
}

/// Allocates `size` cells that hold 0.
fn allocate(mem: &mut Mem<i128>, size: i128) -> (r: Result<i128, EvalError>)
    requires
        old(mem).wf(),
    ensures
        final(mem).wf(),
        match semantics::allocate(heap_of(old(mem)), size) {
            Ok((heap, start)) => r == Ok::<i128, EvalError>(start) && heap_of(final(mem)) == heap,
            Err(e) => r == Err::<i128, EvalError>(e) && heap_of(final(mem)) == heap_of(old(mem)),
        },
{
    if size < 0 || size > usize::MAX as i128 {
        return Err(EvalError::InvalidArgument);
    }
    let ghost cells = mem.cells();
    match mem.malloc(size as usize, 0) {
        Ok(start) => {
            proof {
                lemma_first_fit_unique(
                    cells,
                    size as int,
                    start as int,
                    semantics::place(cells, size as int),
                );
            }
            Ok(start as i128)
        },
        Err(e) => Err(e),
    }
}

/// Releases the allocation that starts at `offset`.
fn release(mem: &mut Mem<i128>, offset: i128) -> (r: i128)
    requires
        old(mem).wf(),
    ensures
        final(mem).wf(),
        heap_of(final(mem)) == semantics::release(heap_of(old(mem)), offset).0,
        r == semantics::release(heap_of(old(mem)), offset).1,
{
    if offset < 0 || offset > usize::MAX as i128 {
        0
    } else if mem.free(offset as usize) {
        1
    } else {
        0
    }
}

impl<'a> Expr<'a> {
    /// Evaluates the expression in the environment `registers`, on the heap
    /// `mem`, reading from `console` and writing to it. It ends with the
    /// value of the expression, or with the failure that stopped it, or
    /// starved where it came to read and nothing was left: as `meaning::eval`
    /// says, which also says how it leaves the heap and the console.
    pub fn eval(&self, registers: &Env<'a>, mem: &mut Mem<i128>, console: &mut Console) -> (end:
        Ending<i128>)
        requires
            registers.wf(),
            old(mem).wf(),
            old(console).wf(),
        ensures
            final(mem).wf(),
            final(console).wf(),
            ended(
                meaning::eval(self.model(), registers@, heap_of(old(mem)), old(console)@),
                end,
                final(mem),
                final(console),
            ),
            meaning::eval(self.model(), registers@, heap_of(old(mem)), old(console)@).registers
                == registers@,
        decreases self,
    {
        proof {
            reveal(meaning::eval);
            meaning::lemma_eval_keeps_registers(
                self.model(),
                registers@,
                heap_of(mem),
                console@,
            );
        }
        match self {
            Expr::Int(i) => Ending::Finished(*i),
            Expr::Ident(x) => match registers.get(x) {
                Some(v) => Ending::Finished(v),
                None => Ending::Failed(EvalError::UndefinedVariable),
            },
            Expr::UnOp(op, inner) => match inner.eval(registers, mem, console) {
                Ending::Finished(v) => match op {
                    UnOp::Deref => match load(mem, v) {
                        Ok(x) => Ending::Finished(x),
                        Err(e) => Ending::Failed(e),
                    },
                    _ => Ending::Finished(op.apply(v)),
                },
                other => pass(other),
            },
            Expr::BinOp(op, l, r) => match l.eval(registers, mem, console) {
                Ending::Finished(x) => match r.eval(registers, mem, console) {
                    Ending::Finished(y) => match op.apply(x, y) {
                        Ok(v) => Ending::Finished(v),
                        Err(e) => Ending::Failed(e),
                    },
                    other => pass(other),
                },
                other => pass(other),
            },
            Expr::Call(name, arg) => match builtin(name, arg.is_some()) {
                None => Ending::Failed(EvalError::InvalidCall),
                Some(Builtin::ReadInt) | Some(Builtin::ReadChar) => match console.take() {
                    Some(v) => Ending::Finished(v),
                    None => Ending::Starved,
                },
                Some(f) => match arg {
                    None => Ending::Unfinished,
                    Some(a) => match a.eval(registers, mem, console) {
                        Ending::Finished(v) => match f {
                            Builtin::WriteInt => {
                                console.put(Action::WriteInt(v));
                                Ending::Finished(v)
                            },
                            Builtin::WriteChar => {
                                let low = match v.checked_rem_euclid(256) {
                                    Some(low) => low as u8,
                                    None => 0,
                                };
                                console.put(Action::WriteChar(low));
                                Ending::Finished(v)
                            },
                            Builtin::Malloc => match allocate(mem, v) {
                                Ok(start) => Ending::Finished(start),
                                Err(e) => Ending::Failed(e),
                            },
                            _ => Ending::Finished(release(mem, v)),
                        },
                        other => pass(other),
                    },
                },
            },
        }
    }
}

/// Two outcomes that differ at most in the number of steps.
pub open spec fn same_effect<T>(a: Outcome<T>, b: Outcome<T>) -> bool {
    a.end == b.end && a.registers == b.registers && a.heap == b.heap && a.world == b.world
}

impl<'a> Cmd<'a> {
    /// Executes the command in the environment `registers`, on the heap
    /// `mem`, reading from `console` and writing to it. No loop goes round
    /// more than `fuel` times, and the loops inside a loop get what fuel the
    /// round has left. It ends finished, or with the failure that stopped it,
    /// or starved where it came to read and nothing was left, or unfinished
    /// where a loop had no fuel left for another round: as `meaning::exec`
    /// says, which also says how it leaves the environment, the heap and the
    /// console.
    pub fn exec(
        &self,
        registers: &mut Env<'a>,
        mem: &mut Mem<i128>,
        console: &mut Console,
        fuel: u64,
    ) -> (end: Ending<()>)
        requires
            old(registers).wf(),
            old(mem).wf(),
            old(console).wf(),
        ensures
            final(registers).wf(),
            final(mem).wf(),
            final(console).wf(),
            ended(
                meaning::exec(
                    self.model(),
                    old(registers)@,
                    heap_of(old(mem)),
                    old(console)@,
                    fuel as nat,
                ),
                end,
                final(mem),
                final(console),
            ),
            final(registers)@ == meaning::exec(
                self.model(),
                old(registers)@,
                heap_of(old(mem)),
                old(console)@,
                fuel as nat,
            ).registers,
        decreases self,
    {
        proof {
            reveal(meaning::exec);
        }
        let ghost r0 = registers@;
        let ghost h0 = heap_of(mem);
        let ghost w0 = console@;
        match self {
            Cmd::Expr(e) => match e.eval(registers, mem, console) {
                Ending::Finished(_) => Ending::Finished(()),
                other => pass(other),
            },
            Cmd::Decl(x) => {
                registers.insert(x, 0);
                Ending::Finished(())
            },
            Cmd::Assign(target, value) => match value.eval(registers, mem, console) {
                Ending::Finished(v) => match &**target {
                    Expr::Ident(x) => {
                        registers.insert(x, v);
                        Ending::Finished(())
                    },
                    Expr::UnOp(UnOp::Deref, inner) => match inner.eval(registers, mem, console) {
                        Ending::Finished(offset) => match store(mem, offset, v) {
                            Ok(()) => Ending::Finished(()),
                            Err(e) => Ending::Failed(e),
                        },
                        other => pass(other),
                    },
                    _ => Ending::Failed(EvalError::InvalidAssignmentTarget),
                },
                other => pass(other),
            },
            Cmd::Sequence(cs) => {
                let ghost ms = models(cs@);
                proof {
                    lemma_sequence_model(*cs);
                }
                let mut i: usize = 0;
                loop
                    invariant
                        i <= cs@.len(),
                        ms == models(cs@),
                        self.model() == CmdModel::Sequence(ms),
                        r0 == old(registers)@,
                        h0 == heap_of(old(mem)),
                        w0 == old(console)@,
                        registers.wf(),
                        mem.wf(),
                        console.wf(),
                        forall|k: int| 0 <= k < cs@.len() ==> decreases_to!(self => cs@[k]),
                        same_effect(
                            meaning::rest(ms, 0, r0, h0, w0, fuel as nat),
                            meaning::rest(
                                ms,
                                i as nat,
                                registers@,
                                heap_of(mem),
                                console@,
                                fuel as nat,
                            ),
                        ),
                    decreases cs@.len() - i,
                {
                    proof {
                        reveal(meaning::exec);
                        reveal(meaning::rest);
                    }
                    if i >= cs.len() {
                        return Ending::Finished(());
                    }
                    match cs[i].exec(registers, mem, console, fuel) {
                        Ending::Finished(_) => {},
                        other => {
                            return pass(other);
                        },
                    }
                    i = i + 1;
                }
            },
            Cmd::If(cond, first, second) => match cond.eval(registers, mem, console) {
                Ending::Finished(v) => {
                    if v != 0 {
                        first.exec(registers, mem, console, fuel)
                    } else {
                        second.exec(registers, mem, console, fuel)
                    }
                },
                other => pass(other),
            },
            Cmd::While(cond, body) => {
                let mut left: u64 = fuel;
                loop
                    invariant
                        registers.wf(),
                        mem.wf(),
                        console.wf(),
                        decreases_to!(self => body),
                        self.model() == CmdModel::While(cond.model(), Box::new(body.model())),
                        r0 == old(registers)@,
                        h0 == heap_of(old(mem)),
                        w0 == old(console)@,
                        same_effect(
                            meaning::repeat(cond.model(), body.model(), r0, h0, w0, fuel as nat),
                            meaning::repeat(
                                cond.model(),
                                body.model(),
                                registers@,
                                heap_of(mem),
                                console@,
                                left as nat,
                            ),
                        ),
                    decreases left,
                {
                    proof {
                        reveal(meaning::exec);
                        reveal(meaning::repeat);
                    }
                    match cond.eval(registers, mem, console) {
                        Ending::Finished(v) => {
                            if v == 0 {
                                return Ending::Finished(());
                            }
                            if left == 0 {
                                return Ending::Unfinished;
                            }
                            left = left - 1;
                            match body.exec(registers, mem, console, left) {
                                Ending::Finished(_) => {},
                                other => {
                                    return pass(other);
                                },
                            }
                        },
                        other => {
                            return pass(other);
                        },
                    }
                }
            },
        }
    }
}

} // verus!
