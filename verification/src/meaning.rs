//! What a program means, all in one: the value of an expression and the
//! effect of a command, given what there is to read. The machine of
//! `semantics` is shown to arrive at exactly this.

use vstd::prelude::*;

use crate::arith::{bin_value, un_value};
use crate::ast::{CmdModel, ExprModel, UnOp};
use crate::error::EvalError;
use crate::semantics::{
    allocate, builtin_of, lemma_step_with_task, load, pop, release, start, step, store, supply_char,
    supply_int, with_task, Action, Builtin, Heap, Input, State, TaskModel,
};

verus! {

/// What surrounds an evaluation: the values still to be read, first first,
/// and what was written, first first.
#[verifier::ext_equal]
pub struct World {
    pub ins: Seq<i128>,
    pub outs: Seq<Action>,
}

/// How an evaluation ended.
#[derive(Debug, PartialEq, Eq)]
pub enum Ending<T> {
    /// It ran to its end, with this result.
    Finished(T),
    /// It failed, for this reason.
    Failed(EvalError),
    /// It asked for input when there was none left, and waits.
    Starved,
    /// A loop went round more often than was allowed for.
    Unfinished,
}

/// An evaluation from its start to its end: how it ended, the environment,
/// the heap and the surroundings as it left them, and the steps that the
/// machine takes over it.
pub struct Outcome<T> {
    pub end: Ending<T>,
    pub registers: Map<Seq<u8>, i128>,
    pub heap: Heap,
    pub world: World,
    pub steps: nat,
}

/// The outcome `o` with another end, `extra` steps later.
pub open spec fn then<A, B>(o: Outcome<A>, end: Ending<B>, extra: nat) -> Outcome<B> {
    Outcome { end, registers: o.registers, heap: o.heap, world: o.world, steps: o.steps + extra }
}

/// The outcome `o`, which did not finish, as the outcome of what it was part
/// of, `extra` steps later.
pub open spec fn pass<A, B>(o: Outcome<A>, extra: nat) -> Outcome<B> {
    then(
        o,
        match o.end {
            Ending::Failed(e) => Ending::Failed(e),
            Ending::Starved => Ending::Starved,
            _ => Ending::Unfinished,
        },
        extra,
    )
}

/// The value of the expression `e`. Operands are evaluated from left to
/// right, each in the heap and the surroundings that the one before left.
#[verifier::opaque]
pub open spec fn eval(e: ExprModel, registers: Map<Seq<u8>, i128>, heap: Heap, world: World) -> Outcome<
    i128,
>
    decreases e,
{
    let here = Outcome { end: Ending::<i128>::Starved, registers, heap, world, steps: 0 };
    match e {
        ExprModel::Int(i) => then(here, Ending::Finished(i), 1),
        ExprModel::Ident(x) => if registers.contains_key(x) {
            then(here, Ending::Finished(registers[x]), 1)
        } else {
            then(here, Ending::Failed(EvalError::UndefinedVariable), 1)
        },
        ExprModel::UnOp(op, inner) => {
            let a = eval(*inner, registers, heap, world);
            match a.end {
                Ending::Finished(v) => match op {
                    UnOp::Deref => match load(a.heap, v) {
                        Ok(x) => then(a, Ending::Finished(x), 2),
                        Err(err) => then(a, Ending::Failed(err), 2),
                    },
                    _ => then(a, Ending::Finished(un_value(op, v)), 2),
                },
                _ => pass(a, 1),
            }
        },
        ExprModel::BinOp(op, l, r) => {
            let a = eval(*l, registers, heap, world);
            match a.end {
                Ending::Finished(x) => {
                    let b = eval(*r, registers, a.heap, a.world);
                    match b.end {
                        Ending::Finished(y) => match bin_value(op, x, y) {
                            Ok(v) => then(b, Ending::Finished(v), a.steps + 2),
                            Err(err) => then(b, Ending::Failed(err), a.steps + 2),
                        },
                        _ => pass(b, a.steps + 1),
                    }
                },
                _ => pass(a, 1),
            }
        },
        ExprModel::Call(name, arg) => match builtin_of(name, arg is Some) {
            None => then(here, Ending::Failed(EvalError::InvalidCall), 1),
            Some(Builtin::ReadInt) | Some(Builtin::ReadChar) => if world.ins.len() > 0 {
                Outcome {
                    end: Ending::Finished(world.ins[0]),
                    registers,
                    heap,
                    world: World { ins: world.ins.skip(1), outs: world.outs },
                    steps: 2,
                }
            } else {
                then(here, Ending::Starved, 1)
            },
            Some(f) => {
                let a = eval(*arg->0, registers, heap, world);
                match a.end {
                    Ending::Finished(v) => match f {
                        Builtin::WriteInt => Outcome {
                            end: Ending::Finished(v),
                            registers,
                            heap: a.heap,
                            world: World {
                                ins: a.world.ins,
                                outs: a.world.outs.push(Action::WriteInt(v)),
                            },
                            steps: a.steps + 2,
                        },
                        Builtin::WriteChar => Outcome {
                            end: Ending::Finished(v),
                            registers,
                            heap: a.heap,
                            world: World {
                                ins: a.world.ins,
                                outs: a.world.outs.push(Action::WriteChar((v % 256) as u8)),
                            },
                            steps: a.steps + 2,
                        },
                        Builtin::Malloc => match allocate(a.heap, v) {
                            Ok((heap, start)) => Outcome {
                                end: Ending::Finished(start),
                                registers,
                                heap,
                                world: a.world,
                                steps: a.steps + 2,
                            },
                            Err(err) => then(a, Ending::Failed(err), 2),
                        },
                        _ => Outcome {
                            end: Ending::Finished(release(a.heap, v).1),
                            registers,
                            heap: release(a.heap, v).0,
                            world: a.world,
                            steps: a.steps + 2,
                        },
                    },
                    _ => pass(a, 1),
                }
            },
        },
    }
}

/// The evaluation of an expression leaves the environment as it is.
pub proof fn lemma_eval_keeps_registers(
    e: ExprModel,
    registers: Map<Seq<u8>, i128>,
    heap: Heap,
    world: World,
)
    ensures
        eval(e, registers, heap, world).registers == registers,
    decreases e,
{
    reveal(eval);
    match e {
        ExprModel::UnOp(_, inner) => {
            lemma_eval_keeps_registers(*inner, registers, heap, world);
        },
        ExprModel::BinOp(_, l, r) => {
            lemma_eval_keeps_registers(*l, registers, heap, world);
            let a = eval(*l, registers, heap, world);
            lemma_eval_keeps_registers(*r, registers, a.heap, a.world);
        },
        ExprModel::Call(_, Some(arg)) => {
            lemma_eval_keeps_registers(*arg, registers, heap, world);
        },
        _ => {},
    }
}

/// The effect of the command `c`, where no loop goes round more than `fuel`
/// times: one that would is unfinished.
#[verifier::opaque]
pub open spec fn exec(
    c: CmdModel,
    registers: Map<Seq<u8>, i128>,
    heap: Heap,
    world: World,
    fuel: nat,
) -> Outcome<()>
    decreases fuel, c, 0nat,
{
    match c {
        CmdModel::Expr(e) => {
            let a = eval(e, registers, heap, world);
            match a.end {
                Ending::Finished(_) => then(a, Ending::Finished(()), 2),
                _ => pass(a, 1),
            }
        },
        CmdModel::Decl(x) => Outcome {
            end: Ending::Finished(()),
            registers: registers.insert(x, 0),
            heap,
            world,
            steps: 1,
        },
        CmdModel::Assign(target, value) => {
            let a = eval(value, registers, heap, world);
            match a.end {
                Ending::Finished(v) => match target {
                    ExprModel::Ident(x) => Outcome {
                        end: Ending::Finished(()),
                        registers: registers.insert(x, v),
                        heap: a.heap,
                        world: a.world,
                        steps: a.steps + 2,
                    },
                    ExprModel::UnOp(UnOp::Deref, inner) => {
                        let b = eval(*inner, registers, a.heap, a.world);
                        match b.end {
                            Ending::Finished(offset) => match store(b.heap, offset, v) {
                                Ok(heap) => Outcome {
                                    end: Ending::Finished(()),
                                    registers,
                                    heap,
                                    world: b.world,
                                    steps: a.steps + b.steps + 3,
                                },
                                Err(err) => then(b, Ending::Failed(err), a.steps + 3),
                            },
                            _ => pass(b, a.steps + 2),
                        }
                    },
                    _ => then(a, Ending::Failed(EvalError::InvalidAssignmentTarget), 2),
                },
                _ => pass(a, 1),
            }
        },
        CmdModel::Sequence(cs) => {
            let a = rest(cs, 0, registers, heap, world, fuel);
            then(a, a.end, 1)
        },
        CmdModel::If(cond, first, second) => {
            let a = eval(cond, registers, heap, world);
            match a.end {
                Ending::Finished(v) => {
                    let b = exec(
                        if v != 0 {
                            *first
                        } else {
                            *second
                        },
                        registers,
                        a.heap,
                        a.world,
                        fuel,
                    );
                    then(b, b.end, a.steps + 2)
                },
                _ => pass(a, 1),
            }
        },
        CmdModel::While(cond, body) => {
            let a = repeat(cond, *body, registers, heap, world, fuel);
            then(a, a.end, 1)
        },
    }
}

/// The effect of the commands of `cs` from the `i`-th on, one after the
/// other, up to the first that does not finish.
#[verifier::opaque]
pub open spec fn rest(
    cs: Seq<CmdModel>,
    i: nat,
    registers: Map<Seq<u8>, i128>,
    heap: Heap,
    world: World,
    fuel: nat,
) -> Outcome<()>
    decreases fuel, cs, cs.len() - i,
{
    if i >= cs.len() {
        Outcome { end: Ending::Finished(()), registers, heap, world, steps: 1 }
    } else {
        let a = exec(cs[i as int], registers, heap, world, fuel);
        match a.end {
            Ending::Finished(_) => {
                let b = rest(cs, i + 1, a.registers, a.heap, a.world, fuel);
                then(b, b.end, a.steps + 1)
            },
            _ => pass(a, 1),
        }
    }
}

/// The effect of a loop from the evaluation of its condition on: the body is
/// executed and the condition evaluated again for as long as the value of
/// the condition is not 0. Each round takes one unit of fuel, and the body
/// gets what is left.
#[verifier::opaque]
pub open spec fn repeat(
    cond: ExprModel,
    body: CmdModel,
    registers: Map<Seq<u8>, i128>,
    heap: Heap,
    world: World,
    fuel: nat,
) -> Outcome<()>
    decreases fuel, body, 1nat,
{
    let a = eval(cond, registers, heap, world);
    match a.end {
        Ending::Finished(v) => if v == 0 {
            then(a, Ending::Finished(()), 1)
        } else if fuel == 0 {
            then(a, Ending::Unfinished, 1)
        } else {
            let b = exec(body, registers, a.heap, a.world, (fuel - 1) as nat);
            match b.end {
                Ending::Finished(_) => {
                    let r = repeat(cond, body, b.registers, b.heap, b.world, (fuel - 1) as nat);
                    then(r, r.end, a.steps + b.steps + 1)
                },
                _ => pass(b, a.steps + 1),
            }
        },
        _ => pass(a, 0),
    }
}

/// There is no loop in the command `c`.
pub open spec fn loop_free(c: CmdModel) -> bool
    decreases c,
{
    match c {
        CmdModel::While(_, _) => false,
        CmdModel::If(_, first, second) => loop_free(*first) && loop_free(*second),
        CmdModel::Sequence(cs) => forall|i: int| 0 <= i < cs.len() ==> loop_free(#[trigger] cs[i]),
        _ => true,
    }
}

/// A command without a loop needs no fuel: it finishes, fails or starves.
pub proof fn lemma_loop_free_ends(
    c: CmdModel,
    registers: Map<Seq<u8>, i128>,
    heap: Heap,
    world: World,
    fuel: nat,
)
    requires
        loop_free(c),
    ensures
        !(exec(c, registers, heap, world, fuel).end is Unfinished),
    decreases c, 0nat,
{
    reveal(exec);
    reveal(rest);
    match c {
        CmdModel::Expr(e) => {
            lemma_eval_ends(e, registers, heap, world);
        },
        CmdModel::Assign(target, value) => {
            lemma_eval_ends(value, registers, heap, world);
            let a = eval(value, registers, heap, world);
            match target {
                ExprModel::UnOp(UnOp::Deref, inner) => {
                    lemma_eval_ends(*inner, registers, a.heap, a.world);
                },
                _ => {},
            }
        },
        CmdModel::Sequence(cs) => {
            lemma_loop_free_rest_ends(cs, 0, registers, heap, world, fuel);
        },
        CmdModel::If(cond, first, second) => {
            lemma_eval_ends(cond, registers, heap, world);
            let a = eval(cond, registers, heap, world);
            lemma_loop_free_ends(*first, registers, a.heap, a.world, fuel);
            lemma_loop_free_ends(*second, registers, a.heap, a.world, fuel);
        },
        _ => {},
    }
}

/// Commands without a loop, one after the other, need no fuel.
pub proof fn lemma_loop_free_rest_ends(
    cs: Seq<CmdModel>,
    i: nat,
    registers: Map<Seq<u8>, i128>,
    heap: Heap,
    world: World,
    fuel: nat,
)
    requires
        forall|k: int| 0 <= k < cs.len() ==> loop_free(#[trigger] cs[k]),
    ensures
        !(rest(cs, i, registers, heap, world, fuel).end is Unfinished),
    decreases cs, cs.len() - i,
{
    reveal(rest);
    reveal(exec);
    if i < cs.len() {
        lemma_loop_free_ends(cs[i as int], registers, heap, world, fuel);
        let a = exec(cs[i as int], registers, heap, world, fuel);
        lemma_loop_free_rest_ends(cs, i + 1, a.registers, a.heap, a.world, fuel);
    }
}

/// The evaluation of an expression needs no fuel: it finishes, fails or
/// starves.
pub proof fn lemma_eval_ends(e: ExprModel, registers: Map<Seq<u8>, i128>, heap: Heap, world: World)
    ensures
        !(eval(e, registers, heap, world).end is Unfinished),
    decreases e,
{
    reveal(eval);
    match e {
        ExprModel::UnOp(_, inner) => {
            lemma_eval_ends(*inner, registers, heap, world);
        },
        ExprModel::BinOp(_, l, r) => {
            lemma_eval_ends(*l, registers, heap, world);
            let a = eval(*l, registers, heap, world);
            lemma_eval_ends(*r, registers, a.heap, a.world);
        },
        ExprModel::Call(_, Some(arg)) => {
            lemma_eval_ends(*arg, registers, heap, world);
        },
        _ => {},
    }
}

/// The state `s`, which waits for input, after the value `v` was handed
/// over.
pub open spec fn feed(s: State, v: i128) -> State {
    State { values: s.values.push(v), waiting: None, ..s }
}

/// One step of the machine together with what the surroundings do for it:
/// what it asks to be written is written, and where it waits for input it is
/// handed the next value, if there is one.
pub open spec fn drive_step(s: State, w: World) -> (State, World) {
    if s.failed is None && s.waiting is Some {
        if w.ins.len() > 0 {
            (feed(s, w.ins[0]), World { ins: w.ins.skip(1), outs: w.outs })
        } else {
            (s, w)
        }
    } else {
        match step(s).1 {
            Action::WriteInt(v) => (
                step(s).0,
                World { ins: w.ins, outs: w.outs.push(Action::WriteInt(v)) },
            ),
            Action::WriteChar(c) => (
                step(s).0,
                World { ins: w.ins, outs: w.outs.push(Action::WriteChar(c)) },
            ),
            _ => (step(s).0, w),
        }
    }
}

/// `n` steps of the machine and its surroundings.
#[verifier::opaque]
pub open spec fn drive(s: State, w: World, n: nat) -> (State, World)
    decreases n,
{
    if n == 0 {
        (s, w)
    } else {
        drive(drive_step(s, w).0, drive_step(s, w).1, (n - 1) as nat)
    }
}

/// The state `s` has nothing to do but what its tasks say: it has not
/// failed and does not wait for input.
pub open spec fn ready(s: State) -> bool {
    s.failed is None && s.waiting is None
}

/// The machine does not go on from `s` in the surroundings `w`: it has
/// failed, or it waits for input and there is none, or it has nothing left
/// to do.
pub open spec fn stuck(s: State, w: World) -> bool {
    s.failed is Some || (s.waiting is Some && w.ins.len() == 0) || (s.waiting is None
        && s.tasks.len() == 0)
}

/// `a + b` steps are `a` steps and then `b` steps.
pub proof fn lemma_drive_add(s: State, w: World, a: nat, b: nat)
    ensures
        drive(s, w, a + b) == drive(drive(s, w, a).0, drive(s, w, a).1, b),
    decreases a,
{
    reveal(drive);
    if a > 0 {
        lemma_drive_add(drive_step(s, w).0, drive_step(s, w).1, (a - 1) as nat, b);
    }
}

/// A machine that does not go on stays where it is.
pub proof fn lemma_stuck(s: State, w: World, n: nat)
    requires
        stuck(s, w),
    ensures
        drive(s, w, n) == (s, w),
    decreases n,
{
    reveal(drive);
    reveal(step);
    if n > 0 {
        lemma_stuck(s, w, (n - 1) as nat);
    }
}

/// One step and then `n` more are `n + 1` steps.
pub proof fn lemma_drive_first(s: State, w: World, n: nat)
    ensures
        drive(s, w, n + 1) == drive(drive_step(s, w).0, drive_step(s, w).1, n),
{
    reveal(drive);
}

/// The state `s` after an evaluation that it was the rest of has ended in
/// `o` and left the machine in `after`: the machine has done what `o` says,
/// and where the evaluation finished, it is `s` again but for the
/// environment and the heap.
pub open spec fn arrived<T>(s: State, o: Outcome<T>, after: (State, World)) -> bool {
    &&& after.1 == o.world
    &&& after.0.registers == o.registers
    &&& after.0.heap == o.heap
    &&& match o.end {
        Ending::Finished(_) => ready(after.0) && after.0.tasks == s.tasks,
        Ending::Failed(err) => after.0.failed == Some(err),
        Ending::Starved => after.0.failed is None && after.0.waiting is Some
            && after.1.ins.len() == 0,
        Ending::Unfinished => true,
    }
}

/// One step is what `drive_step` says.
pub proof fn lemma_drive_one(s: State, w: World)
    ensures
        drive(s, w, 1) == drive_step(s, w),
{
    reveal_with_fuel(drive, 2);
}

/// What `a` steps lead to is where `a + 1` steps start their last.
pub proof fn lemma_drive_last(s: State, w: World, a: nat)
    ensures
        drive(s, w, a + 1) == drive_step(drive(s, w, a).0, drive(s, w, a).1),
{
    lemma_drive_add(s, w, a, 1);
    lemma_drive_one(drive(s, w, a).0, drive(s, w, a).1);
}

/// The state `s` with `v` pushed and the heap `heap`: `s` after an
/// expression was evaluated.
pub open spec fn resume(s: State, v: i128, heap: Heap) -> State {
    State { values: s.values.push(v), heap, ..s }
}

/// The machine arrives at the value of the expression `e`: from the state
/// `s` with the task to evaluate `e` on top, it takes as many steps as `eval`
/// counts, and then either has the value of `e` on its stack, the heap as
/// `eval` leaves it and everything else as in `s`; or has failed for the
/// reason that `eval` gives; or waits for input that is not there.
pub open spec fn evaluates(e: ExprModel, s: State, w: World) -> bool {
    let o = eval(e, s.registers, s.heap, w);
    let after = drive(with_task(s, TaskModel::Eval(e)), w, o.steps);
    &&& arrived(s, o, after)
    &&& o.registers == s.registers
    &&& !(o.end is Unfinished)
    &&& o.end matches Ending::Finished(v) ==> after.0 == resume(s, v, o.heap)
}

/// The machine arrives at the value of a literal or an identifier.
proof fn lemma_eval_leaf(e: ExprModel, s: State, w: World)
    requires
        ready(s),
        e is Int || e is Ident,
    ensures
        evaluates(e, s, w),
{
    reveal(eval);
    let s0 = with_task(s, TaskModel::Eval(e));
    lemma_step_with_task(s, TaskModel::Eval(e));
    lemma_drive_one(s0, w);
    match e {
        ExprModel::Int(i) => {
            assert(drive_step(s0, w).0 =~= resume(s, i, s.heap));
        },
        ExprModel::Ident(x) => {
            if s.registers.contains_key(x) {
                assert(drive_step(s0, w).0 =~= resume(s, s.registers[x], s.heap));
            }
        },
        _ => {},
    }
}

/// The machine arrives at the value of `op inner`, if it arrives at that of
/// `inner`.
proof fn lemma_eval_unary(op: UnOp, inner: ExprModel, s: State, w: World)
    requires
        ready(s),
        evaluates(inner, with_task(s, TaskModel::Unary(op)), w),
    ensures
        evaluates(ExprModel::UnOp(op, Box::new(inner)), s, w),
{
    reveal(eval);
    let e = ExprModel::UnOp(op, Box::new(inner));
    let s0 = with_task(s, TaskModel::Eval(e));
    let o = eval(e, s.registers, s.heap, w);
    lemma_step_with_task(s, TaskModel::Eval(e));
    lemma_drive_one(s0, w);
    let s1 = with_task(s, TaskModel::Unary(op));
    let a = eval(inner, s.registers, s.heap, w);
    lemma_drive_first(s0, w, a.steps);
    match a.end {
        Ending::Finished(v) => {
            let back = resume(s, v, a.heap);
            assert(resume(s1, v, a.heap) =~= with_task(back, TaskModel::Unary(op)));
            lemma_step_with_task(back, TaskModel::Unary(op));
            lemma_drive_last(s0, w, a.steps + 1);
            assert(back.values.drop_last() =~= s.values);
            match op {
                UnOp::Deref => match load(a.heap, v) {
                    Ok(x) => {
                        assert(drive(s0, w, o.steps).0 =~= resume(s, x, o.heap));
                    },
                    Err(_) => {},
                },
                _ => {
                    assert(drive(s0, w, o.steps).0 =~= resume(s, un_value(op, v), o.heap));
                },
            }
        },
        _ => {},
    }
}

/// The machine arrives at the value of `l op r`, if it arrives at that of
/// `l` and then at that of `r`.
proof fn lemma_eval_binary(op: crate::ast::BinOp, l: ExprModel, r: ExprModel, s: State, w: World)
    requires
        ready(s),
        evaluates(l, with_task(with_task(s, TaskModel::Binary(op)), TaskModel::Eval(r)), w),
        eval(l, s.registers, s.heap, w).end matches Ending::Finished(x) ==> evaluates(
            r,
            with_task(resume(s, x, eval(l, s.registers, s.heap, w).heap), TaskModel::Binary(op)),
            eval(l, s.registers, s.heap, w).world,
        ),
    ensures
        evaluates(ExprModel::BinOp(op, Box::new(l), Box::new(r)), s, w),
{
    reveal(eval);
    let e = ExprModel::BinOp(op, Box::new(l), Box::new(r));
    let s0 = with_task(s, TaskModel::Eval(e));
    let o = eval(e, s.registers, s.heap, w);
    lemma_step_with_task(s, TaskModel::Eval(e));
    lemma_drive_one(s0, w);
    let s1 = with_task(with_task(s, TaskModel::Binary(op)), TaskModel::Eval(r));
    let a = eval(l, s.registers, s.heap, w);
    lemma_drive_first(s0, w, a.steps);
    match a.end {
        Ending::Finished(x) => {
            let mid = with_task(resume(s, x, a.heap), TaskModel::Binary(op));
            assert(resume(s1, x, a.heap) =~= with_task(mid, TaskModel::Eval(r)));
            let b = eval(r, s.registers, a.heap, a.world);
            lemma_drive_add(s0, w, a.steps + 1, b.steps);
            match b.end {
                Ending::Finished(y) => {
                    let back = resume(resume(s, x, a.heap), y, b.heap);
                    assert(resume(mid, y, b.heap) =~= with_task(back, TaskModel::Binary(op)));
                    lemma_step_with_task(back, TaskModel::Binary(op));
                    lemma_drive_last(s0, w, a.steps + 1 + b.steps);
                    assert(back.values.drop_last() =~= s.values.push(x));
                    assert(back.values.drop_last().drop_last() =~= s.values);
                    match bin_value(op, x, y) {
                        Ok(v) => {
                            assert(drive(s0, w, o.steps).0 =~= resume(s, v, o.heap));
                        },
                        Err(_) => {},
                    }
                },
                _ => {},
            }
        },
        _ => {},
    }
}

/// The machine arrives at the value of a call without an argument.
proof fn lemma_eval_read(name: Seq<u8>, s: State, w: World)
    requires
        ready(s),
    ensures
        evaluates(ExprModel::Call(name, None), s, w),
{
    reveal(eval);
    let e = ExprModel::Call(name, None);
    let s0 = with_task(s, TaskModel::Eval(e));
    lemma_step_with_task(s, TaskModel::Eval(e));
    lemma_drive_one(s0, w);
    match builtin_of(name, false) {
        Some(Builtin::ReadInt) | Some(Builtin::ReadChar) => {
            let waits = drive_step(s0, w).0;
            if w.ins.len() > 0 {
                lemma_drive_last(s0, w, 1);
                assert(drive_step(waits, w).0 =~= resume(s, w.ins[0], s.heap));
            }
        },
        _ => {},
    }
}

/// The machine arrives at the value of a call with the argument `arg`, if it
/// arrives at the value of `arg`.
proof fn lemma_eval_call(name: Seq<u8>, arg: ExprModel, s: State, w: World)
    requires
        ready(s),
        builtin_of(name, true) matches Some(f) ==> evaluates(arg, with_task(s, TaskModel::Call(f)), w),
    ensures
        evaluates(ExprModel::Call(name, Some(Box::new(arg))), s, w),
{
    reveal(eval);
    let e = ExprModel::Call(name, Some(Box::new(arg)));
    let s0 = with_task(s, TaskModel::Eval(e));
    let o = eval(e, s.registers, s.heap, w);
    lemma_step_with_task(s, TaskModel::Eval(e));
    lemma_drive_one(s0, w);
    match builtin_of(name, true) {
        None => {},
        Some(f) => {
            let s1 = with_task(s, TaskModel::Call(f));
            let a = eval(arg, s.registers, s.heap, w);
            lemma_drive_first(s0, w, a.steps);
            match a.end {
                Ending::Finished(v) => {
                    let back = resume(s, v, a.heap);
                    assert(resume(s1, v, a.heap) =~= with_task(back, TaskModel::Call(f)));
                    lemma_step_with_task(back, TaskModel::Call(f));
                    lemma_drive_last(s0, w, a.steps + 1);
                    assert(back.values.drop_last() =~= s.values);
                    match f {
                        Builtin::Malloc => match allocate(a.heap, v) {
                            Ok((heap, start)) => {
                                assert(drive(s0, w, o.steps).0 =~= resume(s, start, o.heap));
                            },
                            Err(_) => {},
                        },
                        Builtin::Free => {
                            assert(drive(s0, w, o.steps).0 =~= resume(
                                s,
                                release(a.heap, v).1,
                                o.heap,
                            ));
                        },
                        _ => {},
                    }
                },
                _ => {},
            }
        },
    }
}

/// The machine arrives at the value of every expression.
pub proof fn lemma_eval(e: ExprModel, s: State, w: World)
    requires
        ready(s),
    ensures
        evaluates(e, s, w),
    decreases e,
{
    match e {
        ExprModel::Int(_) | ExprModel::Ident(_) => {
            lemma_eval_leaf(e, s, w);
        },
        ExprModel::UnOp(op, inner) => {
            lemma_eval(*inner, with_task(s, TaskModel::Unary(op)), w);
            lemma_eval_unary(op, *inner, s, w);
        },
        ExprModel::BinOp(op, l, r) => {
            lemma_eval(*l, with_task(with_task(s, TaskModel::Binary(op)), TaskModel::Eval(*r)), w);
            let a = eval(*l, s.registers, s.heap, w);
            match a.end {
                Ending::Finished(x) => {
                    lemma_eval(*r, with_task(resume(s, x, a.heap), TaskModel::Binary(op)), a.world);
                },
                _ => {},
            }
            lemma_eval_binary(op, *l, *r, s, w);
        },
        ExprModel::Call(name, arg) => match arg {
            None => {
                lemma_eval_read(name, s, w);
            },
            Some(a) => {
                match builtin_of(name, true) {
                    Some(f) => {
                        lemma_eval(*a, with_task(s, TaskModel::Call(f)), w);
                    },
                    None => {},
                }
                lemma_eval_call(name, *a, s, w);
            },
        },
    }
}

/// The state `s` with another environment and another heap: `s` after a
/// command was executed.
pub open spec fn carry_on(s: State, registers: Map<Seq<u8>, i128>, heap: Heap) -> State {
    State { registers, heap, ..s }
}

/// The effect of the body of a loop in the round that starts in the state
/// `s`, after the condition was evaluated.
pub open spec fn round(cond: ExprModel, body: CmdModel, s: State, w: World, fuel: nat) -> Outcome<
    (),
> {
    exec(
        body,
        s.registers,
        eval(cond, s.registers, s.heap, w).heap,
        eval(cond, s.registers, s.heap, w).world,
        (fuel - 1) as nat,
    )
}

/// The machine has done what the outcome `o` of a command says and, where
/// the command finished, is in the state `s` again but for the environment
/// and the heap.
pub open spec fn settles(s: State, o: Outcome<()>, after: (State, World)) -> bool {
    &&& arrived(s, o, after)
    &&& o.end is Finished ==> after.0 == carry_on(s, o.registers, o.heap)
}

/// The machine arrives at the effect of the command `c`: from the state `s`
/// with the task to execute `c` on top, it takes as many steps as `exec`
/// counts, and then either has the environment and the heap as `exec` leaves
/// them and everything else as in `s`; or has failed for the reason that
/// `exec` gives; or waits for input that is not there. Nothing is said where
/// `exec` does not finish for want of fuel.
pub open spec fn executes(c: CmdModel, s: State, w: World, fuel: nat) -> bool {
    let o = exec(c, s.registers, s.heap, w, fuel);
    settles(s, o, drive(with_task(s, TaskModel::Exec(c)), w, o.steps))
}

/// The machine arrives at the effect of the commands of `cs` from the
/// `i`-th on.
pub open spec fn continues(cs: Seq<CmdModel>, i: nat, s: State, w: World, fuel: nat) -> bool {
    let o = rest(cs, i, s.registers, s.heap, w, fuel);
    settles(s, o, drive(with_task(s, TaskModel::Rest(cs, i)), w, o.steps))
}

/// The machine arrives at the effect of a loop, from the evaluation of its
/// condition on.
pub open spec fn repeats(cond: ExprModel, body: CmdModel, s: State, w: World, fuel: nat) -> bool {
    let o = repeat(cond, body, s.registers, s.heap, w, fuel);
    settles(
        s,
        o,
        drive(with_task(with_task(s, TaskModel::Loop(cond, body)), TaskModel::Eval(cond)), w, o.steps),
    )
}

/// The machine arrives at the effect of an expression statement.
proof fn lemma_exec_expr(e: ExprModel, s: State, w: World, fuel: nat)
    requires
        ready(s),
    ensures
        executes(CmdModel::Expr(e), s, w, fuel),
{
    reveal(exec);
    let c = CmdModel::Expr(e);
    let s0 = with_task(s, TaskModel::Exec(c));
    let o = exec(c, s.registers, s.heap, w, fuel);
    lemma_step_with_task(s, TaskModel::Exec(c));
    lemma_drive_one(s0, w);
    let s1 = with_task(s, TaskModel::Discard);
    let a = eval(e, s.registers, s.heap, w);
    lemma_eval(e, s1, w);
    lemma_drive_first(s0, w, a.steps);
    match a.end {
        Ending::Finished(v) => {
            let back = resume(s, v, a.heap);
            assert(resume(s1, v, a.heap) =~= with_task(back, TaskModel::Discard));
            lemma_step_with_task(back, TaskModel::Discard);
            lemma_drive_last(s0, w, a.steps + 1);
            assert(back.values.drop_last() =~= s.values);
            assert(drive(s0, w, o.steps).0 =~= carry_on(s, o.registers, o.heap));
        },
        _ => {},
    }
}

/// The machine arrives at the effect of a declaration.
proof fn lemma_exec_decl(x: Seq<u8>, s: State, w: World, fuel: nat)
    requires
        ready(s),
    ensures
        executes(CmdModel::Decl(x), s, w, fuel),
{
    reveal(exec);
    let c = CmdModel::Decl(x);
    let s0 = with_task(s, TaskModel::Exec(c));
    lemma_step_with_task(s, TaskModel::Exec(c));
    lemma_drive_one(s0, w);
}

/// The machine arrives at the effect of an assignment.
proof fn lemma_exec_assign(target: ExprModel, value: ExprModel, s: State, w: World, fuel: nat)
    requires
        ready(s),
    ensures
        executes(CmdModel::Assign(target, value), s, w, fuel),
{
    reveal(exec);
    let c = CmdModel::Assign(target, value);
    let s0 = with_task(s, TaskModel::Exec(c));
    let o = exec(c, s.registers, s.heap, w, fuel);
    lemma_step_with_task(s, TaskModel::Exec(c));
    lemma_drive_one(s0, w);
    let s1 = with_task(s, TaskModel::AssignTo(target));
    let a = eval(value, s.registers, s.heap, w);
    lemma_eval(value, s1, w);
    lemma_drive_first(s0, w, a.steps);
    match a.end {
        Ending::Finished(v) => {
            let back = resume(s, v, a.heap);
            assert(resume(s1, v, a.heap) =~= with_task(back, TaskModel::AssignTo(target)));
            lemma_step_with_task(back, TaskModel::AssignTo(target));
            lemma_drive_last(s0, w, a.steps + 1);
            assert(back.values.drop_last() =~= s.values);
            match target {
                ExprModel::Ident(x) => {
                    assert(drive(s0, w, o.steps).0 =~= carry_on(s, o.registers, o.heap));
                },
                ExprModel::UnOp(UnOp::Deref, inner) => {
                    let s2 = with_task(back, TaskModel::Poke);
                    let b = eval(*inner, s.registers, a.heap, a.world);
                    lemma_eval(*inner, s2, a.world);
                    lemma_drive_add(s0, w, a.steps + 2, b.steps);
                    match b.end {
                        Ending::Finished(offset) => {
                            let top = resume(back, offset, b.heap);
                            assert(resume(s2, offset, b.heap) =~= with_task(top, TaskModel::Poke));
                            lemma_step_with_task(top, TaskModel::Poke);
                            lemma_drive_last(s0, w, a.steps + 2 + b.steps);
                            assert(top.values.drop_last() =~= back.values);
                            assert(top.values.drop_last().drop_last() =~= s.values);
                            match store(b.heap, offset, v) {
                                Ok(heap) => {
                                    assert(drive(s0, w, o.steps).0 =~= carry_on(
                                        s,
                                        o.registers,
                                        o.heap,
                                    ));
                                },
                                Err(_) => {},
                            }
                        },
                        _ => {},
                    }
                },
                _ => {},
            }
        },
        _ => {},
    }
}

/// The machine arrives at the effect of a sequence, if it arrives at that of
/// its commands from the first on.
proof fn lemma_exec_sequence(cs: Seq<CmdModel>, s: State, w: World, fuel: nat)
    requires
        ready(s),
        continues(cs, 0, s, w, fuel),
    ensures
        executes(CmdModel::Sequence(cs), s, w, fuel),
{
    reveal(exec);
    reveal(rest);
    let c = CmdModel::Sequence(cs);
    let s0 = with_task(s, TaskModel::Exec(c));
    lemma_step_with_task(s, TaskModel::Exec(c));
    lemma_drive_one(s0, w);
    lemma_drive_first(s0, w, rest(cs, 0, s.registers, s.heap, w, fuel).steps);
}

/// The machine arrives at the effect of a conditional, if it arrives at that
/// of the branch taken.
proof fn lemma_exec_if(
    cond: ExprModel,
    first: CmdModel,
    second: CmdModel,
    s: State,
    w: World,
    fuel: nat,
)
    requires
        ready(s),
        eval(cond, s.registers, s.heap, w).end matches Ending::Finished(v) ==> executes(
            if v != 0 {
                first
            } else {
                second
            },
            carry_on(s, s.registers, eval(cond, s.registers, s.heap, w).heap),
            eval(cond, s.registers, s.heap, w).world,
            fuel,
        ),
    ensures
        executes(CmdModel::If(cond, Box::new(first), Box::new(second)), s, w, fuel),
{
    reveal(exec);
    let c = CmdModel::If(cond, Box::new(first), Box::new(second));
    let s0 = with_task(s, TaskModel::Exec(c));
    let o = exec(c, s.registers, s.heap, w, fuel);
    lemma_step_with_task(s, TaskModel::Exec(c));
    lemma_drive_one(s0, w);
    let s1 = with_task(s, TaskModel::Branch(first, second));
    let a = eval(cond, s.registers, s.heap, w);
    lemma_eval(cond, s1, w);
    lemma_drive_first(s0, w, a.steps);
    match a.end {
        Ending::Finished(v) => {
            let back = resume(s, v, a.heap);
            assert(resume(s1, v, a.heap) =~= with_task(back, TaskModel::Branch(first, second)));
            lemma_step_with_task(back, TaskModel::Branch(first, second));
            lemma_drive_last(s0, w, a.steps + 1);
            assert(back.values.drop_last() =~= s.values);
            let s2 = carry_on(s, s.registers, a.heap);
            assert(pop(back) =~= s2);
            let chosen = if v != 0 {
                first
            } else {
                second
            };
            let b = exec(chosen, s.registers, a.heap, a.world, fuel);
            lemma_drive_add(s0, w, a.steps + 2, b.steps);
            match b.end {
                Ending::Finished(_) => {
                    assert(drive(s0, w, o.steps).0 =~= carry_on(s, o.registers, o.heap));
                },
                _ => {},
            }
        },
        _ => {},
    }
}

/// The machine arrives at the effect of a loop, if it does so from the
/// evaluation of its condition on.
proof fn lemma_exec_while(cond: ExprModel, body: CmdModel, s: State, w: World, fuel: nat)
    requires
        ready(s),
        repeats(cond, body, s, w, fuel),
    ensures
        executes(CmdModel::While(cond, Box::new(body)), s, w, fuel),
{
    reveal(exec);
    reveal(repeat);
    let c = CmdModel::While(cond, Box::new(body));
    let s0 = with_task(s, TaskModel::Exec(c));
    lemma_step_with_task(s, TaskModel::Exec(c));
    lemma_drive_one(s0, w);
    lemma_drive_first(s0, w, repeat(cond, body, s.registers, s.heap, w, fuel).steps);
}

/// The machine arrives at the effect of the commands of a sequence from the
/// `i`-th on, if it arrives at that of the `i`-th and then at that of those
/// after it.
proof fn lemma_rest_step(cs: Seq<CmdModel>, i: nat, s: State, w: World, fuel: nat)
    requires
        ready(s),
        i < cs.len() ==> executes(cs[i as int], with_task(s, TaskModel::Rest(cs, i + 1)), w, fuel),
        i < cs.len() && exec(cs[i as int], s.registers, s.heap, w, fuel).end is Finished
            ==> continues(
            cs,
            i + 1,
            carry_on(
                s,
                exec(cs[i as int], s.registers, s.heap, w, fuel).registers,
                exec(cs[i as int], s.registers, s.heap, w, fuel).heap,
            ),
            exec(cs[i as int], s.registers, s.heap, w, fuel).world,
            fuel,
        ),
    ensures
        continues(cs, i, s, w, fuel),
{
    reveal(rest);
    reveal(exec);
    let s0 = with_task(s, TaskModel::Rest(cs, i));
    let o = rest(cs, i, s.registers, s.heap, w, fuel);
    lemma_step_with_task(s, TaskModel::Rest(cs, i));
    lemma_drive_one(s0, w);
    if i < cs.len() {
        let s1 = with_task(s, TaskModel::Rest(cs, i + 1));
        let a = exec(cs[i as int], s.registers, s.heap, w, fuel);
        lemma_drive_first(s0, w, a.steps);
        match a.end {
            Ending::Finished(_) => {
                let s2 = carry_on(s, a.registers, a.heap);
                assert(carry_on(s1, a.registers, a.heap) =~= with_task(s2, TaskModel::Rest(cs, i + 1)));
                let b = rest(cs, i + 1, a.registers, a.heap, a.world, fuel);
                lemma_drive_add(s0, w, a.steps + 1, b.steps);
                match b.end {
                    Ending::Finished(_) => {
                        assert(drive(s0, w, o.steps).0 =~= carry_on(s, o.registers, o.heap));
                    },
                    _ => {},
                }
            },
            _ => {},
        }
    } else {
        assert(drive(s0, w, o.steps).0 =~= carry_on(s, o.registers, o.heap));
    }
}

/// The machine arrives at the effect of a loop from the evaluation of its
/// condition on, if it arrives at that of the body and then at that of the
/// rounds after it.
proof fn lemma_repeat_step(cond: ExprModel, body: CmdModel, s: State, w: World, fuel: nat)
    requires
        ready(s),
        fuel > 0 && (eval(cond, s.registers, s.heap, w).end matches Ending::Finished(v) && v != 0)
            ==> executes(
            body,
            with_task(
                with_task(
                    carry_on(s, s.registers, eval(cond, s.registers, s.heap, w).heap),
                    TaskModel::Loop(cond, body),
                ),
                TaskModel::Eval(cond),
            ),
            eval(cond, s.registers, s.heap, w).world,
            (fuel - 1) as nat,
        ),
        fuel > 0 && (eval(cond, s.registers, s.heap, w).end matches Ending::Finished(v) && v != 0)
            && round(cond, body, s, w, fuel).end is Finished ==> repeats(
            cond,
            body,
            carry_on(s, round(cond, body, s, w, fuel).registers, round(cond, body, s, w, fuel).heap),
            round(cond, body, s, w, fuel).world,
            (fuel - 1) as nat,
        ),
    ensures
        repeats(cond, body, s, w, fuel),
{
    reveal(repeat);
    reveal(exec);
    let s1 = with_task(s, TaskModel::Loop(cond, body));
    let s0 = with_task(s1, TaskModel::Eval(cond));
    let o = repeat(cond, body, s.registers, s.heap, w, fuel);
    let a = eval(cond, s.registers, s.heap, w);
    lemma_eval(cond, s1, w);
    match a.end {
        Ending::Finished(v) => {
            let back = resume(s, v, a.heap);
            assert(resume(s1, v, a.heap) =~= with_task(back, TaskModel::Loop(cond, body)));
            lemma_step_with_task(back, TaskModel::Loop(cond, body));
            lemma_drive_last(s0, w, a.steps);
            assert(back.values.drop_last() =~= s.values);
            let s2 = carry_on(s, s.registers, a.heap);
            assert(pop(back) =~= s2);
            if v == 0 {
                assert(drive(s0, w, o.steps).0 =~= carry_on(s, o.registers, o.heap));
            } else if fuel > 0 {
                let again = with_task(
                    with_task(s2, TaskModel::Loop(cond, body)),
                    TaskModel::Eval(cond),
                );
                let b = round(cond, body, s, w, fuel);
                lemma_drive_add(s0, w, a.steps + 1, b.steps);
                match b.end {
                    Ending::Finished(_) => {
                        let s3 = carry_on(s, b.registers, b.heap);
                        assert(carry_on(again, b.registers, b.heap) =~= with_task(
                            with_task(s3, TaskModel::Loop(cond, body)),
                            TaskModel::Eval(cond),
                        ));
                        let r = repeat(
                            cond,
                            body,
                            b.registers,
                            b.heap,
                            b.world,
                            (fuel - 1) as nat,
                        );
                        lemma_drive_add(s0, w, a.steps + 1 + b.steps, r.steps);
                        match r.end {
                            Ending::Finished(_) => {
                                assert(drive(s0, w, o.steps).0 =~= carry_on(
                                    s,
                                    o.registers,
                                    o.heap,
                                ));
                            },
                            _ => {},
                        }
                    },
                    _ => {},
                }
            }
        },
        _ => {},
    }
}

/// The machine arrives at the effect of every command.
pub proof fn lemma_exec(c: CmdModel, s: State, w: World, fuel: nat)
    requires
        ready(s),
    ensures
        executes(c, s, w, fuel),
    decreases fuel, c, 0nat,
{
    match c {
        CmdModel::Expr(e) => {
            lemma_exec_expr(e, s, w, fuel);
        },
        CmdModel::Decl(x) => {
            lemma_exec_decl(x, s, w, fuel);
        },
        CmdModel::Assign(target, value) => {
            lemma_exec_assign(target, value, s, w, fuel);
        },
        CmdModel::Sequence(cs) => {
            lemma_rest(cs, 0, s, w, fuel);
            lemma_exec_sequence(cs, s, w, fuel);
        },
        CmdModel::If(cond, first, second) => {
            let a = eval(cond, s.registers, s.heap, w);
            lemma_eval(cond, with_task(s, TaskModel::Branch(*first, *second)), w);
            match a.end {
                Ending::Finished(v) => {
                    lemma_exec(
                        if v != 0 {
                            *first
                        } else {
                            *second
                        },
                        carry_on(s, s.registers, a.heap),
                        a.world,
                        fuel,
                    );
                },
                _ => {},
            }
            lemma_exec_if(cond, *first, *second, s, w, fuel);
        },
        CmdModel::While(cond, body) => {
            lemma_repeat(cond, *body, s, w, fuel);
            lemma_exec_while(cond, *body, s, w, fuel);
        },
    }
}

/// The machine arrives at the effect of the commands of a sequence from any
/// of them on.
pub proof fn lemma_rest(cs: Seq<CmdModel>, i: nat, s: State, w: World, fuel: nat)
    requires
        ready(s),
    ensures
        continues(cs, i, s, w, fuel),
    decreases fuel, cs, cs.len() - i,
{
    if i < cs.len() {
        let a = exec(cs[i as int], s.registers, s.heap, w, fuel);
        lemma_exec(cs[i as int], with_task(s, TaskModel::Rest(cs, i + 1)), w, fuel);
        if a.end is Finished {
            lemma_rest(cs, i + 1, carry_on(s, a.registers, a.heap), a.world, fuel);
        }
    }
    lemma_rest_step(cs, i, s, w, fuel);
}

/// The machine arrives at the effect of every loop.
pub proof fn lemma_repeat(cond: ExprModel, body: CmdModel, s: State, w: World, fuel: nat)
    requires
        ready(s),
    ensures
        repeats(cond, body, s, w, fuel),
    decreases fuel, body, 1nat,
{
    let a = eval(cond, s.registers, s.heap, w);
    lemma_eval(cond, with_task(s, TaskModel::Loop(cond, body)), w);
    match a.end {
        Ending::Finished(v) => {
            if v != 0 && fuel > 0 {
                let b = round(cond, body, s, w, fuel);
                lemma_exec(
                    body,
                    with_task(
                        with_task(carry_on(s, s.registers, a.heap), TaskModel::Loop(cond, body)),
                        TaskModel::Eval(cond),
                    ),
                    a.world,
                    (fuel - 1) as nat,
                );
                if b.end is Finished {
                    lemma_repeat(
                        cond,
                        body,
                        carry_on(s, b.registers, b.heap),
                        b.world,
                        (fuel - 1) as nat,
                    );
                }
            }
        },
        _ => {},
    }
    lemma_repeat_step(cond, body, s, w, fuel);
}

/// Handing over what was asked for is feeding: an integer to a machine that
/// waits for an integer, and a character, as its code, to one that waits for
/// a character.
pub proof fn lemma_supply_feeds(s: State, v: i128, c: char)
    requires
        s.failed is None,
        s.waiting is Some,
    ensures
        s.waiting == Some(Input::Int) ==> supply_int(s, v) == feed(s, v),
        s.waiting == Some(Input::Char) ==> supply_char(s, c) == feed(s, c as i128),
{
}

/// Evaluation is determined by the program, the environment, the heap and
/// what there is to read. Two machines that execute the same command `c`,
/// start with the same environment and the same heap, and are handed the
/// same input, end with the same environment and the same heap, have written
/// the same, have read as much, and have both failed for the same reason or
/// not failed: whatever else either of them has to do afterwards.
pub proof fn lemma_execution_is_determined(
    c: CmdModel,
    first: State,
    second: State,
    w: World,
    fuel: nat,
)
    requires
        ready(first),
        ready(second),
        first.registers == second.registers,
        first.heap == second.heap,
    ensures
        ({
            let o = exec(c, first.registers, first.heap, w, fuel);
            let a = drive(with_task(first, TaskModel::Exec(c)), w, o.steps);
            let b = drive(with_task(second, TaskModel::Exec(c)), w, o.steps);
            &&& a.0.registers == b.0.registers
            &&& a.0.heap == b.0.heap
            &&& a.1 == b.1
            &&& !(o.end is Unfinished) ==> a.0.failed == b.0.failed
        }),
{
    lemma_exec(c, first, w, fuel);
    lemma_exec(c, second, w, fuel);
}

/// The value of an expression is determined in the same way: two machines
/// that evaluate the same expression `e`, start with the same environment
/// and the same heap, and are handed the same input, arrive at the same
/// value and the same heap, or fail for the same reason.
pub proof fn lemma_evaluation_is_determined(e: ExprModel, first: State, second: State, w: World)
    requires
        ready(first),
        ready(second),
        first.registers == second.registers,
        first.heap == second.heap,
    ensures
        ({
            let o = eval(e, first.registers, first.heap, w);
            let a = drive(with_task(first, TaskModel::Eval(e)), w, o.steps);
            let b = drive(with_task(second, TaskModel::Eval(e)), w, o.steps);
            &&& a.0.registers == b.0.registers
            &&& a.0.heap == b.0.heap
            &&& a.1 == b.1
            &&& a.0.failed == b.0.failed
            &&& o.end is Finished ==> a.0.values.last() == b.0.values.last()
        }),
{
    lemma_eval(e, first, w);
    lemma_eval(e, second, w);
}

/// Given steps enough, the machine comes to the effect of the command `c`
/// and stays there: started on `c` alone, in the environment `registers`, on
/// the heap `heap` and with `w` around it, after `n` steps, where `n` is at
/// least what `exec` counts, it has the environment, the heap and the
/// surroundings that `exec` gives, and either has nothing left to do, or has
/// failed for the reason that `exec` gives, or waits for input that is not
/// there. Nothing is said where `exec` does not finish for want of fuel.
pub proof fn lemma_machine_executes(
    c: CmdModel,
    registers: Map<Seq<u8>, i128>,
    heap: Heap,
    w: World,
    fuel: nat,
    n: nat,
)
    requires
        n >= exec(c, registers, heap, w, fuel).steps,
        !(exec(c, registers, heap, w, fuel).end is Unfinished),
    ensures
        ({
            let o = exec(c, registers, heap, w, fuel);
            let after = drive(start(TaskModel::Exec(c), registers, heap), w, n);
            &&& after.0.registers == o.registers
            &&& after.0.heap == o.heap
            &&& after.1 == o.world
            &&& match o.end {
                Ending::Finished(_) => ready(after.0) && after.0.tasks.len() == 0,
                Ending::Failed(err) => after.0.failed == Some(err),
                _ => after.0.failed is None && after.0.waiting is Some && after.1.ins.len() == 0,
            }
        }),
{
    let s = State {
        tasks: Seq::empty(),
        values: Seq::empty(),
        registers,
        heap,
        waiting: None,
        failed: None,
    };
    let o = exec(c, registers, heap, w, fuel);
    assert(start(TaskModel::Exec(c), registers, heap) =~= with_task(s, TaskModel::Exec(c)));
    lemma_exec(c, s, w, fuel);
    let there = drive(with_task(s, TaskModel::Exec(c)), w, o.steps);
    lemma_drive_add(with_task(s, TaskModel::Exec(c)), w, o.steps, (n - o.steps) as nat);
    lemma_stuck(there.0, there.1, (n - o.steps) as nat);
}

/// Given steps enough, the machine comes to the value of the expression `e`
/// and stays there: started on `e` alone, after `n` steps, where `n` is at
/// least what `eval` counts, it has the heap and the surroundings that
/// `eval` gives, and either has the value of `e`, and nothing else, on its
/// stack and nothing left to do, or has failed for the reason that `eval`
/// gives, or waits for input that is not there.
pub proof fn lemma_machine_evaluates(
    e: ExprModel,
    registers: Map<Seq<u8>, i128>,
    heap: Heap,
    w: World,
    n: nat,
)
    requires
        n >= eval(e, registers, heap, w).steps,
    ensures
        ({
            let o = eval(e, registers, heap, w);
            let after = drive(start(TaskModel::Eval(e), registers, heap), w, n);
            &&& after.0.registers == registers
            &&& after.0.heap == o.heap
            &&& after.1 == o.world
            &&& match o.end {
                Ending::Finished(v) => ready(after.0) && after.0.tasks.len() == 0
                    && after.0.values == seq![v],
                Ending::Failed(err) => after.0.failed == Some(err),
                _ => after.0.failed is None && after.0.waiting is Some && after.1.ins.len() == 0,
            }
        }),
{
    let s = State {
        tasks: Seq::empty(),
        values: Seq::empty(),
        registers,
        heap,
        waiting: None,
        failed: None,
    };
    let o = eval(e, registers, heap, w);
    assert(start(TaskModel::Eval(e), registers, heap) =~= with_task(s, TaskModel::Eval(e)));
    lemma_eval(e, s, w);
    let there = drive(with_task(s, TaskModel::Eval(e)), w, o.steps);
    lemma_drive_add(with_task(s, TaskModel::Eval(e)), w, o.steps, (n - o.steps) as nat);
    lemma_stuck(there.0, there.1, (n - o.steps) as nat);
    match o.end {
        Ending::Finished(v) => {
            assert(resume(s, v, o.heap).values =~= seq![v]);
        },
        _ => {},
    }
}

} // verus!
