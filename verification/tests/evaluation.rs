use whiledb_nom::{parse, parse_cmd, parse_expr};
use whiledb_nom::{Action, Cmd, Console, Ending, Env, EvalError, Expr, Machine, Mem};

/// What was handed to a program that asked for input.
#[derive(Clone, Copy)]
enum Given {
    Int(i128),
    Char(char),
}

/// Drives `machine` until it is done or has failed, with `input` to read
/// from. The result is what was written, and how it ended.
fn drive(machine: &mut Machine, input: &[Given]) -> (String, Action) {
    let mut written = String::new();
    let mut next = input.iter();
    loop {
        match machine.run(1_000_000) {
            Action::Continue => panic!("the program did not end"),
            Action::WriteInt(v) => written.push_str(&format!("{}", v)),
            Action::WriteChar(c) => written.push(c as char),
            Action::ReadInt => match next.next() {
                Some(Given::Int(v)) => machine.supply_int(*v),
                _ => panic!("an integer was asked for"),
            },
            Action::ReadChar => match next.next() {
                Some(Given::Char(c)) => machine.supply_char(*c),
                _ => panic!("a character was asked for"),
            },
            done => return (written, done),
        }
    }
}

/// The values of `input`, characters as their codes.
fn values(input: &[Given]) -> Vec<i128> {
    input
        .iter()
        .map(|given| match given {
            Given::Int(v) => *v,
            Given::Char(c) => *c as i128,
        })
        .collect()
}

/// What `actions` write, one after the other.
fn text(actions: &[Action]) -> String {
    let mut bytes = Vec::new();
    for action in actions {
        bytes.extend(action.text());
    }
    String::from_utf8(bytes).unwrap()
}

/// How the machine says what the tree walk calls `end`.
fn as_action<T>(end: &Ending<T>) -> Action {
    match end {
        Ending::Finished(_) => Action::Done,
        Ending::Failed(e) => Action::Failed(*e),
        Ending::Starved => panic!("the input ran out"),
        Ending::Unfinished => panic!("the program did not end"),
    }
}

/// Runs the program `src` on a new environment and a new heap: once step by
/// step and once by walking the tree, which must come to the same.
fn run_program(src: &'static str, input: &[Given]) -> (String, Action, Vec<(String, i128)>, Mem<i128>) {
    let program: &'static Cmd<'static> = Box::leak(parse(src.as_bytes()).unwrap());
    let mut machine = Machine::executing(program, Env::new(), Mem::new());
    let (written, end) = drive(&mut machine, input);
    let (env, mem) = machine.into_parts();

    let (mut env2, mut mem2) = (Env::new(), Mem::new());
    let mut console = Console::new(values(input));
    let end2 = program.exec(&mut env2, &mut mem2, &mut console, 1_000_000);
    assert_eq!(as_action(&end2), end);
    assert_eq!(text(&console.written), written);
    assert_eq!(bindings(&env2), bindings(&env));
    assert_eq!(mem2.mem, mem.mem);
    assert_eq!(mem2.malloced, mem.malloced);

    let mut machine = Machine::executing(program, Env::new(), Mem::new());
    let mut console = Console::new(values(input));
    machine.drive(&mut console, u64::MAX);
    assert_eq!(machine.step(), end);
    assert_eq!(text(&console.written), written);
    assert_eq!(bindings(machine.registers()), bindings(&env));
    assert_eq!(machine.memory().mem, mem.mem);

    (written, end, bindings(&env), mem)
}

/// The bindings of `env`, sorted by name.
fn bindings(env: &Env) -> Vec<(String, i128)> {
    let mut all = Vec::new();
    for i in 0..env.len() {
        let (name, value) = env.entry(i);
        all.push((String::from_utf8(name.to_vec()).unwrap(), value));
    }
    all.sort();
    all
}

/// Evaluates the expression `src` with the variables `vars` on a new heap.
fn value_of(src: &'static str, vars: &[(&'static str, i128)]) -> Result<i128, EvalError> {
    let (rest, e) = parse_expr(src.as_bytes()).unwrap();
    assert_eq!(rest, b"");
    let e: &'static Expr<'static> = Box::leak(e);
    let mut env = Env::new();
    for (name, value) in vars {
        env.insert(name.as_bytes(), *value);
    }
    let walked = match e.eval(&env, &mut Mem::new(), &mut Console::new(vec![])) {
        Ending::Finished(v) => Ok(v),
        Ending::Failed(e) => Err(e),
        _ => unreachable!(),
    };
    let mut machine = Machine::evaluating(e, env, Mem::new());
    let stepped = match drive(&mut machine, &[]).1 {
        Action::Done => Ok(machine.value().unwrap()),
        Action::Failed(e) => Err(e),
        _ => unreachable!(),
    };
    assert_eq!(walked, stepped);
    stepped
}

#[test]
fn test_eval_expr() {
    let src = "write_int ( read_int ( ) * k ) + write_char ( 10 ) - 10 + * ( malloc ( 2 ) + 1 )";
    let (remaining_input, output) = parse_expr(src.as_bytes()).unwrap();
    let mut registers = Env::new();
    registers.insert(b"k", 3000);
    println!("{:?} {:?}", remaining_input, output);
    let mut mem = Mem::new();
    let mut console = Console::new(vec![7]);
    let value = output.eval(&registers, &mut mem, &mut console);
    println!("{:?}", value);
    assert_eq!(value, Ending::Finished(21000));
    assert_eq!(text(&console.written), "21000\n");
    assert_eq!(mem.mem, vec![None, Some(0), Some(0)]);
    let mut machine = Machine::evaluating(&output, registers, Mem::new());
    let (written, end) = drive(&mut machine, &[Given::Int(7)]);
    println!("{}", machine.value().unwrap());
    assert_eq!(remaining_input, b"");
    assert_eq!(end, Action::Done);
    assert_eq!(written, "21000\n");
    assert_eq!(machine.value(), Some(21000));
    assert_eq!(machine.memory().mem, vec![None, Some(0), Some(0)]);
}

#[test]
fn test_exec_cmd() {
    let (registers, mem) = (Env::new(), Mem::new());
    let program = parse_cmd(
        "
    var n; var i; var p; var q; var s;
    n = read_int();
    i = 0; p = 0;
    while (i < n) do {
        q = malloc(2);
        * q = read_int();
        * (q + 1) = p;
        p = q;
        i = i + 1
    };
    s = 0;
    while (p != 0) do {
        s = s + * p;
        tmp = * (p + 1);
        free(p);
        p = tmp;
    };
    write_int(s);
    write_char(10)
    "
        .as_bytes(),
    )
    .unwrap()
    .1;
    let input = [Given::Int(3), Given::Int(10), Given::Int(20), Given::Int(30)];
    let (mut registers, mut mem) = (registers, mem);
    let mut console = Console::new(values(&input));
    let walked = program.exec(&mut registers, &mut mem, &mut console, u64::MAX);
    println!("{:?}", (bindings(&registers), &mem));
    assert_eq!(walked, Ending::Finished(()));
    assert_eq!(text(&console.written), "60\n");
    assert_eq!(mem.mem, vec![None; 7]);
    assert_eq!(registers.get(b"s"), Some(60));
    let mut machine = Machine::executing(&program, Env::new(), Mem::new());
    let (written, end) = drive(&mut machine, &input);
    let (registers, mem) = machine.into_parts();
    println!("{:?}", (bindings(&registers), &mem));
    assert_eq!(end, Action::Done);
    assert_eq!(written, "60\n");
    assert_eq!(
        bindings(&registers),
        vec![
            ("i".to_string(), 3),
            ("n".to_string(), 3),
            ("p".to_string(), 0),
            ("q".to_string(), 5),
            ("s".to_string(), 60),
            ("tmp".to_string(), 0),
        ]
    );
    assert_eq!(mem.mem, vec![None; 7]);
    assert!(mem.malloced.is_empty());
}

#[test]
fn precedence_decides_the_value() {
    assert_eq!(value_of("1 + 2 * 3 ^ 2", &[]), Ok(19));
    assert_eq!(value_of("2 ^ 3 ^ 2", &[]), Ok(512));
    assert_eq!(value_of("10 - 3 - 2", &[]), Ok(5));
    assert_eq!(value_of("-1 ^ 2", &[]), Ok(-1));
    assert_eq!(
        value_of("1000000 / (1 + 2 * 3 ^ 4 + 5 - 7 * 5474 / 9110)", &[]),
        Ok(6097)
    );
}

#[test]
fn assignment_rebinds_a_variable() {
    let (written, end, env, _) = run_program("var x; x = 5; x = x + 1;", &[]);
    assert_eq!(end, Action::Done);
    assert_eq!(written, "");
    assert_eq!(env, vec![("x".to_string(), 6)]);
}

#[test]
fn a_declaration_binds_to_zero_and_overwrites() {
    let (_, end, env, _) = run_program("var x; x = 5; var x; var y", &[]);
    assert_eq!(end, Action::Done);
    assert_eq!(env, vec![("x".to_string(), 0), ("y".to_string(), 0)]);
}

#[test]
fn a_cell_can_be_written_and_read_until_it_is_freed() {
    let (written, end, env, mem) = run_program(
        "var p; p = malloc(1); * p = 42; write_int(* p); write_int(free(p)); * p",
        &[],
    );
    assert_eq!(written, "421");
    assert_eq!(end, Action::Failed(EvalError::InvalidMemoryAccess));
    assert_eq!(env, vec![("p".to_string(), 1)]);
    assert_eq!(mem.mem, vec![None, None]);
}

#[test]
fn a_loop_whose_condition_is_zero_does_nothing() {
    let (written, end, env, mem) = run_program("while 0 { var y; }", &[]);
    assert_eq!(end, Action::Done);
    assert_eq!(written, "");
    assert!(env.is_empty());
    assert_eq!(mem.mem, vec![None]);
}

#[test]
fn a_loop_runs_while_its_condition_is_not_zero() {
    let (written, end, env, _) = run_program(
        "var i; var s; i = 5; while i do { s = s + i; i = i - 1 } write_int(s)",
        &[],
    );
    assert_eq!(end, Action::Done);
    assert_eq!(written, "15");
    assert_eq!(env, vec![("i".to_string(), 0), ("s".to_string(), 15)]);
}

#[test]
fn a_loop_without_end_uses_up_any_budget() {
    let program = parse(b"var i; while 1 { i = i + 1 }").unwrap();
    let mut machine = Machine::executing(&program, Env::new(), Mem::new());
    assert_eq!(machine.run(10_000), Action::Continue);
    assert_eq!(machine.run(10_000), Action::Continue);
    assert_eq!(machine.run(0), Action::Continue);
    assert!(machine.registers().get(b"i").unwrap() > 100);
}

#[test]
fn if_takes_the_first_branch_unless_the_condition_is_zero() {
    let src = "var x; if a then { x = 1 } else { x = 2 }";
    for (a, x) in [(1, 1), (-7, 1), (0, 2)] {
        let program = parse(src.as_bytes()).unwrap();
        let mut env = Env::new();
        env.insert(b"a", a);
        let mut machine = Machine::executing(&program, env, Mem::new());
        assert_eq!(drive(&mut machine, &[]).1, Action::Done);
        assert_eq!(machine.registers().get(b"x"), Some(x));
    }
    let (_, end, env, _) = run_program("var x; if 0 { x = 1 }", &[]);
    assert_eq!(end, Action::Done);
    assert_eq!(env, vec![("x".to_string(), 0)]);
}

#[test]
fn division_by_zero_fails() {
    assert_eq!(value_of("1 / 0", &[]), Err(EvalError::DivideByZero));
    assert_eq!(value_of("1 % 0", &[]), Err(EvalError::DivideByZero));
    assert_eq!(value_of("0 / 0", &[]), Err(EvalError::DivideByZero));
}

#[test]
fn an_exponent_must_fit_thirty_two_bits_without_sign() {
    assert_eq!(value_of("2 ^ (0 - 1)", &[]), Err(EvalError::InvalidArgument));
    assert_eq!(value_of("2 ^ (-1)", &[]), Err(EvalError::InvalidArgument));
    assert_eq!(value_of("1 ^ 4294967296", &[]), Err(EvalError::InvalidArgument));
    assert_eq!(value_of("1 ^ 4294967295", &[]), Ok(1));
    assert_eq!(value_of("(-1) ^ 4294967295", &[]), Ok(-1));
    assert_eq!(value_of("7 ^ 0", &[]), Ok(1));
    assert_eq!(value_of("0 ^ 0", &[]), Ok(1));
    assert_eq!(value_of("(-2) ^ 3", &[]), Ok(-8));
}

#[test]
fn division_rounds_towards_zero() {
    assert_eq!(value_of("7 / 2", &[]), Ok(3));
    assert_eq!(value_of("(-7) / 2", &[]), Ok(-3));
    assert_eq!(value_of("7 / (-2)", &[]), Ok(-3));
    assert_eq!(value_of("(-7) / (-2)", &[]), Ok(3));
    assert_eq!(value_of("7 % 2", &[]), Ok(1));
    assert_eq!(value_of("(-7) % 2", &[]), Ok(-1));
    assert_eq!(value_of("7 % (-2)", &[]), Ok(1));
    assert_eq!(value_of("(-7) % (-2)", &[]), Ok(-1));
}

#[test]
fn arithmetic_wraps_round() {
    let max = [("max", i128::MAX), ("min", i128::MIN)];
    assert_eq!(value_of("max + 1", &max), Ok(i128::MIN));
    assert_eq!(value_of("min - 1", &max), Ok(i128::MAX));
    assert_eq!(value_of("max * 2", &max), Ok(-2));
    assert_eq!(value_of("- min", &max), Ok(i128::MIN));
    assert_eq!(value_of("min / (0 - 1)", &max), Ok(i128::MIN));
    assert_eq!(value_of("min % (0 - 1)", &max), Ok(0));
    assert_eq!(value_of("2 ^ 127", &[]), Ok(i128::MIN));
    assert_eq!(value_of("2 ^ 128", &[]), Ok(0));
    assert_eq!(value_of("3 ^ 81", &[]), Ok(3i128.wrapping_pow(81)));
}

#[test]
fn comparisons_give_one_or_zero() {
    assert_eq!(value_of("1 < 2", &[]), Ok(1));
    assert_eq!(value_of("2 < 1", &[]), Ok(0));
    assert_eq!(value_of("2 <= 2", &[]), Ok(1));
    assert_eq!(value_of("2 > 2", &[]), Ok(0));
    assert_eq!(value_of("2 >= 2", &[]), Ok(1));
    assert_eq!(value_of("2 == 2", &[]), Ok(1));
    assert_eq!(value_of("2 != 2", &[]), Ok(0));
    assert_eq!(value_of("(0 - 1) < 0", &[]), Ok(1));
}

#[test]
fn and_or_and_not_go_by_zero_and_not_zero() {
    assert_eq!(value_of("5 && 0 - 3", &[]), Ok(1));
    assert_eq!(value_of("5 && 0", &[]), Ok(0));
    assert_eq!(value_of("0 || 0", &[]), Ok(0));
    assert_eq!(value_of("0 || 7", &[]), Ok(1));
    assert_eq!(value_of("! 0", &[]), Ok(1));
    assert_eq!(value_of("! 7", &[]), Ok(0));
    assert_eq!(value_of("! ! 7", &[]), Ok(1));
    assert_eq!(value_of("+ 7", &[]), Ok(7));
}

#[test]
fn both_sides_of_and_and_or_are_evaluated() {
    let (written, end, _, _) = run_program("0 && write_int(5); 1 || write_int(6)", &[]);
    assert_eq!(end, Action::Done);
    assert_eq!(written, "56");
    assert_eq!(value_of("0 && 1 / 0", &[]), Err(EvalError::DivideByZero));
    assert_eq!(value_of("1 || nobody", &[]), Err(EvalError::UndefinedVariable));
}

#[test]
fn the_left_operand_is_evaluated_first() {
    let (written, _, _, _) = run_program("write_int(1) + write_int(2) * write_int(3)", &[]);
    assert_eq!(written, "123");
}

#[test]
fn an_unbound_name_fails() {
    assert_eq!(value_of("x", &[]), Err(EvalError::UndefinedVariable));
    assert_eq!(value_of("x + 1", &[("y", 1)]), Err(EvalError::UndefinedVariable));
    assert_eq!(value_of("y + 1", &[("y", 1)]), Ok(2));
    let (_, end, env, _) = run_program("var x; x = y", &[]);
    assert_eq!(end, Action::Failed(EvalError::UndefinedVariable));
    assert_eq!(env, vec![("x".to_string(), 0)]);
}

#[test]
fn a_call_must_name_a_function_and_match_its_arguments() {
    assert_eq!(value_of("nothing(1)", &[]), Err(EvalError::InvalidCall));
    assert_eq!(value_of("nothing()", &[]), Err(EvalError::InvalidCall));
    assert_eq!(value_of("write_int()", &[]), Err(EvalError::InvalidCall));
    assert_eq!(value_of("write_char()", &[]), Err(EvalError::InvalidCall));
    assert_eq!(value_of("malloc()", &[]), Err(EvalError::InvalidCall));
    assert_eq!(value_of("free()", &[]), Err(EvalError::InvalidCall));
    assert_eq!(value_of("read_int(1)", &[]), Err(EvalError::InvalidCall));
    assert_eq!(value_of("read_char(1)", &[]), Err(EvalError::InvalidCall));
    assert_eq!(value_of("Malloc(1)", &[]), Err(EvalError::InvalidCall));
}

#[test]
fn the_argument_of_a_call_that_is_refused_is_not_evaluated() {
    let (written, end, _, _) = run_program("nothing(write_int(1))", &[]);
    assert_eq!(written, "");
    assert_eq!(end, Action::Failed(EvalError::InvalidCall));
}

#[test]
fn only_names_and_dereferences_can_be_assigned_to() {
    let (written, end, _, _) = run_program("5 = write_int(3)", &[]);
    assert_eq!(written, "3");
    assert_eq!(end, Action::Failed(EvalError::InvalidAssignmentTarget));
    let (_, end, _, _) = run_program("var x; x + 1 = 3", &[]);
    assert_eq!(end, Action::Failed(EvalError::InvalidAssignmentTarget));
    let (_, end, _, _) = run_program("var x; - x = 3", &[]);
    assert_eq!(end, Action::Failed(EvalError::InvalidAssignmentTarget));
    let (_, end, env, _) = run_program("x = 3", &[]);
    assert_eq!(end, Action::Done);
    assert_eq!(env, vec![("x".to_string(), 3)]);
}

#[test]
fn the_value_is_evaluated_before_the_cell_it_goes_to() {
    let (written, end, _, mem) = run_program(
        "var p; p = malloc(2); * (p + write_int(1)) = write_int(7)",
        &[],
    );
    assert_eq!(end, Action::Done);
    assert_eq!(written, "71");
    assert_eq!(mem.mem, vec![None, Some(0), Some(7)]);
}

#[test]
fn cells_outside_an_allocation_cannot_be_read_or_written() {
    assert_eq!(value_of("* 0", &[]), Err(EvalError::InvalidMemoryAccess));
    assert_eq!(value_of("* 1", &[]), Err(EvalError::InvalidMemoryAccess));
    assert_eq!(value_of("* (0 - 1)", &[]), Err(EvalError::InvalidMemoryAccess));
    assert_eq!(
        value_of("* 18446744073709551617", &[]),
        Err(EvalError::InvalidMemoryAccess)
    );
    assert_eq!(value_of("* malloc(1)", &[]), Ok(0));
    for src in ["* 0 = 1", "* 1 = 1", "* (0 - 1) = 1", "* 18446744073709551617 = 1"] {
        let (_, end, _, mem) = run_program(src, &[]);
        assert_eq!(end, Action::Failed(EvalError::InvalidMemoryAccess));
        assert_eq!(mem.mem, vec![None]);
    }
}

#[test]
fn malloc_needs_a_size_that_can_be_had() {
    assert_eq!(value_of("malloc(0)", &[]), Err(EvalError::InvalidArgument));
    assert_eq!(value_of("malloc(0 - 1)", &[]), Err(EvalError::InvalidArgument));
    assert_eq!(
        value_of("malloc(18446744073709551615)", &[]),
        Err(EvalError::InvalidArgument)
    );
    assert_eq!(
        value_of("malloc(18446744073709551616)", &[]),
        Err(EvalError::InvalidArgument)
    );
    assert_eq!(value_of("malloc(3) + malloc(2) * 10", &[]), Ok(41));
}

#[test]
fn free_says_whether_there_was_an_allocation() {
    let (written, end, _, mem) = run_program(
        "var p; p = malloc(2); write_int(free(p + 1)); write_int(free(0 - 1)); \
         write_int(free(18446744073709551617)); write_int(free(p)); write_int(free(p))",
        &[],
    );
    assert_eq!(end, Action::Done);
    assert_eq!(written, "00010");
    assert_eq!(mem.mem, vec![None, None, None]);
}

#[test]
fn freed_cells_are_used_again() {
    let (written, end, _, _) = run_program(
        "var a; var b; a = malloc(2); b = malloc(2); free(a); \
         write_int(malloc(1)); write_int(malloc(2)); write_int(malloc(1))",
        &[],
    );
    assert_eq!(end, Action::Done);
    assert_eq!(written, "152");
}

#[test]
fn write_char_writes_the_low_eight_bits() {
    let (written, end, _, _) = run_program(
        "write_char(72); write_int(write_char(105 + 256)); write_char(0 - 246); write_char(233)",
        &[],
    );
    assert_eq!(end, Action::Done);
    assert_eq!(written, "Hi361\n\u{e9}");
}

#[test]
fn what_is_read_becomes_the_value_of_the_call() {
    let (written, end, env, _) = run_program(
        "var a; var c; a = read_int() - read_int(); c = read_char(); write_int(a); write_int(c)",
        &[Given::Int(10), Given::Int(-5), Given::Char('A')],
    );
    assert_eq!(end, Action::Done);
    assert_eq!(written, "1565");
    assert_eq!(env, vec![("a".to_string(), 15), ("c".to_string(), 65)]);
    let (_, _, env, _) = run_program("c = read_char()", &[Given::Char('\u{20ac}')]);
    assert_eq!(env, vec![("c".to_string(), 0x20ac)]);
}

#[test]
fn a_machine_that_waits_takes_only_what_it_asked_for() {
    let program = parse(b"x = read_int(); y = read_char()").unwrap();
    let mut machine = Machine::executing(&program, Env::new(), Mem::new());
    machine.supply_int(1);
    assert_eq!(machine.run(100), Action::ReadInt);
    assert_eq!(machine.step(), Action::ReadInt);
    machine.supply_char('a');
    assert_eq!(machine.step(), Action::ReadInt);
    machine.supply_int(7);
    assert_eq!(machine.run(100), Action::ReadChar);
    machine.supply_int(8);
    assert_eq!(machine.step(), Action::ReadChar);
    machine.supply_char('a');
    machine.supply_char('b');
    assert_eq!(machine.run(100), Action::Done);
    assert_eq!(machine.step(), Action::Done);
    assert_eq!(
        bindings(machine.registers()),
        vec![("x".to_string(), 7), ("y".to_string(), 97)]
    );
}

#[test]
fn a_machine_that_has_failed_stays_failed() {
    let program = parse(b"var x; x = 1 / 0; x = 2").unwrap();
    let mut machine = Machine::executing(&program, Env::new(), Mem::new());
    assert_eq!(machine.run(100), Action::Failed(EvalError::DivideByZero));
    assert_eq!(machine.step(), Action::Failed(EvalError::DivideByZero));
    machine.supply_int(1);
    assert_eq!(machine.run(100), Action::Failed(EvalError::DivideByZero));
    assert_eq!(machine.registers().get(b"x"), Some(0));
}

#[test]
fn a_sequence_stops_at_the_first_failure() {
    let (written, end, env, _) = run_program(
        "var x; x = 1; write_int(x); y; x = 2; write_int(x)",
        &[],
    );
    assert_eq!(written, "1");
    assert_eq!(end, Action::Failed(EvalError::UndefinedVariable));
    assert_eq!(env, vec![("x".to_string(), 1)]);
}

#[test]
fn the_same_program_on_the_same_state_ends_the_same() {
    let src = "var a; var p; a = 3; p = malloc(a); * (p + 1) = a * a; a = * (p + 1) + free(p)";
    let first = run_program(src, &[]);
    let second = run_program(src, &[]);
    assert_eq!(first.0, second.0);
    assert_eq!(first.1, second.1);
    assert_eq!(first.2, second.2);
    assert_eq!(first.3.mem, second.3.mem);
    assert_eq!(first.3.malloced, second.3.malloced);
    assert_eq!(first.2, vec![("a".to_string(), 10), ("p".to_string(), 1)]);
}

#[test]
fn the_environment_answers_for_every_name() {
    let mut env = Env::new();
    assert_eq!(env.len(), 0);
    assert_eq!(env.get(b"x"), None);
    env.insert(b"x", 1);
    env.insert(b"y", 2);
    env.insert(b"x", 3);
    assert_eq!(env.len(), 2);
    assert_eq!(env.get(b"x"), Some(3));
    assert_eq!(env.get(b"y"), Some(2));
    assert_eq!(env.get(b""), None);
    assert_eq!(env.get(b"xy"), None);
    assert_eq!(env.entry(0), (&b"x"[..], 3));
    assert_eq!(env.entry(1), (&b"y"[..], 2));
}

#[test]
fn what_is_written_is_decimal_and_utf8() {
    assert_eq!(Action::WriteInt(0).text(), b"0");
    assert_eq!(Action::WriteInt(7).text(), b"7");
    assert_eq!(Action::WriteInt(10).text(), b"10");
    assert_eq!(Action::WriteInt(-1).text(), b"-1");
    assert_eq!(Action::WriteInt(1234567890).text(), b"1234567890");
    assert_eq!(Action::WriteInt(i128::MAX).text(), i128::MAX.to_string().as_bytes());
    assert_eq!(Action::WriteInt(i128::MIN).text(), i128::MIN.to_string().as_bytes());
    assert_eq!(Action::WriteChar(0).text(), b"\0");
    assert_eq!(Action::WriteChar(65).text(), b"A");
    assert_eq!(Action::WriteChar(127).text(), "\u{7f}".as_bytes());
    assert_eq!(Action::WriteChar(128).text(), "\u{80}".as_bytes());
    assert_eq!(Action::WriteChar(191).text(), "\u{bf}".as_bytes());
    assert_eq!(Action::WriteChar(192).text(), "\u{c0}".as_bytes());
    assert_eq!(Action::WriteChar(233).text(), "\u{e9}".as_bytes());
    assert_eq!(Action::WriteChar(255).text(), "\u{ff}".as_bytes());
    for action in [Action::Continue, Action::ReadInt, Action::ReadChar, Action::Done] {
        assert_eq!(action.text(), b"");
    }
    assert_eq!(Action::Failed(EvalError::InvalidCall).text(), b"");
}

#[test]
fn a_program_goes_on_after_its_state_was_taken_apart() {
    let first = parse(b"var p; p = malloc(2); * p = 5").unwrap();
    let mut machine = Machine::executing(&first, Env::new(), Mem::new());
    assert_eq!(drive(&mut machine, &[]).1, Action::Done);
    let (env, mem) = machine.into_parts();
    let entries: Vec<(usize, usize)> = mem.malloced.iter().map(|(k, v)| (*k, *v)).collect();
    let mem = Mem::from_parts(mem.mem, entries).unwrap();
    let second = parse(b"* (p + 1) = * p + 1; write_int(* (p + 1)); free(p)").unwrap();
    let mut machine = Machine::executing(&second, env, mem);
    let (written, end) = drive(&mut machine, &[]);
    assert_eq!(end, Action::Done);
    assert_eq!(written, "6");
    assert_eq!(machine.memory().mem, vec![None, None, None]);
}

#[test]
fn a_loop_has_as_many_rounds_as_it_has_fuel() {
    let program = parse(b"var i; i = 3; while i { i = i - 1 }").unwrap();
    for (fuel, end, i) in [
        (0, Ending::Unfinished, 3),
        (1, Ending::Unfinished, 2),
        (2, Ending::Unfinished, 1),
        (3, Ending::Finished(()), 0),
        (4, Ending::Finished(()), 0),
    ] {
        let (mut env, mut mem) = (Env::new(), Mem::new());
        let mut console = Console::new(vec![]);
        assert_eq!(program.exec(&mut env, &mut mem, &mut console, fuel), end);
        assert_eq!(env.get(b"i"), Some(i));
    }
    let program = parse(b"while 0 { }").unwrap();
    let (mut env, mut mem) = (Env::new(), Mem::new());
    let mut console = Console::new(vec![]);
    assert_eq!(
        program.exec(&mut env, &mut mem, &mut console, 0),
        Ending::Finished(())
    );
}

#[test]
fn a_program_that_reads_too_much_starves() {
    let program = parse(b"var a; a = read_int(); write_int(a); a = read_int() + write_int(1)").unwrap();
    let (mut env, mut mem) = (Env::new(), Mem::new());
    let mut console = Console::new(vec![41]);
    assert_eq!(
        program.exec(&mut env, &mut mem, &mut console, 10),
        Ending::Starved
    );
    assert_eq!(console.read, 1);
    assert_eq!(console.written, vec![Action::WriteInt(41)]);
    assert_eq!(env.get(b"a"), Some(41));
    let mut machine = Machine::executing(&program, Env::new(), Mem::new());
    assert_eq!(machine.run(1000), Action::ReadInt);
    machine.supply_int(41);
    assert_eq!(machine.run(1000), Action::WriteInt(41));
    assert_eq!(machine.run(1000), Action::ReadInt);
    assert_eq!(machine.run(1000), Action::ReadInt);
}

#[test]
fn what_is_left_of_the_input_stays_in_the_console() {
    let (_, e) = parse_expr(b"read_int() * read_char()").unwrap();
    let mut console = Console::new(vec![6, 7, 8]);
    let value = e.eval(&Env::new(), &mut Mem::new(), &mut console);
    assert_eq!(value, Ending::Finished(42));
    assert_eq!(console.read, 2);
    assert_eq!(console.input, vec![6, 7, 8]);
    assert!(console.written.is_empty());
}

#[test]
fn a_machine_can_be_driven_a_few_steps_at_a_time() {
    let program = parse(b"var a; a = read_int(); write_int(a * 2); write_char(a)").unwrap();
    let mut all_at_once = Machine::executing(&program, Env::new(), Mem::new());
    let mut console = Console::new(vec![33]);
    all_at_once.drive(&mut console, 1000);
    let mut bit_by_bit = Machine::executing(&program, Env::new(), Mem::new());
    let mut second = Console::new(vec![33]);
    for _ in 0..200 {
        bit_by_bit.drive(&mut second, 5);
    }
    assert_eq!(console.written, vec![Action::WriteInt(66), Action::WriteChar(33)]);
    assert_eq!(second.written, console.written);
    assert_eq!(second.read, 1);
    assert_eq!(bit_by_bit.step(), Action::Done);
    assert_eq!(all_at_once.step(), Action::Done);
    let mut none = Machine::executing(&program, Env::new(), Mem::new());
    let mut empty = Console::new(vec![]);
    none.drive(&mut empty, 0);
    assert_eq!(none.step(), Action::Continue);
    none.drive(&mut empty, u64::MAX);
    assert_eq!(none.step(), Action::ReadInt);
    assert!(empty.written.is_empty());
}
