use whiledb_nom::{
    identifier, parse, parse_and_binop, parse_assign, parse_block_cmd, parse_call, parse_cmd,
    parse_cmp_binop, parse_decl, parse_expr, parse_expr_cmd, parse_higher_binop,
    parse_higher_unop, parse_ident, parse_if, parse_lower_binop, parse_lower_unop, parse_not_unop,
    parse_or_binop, parse_pow, parse_single_cmd, parse_single_expr, parse_uint, parse_while,
};
use whiledb_nom::{BinOp, Cmd, Expr, UnOp};

fn num(v: i128) -> Box<Expr<'static>> {
    Box::new(Expr::Int(v))
}

fn var(name: &'static str) -> Box<Expr<'static>> {
    Box::new(Expr::Ident(name.as_bytes()))
}

fn bin(op: BinOp, l: Box<Expr<'static>>, r: Box<Expr<'static>>) -> Box<Expr<'static>> {
    Box::new(Expr::BinOp(op, l, r))
}

fn un(op: UnOp, e: Box<Expr<'static>>) -> Box<Expr<'static>> {
    Box::new(Expr::UnOp(op, e))
}

fn show<T: std::fmt::Debug>(value: &T) -> String {
    format!("{:?}", value)
}

fn expr_of(src: &'static str) -> Box<Expr<'static>> {
    let (rest, e) = parse_expr(src.as_bytes()).unwrap();
    assert_eq!(rest, b"");
    e
}

#[test]
fn test_parse_expr() {
    let src = "1000000 / (1 + 2 * 3 ^ 4 + 5 - 7 * 5474 / 9110)";
    let (remaining_input, output) = parse_expr(src.as_bytes()).unwrap();
    println!("{:?} {:?}", remaining_input, output);
    assert_eq!(remaining_input, b"");
    let divisor = bin(
        BinOp::Sub,
        bin(
            BinOp::Add,
            bin(
                BinOp::Add,
                num(1),
                bin(BinOp::Mul, num(2), bin(BinOp::Pow, num(3), num(4))),
            ),
            num(5),
        ),
        bin(BinOp::Div, bin(BinOp::Mul, num(7), num(5474)), num(9110)),
    );
    assert_eq!(show(&output), show(&bin(BinOp::Div, num(1000000), divisor)));
}

#[test]
fn test_parse_cmd() {
    let src = "
    var n; var i; var p; var q; var s;
    n = read_int();
    i = 0; p = 0;
    while (i < n) do {
        q = malloc(16);
        * q = read_int();
        * (q + 8) = p;
        p = q;
        i = i + 1
    };
    s = 0;
    while (p != 0) do {
        s = s + * p;
        p = * (p + 8)
    };
    write_int(s);
    write_char(10)
    ";
    let (remaining_input, output) = parse_cmd(src.as_bytes()).unwrap();
    println!("{:?} {:?}", remaining_input, output);
    assert_eq!(remaining_input, b"\n    ");
    match *output {
        Cmd::Sequence(ref statements) => {
            assert_eq!(statements.len(), 13);
            assert!(matches!(*statements[0], Cmd::Decl(b"n")));
            assert!(matches!(*statements[5], Cmd::Assign(_, _)));
            assert!(matches!(*statements[8], Cmd::While(_, _)));
            assert!(matches!(*statements[12], Cmd::Expr(_)));
        }
        _ => panic!("a sequence was expected"),
    }
    let program = parse(src.as_bytes()).unwrap();
    assert_eq!(show(&program), show(&output));
}

#[test]
fn power_binds_tighter_than_product_and_product_than_sum() {
    let e = expr_of("1 + 2 * 3 ^ 2");
    let want = bin(
        BinOp::Add,
        num(1),
        bin(BinOp::Mul, num(2), bin(BinOp::Pow, num(3), num(2))),
    );
    assert_eq!(show(&e), show(&want));
}

#[test]
fn dereference_binds_tighter_than_sum() {
    let e = expr_of("* p + 1");
    let want = bin(BinOp::Add, un(UnOp::Deref, var("p")), num(1));
    assert_eq!(show(&e), show(&want));
    let e = expr_of("*(p + 1)");
    let want = un(UnOp::Deref, bin(BinOp::Add, var("p"), num(1)));
    assert_eq!(show(&e), show(&want));
}

#[test]
fn power_groups_to_the_right() {
    let e = expr_of("2 ^ 3 ^ 2");
    let want = bin(BinOp::Pow, num(2), bin(BinOp::Pow, num(3), num(2)));
    assert_eq!(show(&e), show(&want));
}

#[test]
fn sums_and_products_group_to_the_left() {
    let e = expr_of("10 - 3 - 2");
    let want = bin(BinOp::Sub, bin(BinOp::Sub, num(10), num(3)), num(2));
    assert_eq!(show(&e), show(&want));
    let e = expr_of("8 / 4 % 3 * 2");
    let want = bin(
        BinOp::Mul,
        bin(BinOp::Rem, bin(BinOp::Div, num(8), num(4)), num(3)),
        num(2),
    );
    assert_eq!(show(&e), show(&want));
}

#[test]
fn the_levels_nest_from_or_down_to_comparison() {
    let e = expr_of("a || b && ! c < d + 1");
    let want = bin(
        BinOp::Or,
        var("a"),
        bin(
            BinOp::And,
            var("b"),
            un(
                UnOp::Not,
                bin(BinOp::Lt, var("c"), bin(BinOp::Add, var("d"), num(1))),
            ),
        ),
    );
    assert_eq!(show(&e), show(&want));
}

#[test]
fn every_comparison_is_read() {
    let cases = [
        (">", BinOp::Gt),
        (">=", BinOp::Ge),
        ("<", BinOp::Lt),
        ("<=", BinOp::Le),
        ("==", BinOp::Eq),
        ("!=", BinOp::Ne),
    ];
    for (text, op) in cases {
        let src = format!("a {} b", text);
        let (rest, e) = parse_cmp_binop(src.as_bytes()).unwrap();
        assert_eq!(rest, b"");
        assert_eq!(
            show(&e),
            show(&Expr::BinOp(
                op,
                Box::new(Expr::Ident(b"a")),
                Box::new(Expr::Ident(b"b"))
            ))
        );
    }
}

#[test]
fn comparisons_chain_to_the_left() {
    let e = expr_of("1 < 2 == 1");
    let want = bin(BinOp::Eq, bin(BinOp::Lt, num(1), num(2)), num(1));
    assert_eq!(show(&e), show(&want));
}

#[test]
fn a_sign_applies_to_the_whole_product_after_it() {
    let e = expr_of("-1 ^ 2");
    let want = un(UnOp::Minus, bin(BinOp::Pow, num(1), num(2)));
    assert_eq!(show(&e), show(&want));
    let e = expr_of("- a * b");
    let want = un(UnOp::Minus, bin(BinOp::Mul, var("a"), var("b")));
    assert_eq!(show(&e), show(&want));
    let e = expr_of("1 - - 2");
    let want = bin(BinOp::Sub, num(1), un(UnOp::Minus, num(2)));
    assert_eq!(show(&e), show(&want));
    let e = expr_of("+ + 2");
    let want = un(UnOp::Plus, un(UnOp::Plus, num(2)));
    assert_eq!(show(&e), show(&want));
}

#[test]
fn an_exponent_cannot_start_with_a_sign() {
    let (rest, e) = parse_expr(b"2 ^ -1").unwrap();
    assert_eq!(rest, b" ^ -1");
    assert_eq!(show(&e), show(&num(2)));
}

#[test]
fn identifiers_start_with_a_letter_or_an_underscore() {
    assert_eq!(identifier(b"abc def").unwrap(), (&b" def"[..], &b"abc"[..]));
    assert_eq!(identifier(b"_a1_b2+").unwrap(), (&b"+"[..], &b"_a1_b2"[..]));
    assert_eq!(identifier(b"_").unwrap(), (&b""[..], &b"_"[..]));
    assert_eq!(identifier(b"x9").unwrap(), (&b""[..], &b"x9"[..]));
    assert_eq!(identifier(b"9x").unwrap_err().rest, b"9x");
    assert_eq!(identifier(b"").unwrap_err().rest, b"");
    assert_eq!(identifier(b" x").unwrap_err().rest, b" x");
    let (rest, name) = identifier("h\u{e9}llo".as_bytes()).unwrap();
    assert_eq!(name, b"h");
    assert_eq!(rest, "\u{e9}llo".as_bytes());
}

#[test]
fn unsigned_literals_are_read_in_decimal() {
    let (rest, e) = parse_uint(b"0123abc").unwrap();
    assert_eq!(rest, b"abc");
    assert_eq!(show(&e), show(&num(123)));
    assert_eq!(parse_uint(b"x1").unwrap_err().rest, b"x1");
    assert_eq!(parse_uint(b"").unwrap_err().rest, b"");
}

#[test]
fn literals_above_the_signed_range_wrap_round() {
    let (rest, e) = parse_uint(b"170141183460469231731687303715884105727").unwrap();
    assert_eq!(rest, b"");
    assert_eq!(show(&e), show(&num(i128::MAX)));
    let (_, e) = parse_uint(b"170141183460469231731687303715884105728").unwrap();
    assert_eq!(show(&e), show(&num(i128::MIN)));
    let (_, e) = parse_uint(b"340282366920938463463374607431768211455").unwrap();
    assert_eq!(show(&e), show(&num(-1)));
}

#[test]
fn literals_above_the_unsigned_range_do_not_parse() {
    let src = b"340282366920938463463374607431768211456";
    assert_eq!(parse_uint(src).unwrap_err().rest, src);
    assert_eq!(parse_expr(src).unwrap_err().rest, src);
}

#[test]
fn calls_take_one_argument_or_none() {
    let (rest, e) = parse_call(b"f ( )").unwrap();
    assert_eq!(rest, b"");
    assert_eq!(show(&e), show(&Expr::Call(b"f", None)));
    let (rest, e) = parse_call(b"malloc( n + 1 ) ;").unwrap();
    assert_eq!(rest, b" ;");
    assert_eq!(
        show(&e),
        show(&Expr::Call(
            b"malloc",
            Some(bin(BinOp::Add, var("n"), num(1)))
        ))
    );
    assert_eq!(parse_call(b"f(1, 2)").unwrap_err().rest, b", 2)");
    assert_eq!(parse_call(b"f 1").unwrap_err().rest, b"1");
    assert_eq!(parse_call(b"1(2)").unwrap_err().rest, b"1(2)");
}

#[test]
fn a_call_that_does_not_close_is_read_as_an_identifier() {
    let (rest, e) = parse_single_expr(b"f(1, 2)").unwrap();
    assert_eq!(rest, b"(1, 2)");
    assert_eq!(show(&e), show(&var("f")));
}

#[test]
fn parentheses_group() {
    let e = expr_of("( 1 + 2 ) * 3");
    let want = bin(BinOp::Mul, bin(BinOp::Add, num(1), num(2)), num(3));
    assert_eq!(show(&e), show(&want));
    assert_eq!(parse_single_expr(b"(1 + ").unwrap_err().rest, b"+ ");
    assert_eq!(parse_single_expr(b"(1 2)").unwrap_err().rest, b"2)");
    assert_eq!(parse_single_expr(b"()").unwrap_err().rest, b")");
    assert_eq!(parse_expr(b")").unwrap_err().rest, b")");
    assert_eq!(parse_expr(b"").unwrap_err().rest, b"");
}

#[test]
fn each_level_can_be_parsed_on_its_own() {
    assert_eq!(show(&parse_ident(b"x").unwrap().1), show(&var("x")));
    assert_eq!(parse_ident(b"1").unwrap_err().rest, b"1");
    assert_eq!(
        show(&parse_pow(b"2^3").unwrap().1),
        show(&bin(BinOp::Pow, num(2), num(3)))
    );
    assert_eq!(
        show(&parse_higher_unop(b"* * p").unwrap().1),
        show(&un(UnOp::Deref, un(UnOp::Deref, var("p"))))
    );
    assert_eq!(
        show(&parse_higher_binop(b"2*3+1").unwrap()),
        show(&(&b"+1"[..], bin(BinOp::Mul, num(2), num(3))))
    );
    assert_eq!(
        show(&parse_lower_unop(b"-2*3").unwrap().1),
        show(&un(UnOp::Minus, bin(BinOp::Mul, num(2), num(3))))
    );
    assert_eq!(
        show(&parse_lower_binop(b"1+2<3").unwrap()),
        show(&(&b"<3"[..], bin(BinOp::Add, num(1), num(2))))
    );
    assert_eq!(
        show(&parse_not_unop(b"! ! a").unwrap().1),
        show(&un(UnOp::Not, un(UnOp::Not, var("a"))))
    );
    assert_eq!(
        show(&parse_and_binop(b"a&&b||c").unwrap()),
        show(&(&b"||c"[..], bin(BinOp::And, var("a"), var("b"))))
    );
    assert_eq!(
        show(&parse_or_binop(b"a||b&&c").unwrap().1),
        show(&bin(BinOp::Or, var("a"), bin(BinOp::And, var("b"), var("c"))))
    );
}

#[test]
fn an_operator_without_its_right_side_is_left_unread() {
    let (rest, e) = parse_expr(b"1 + ").unwrap();
    assert_eq!(rest, b" + ");
    assert_eq!(show(&e), show(&num(1)));
    let (rest, e) = parse_expr(b"a & b").unwrap();
    assert_eq!(rest, b" & b");
    assert_eq!(show(&e), show(&var("a")));
}

#[test]
fn declarations_need_white_space_and_a_name() {
    let (rest, c) = parse_decl(b"var  x;").unwrap();
    assert_eq!(rest, b";");
    assert_eq!(show(&c), show(&Cmd::Decl(b"x")));
    assert_eq!(parse_decl(b"varx").unwrap_err().rest, b"x");
    assert_eq!(parse_decl(b"var 1").unwrap_err().rest, b"1");
    assert_eq!(parse_decl(b"x").unwrap_err().rest, b"x");
}

#[test]
fn any_expression_may_stand_left_of_an_assignment() {
    let (rest, c) = parse_assign(b"x = x + 1").unwrap();
    assert_eq!(rest, b"");
    assert_eq!(
        show(&c),
        show(&Cmd::Assign(var("x"), bin(BinOp::Add, var("x"), num(1))))
    );
    let (_, c) = parse_assign(b"* p = 42").unwrap();
    assert_eq!(
        show(&c),
        show(&Cmd::Assign(un(UnOp::Deref, var("p")), num(42)))
    );
    let (_, c) = parse_assign(b"5 = 3").unwrap();
    assert_eq!(show(&c), show(&Cmd::Assign(num(5), num(3))));
    assert_eq!(parse_assign(b"x == 1").unwrap_err().rest, b"");
    assert_eq!(parse_assign(b"x = ").unwrap_err().rest, b"");
    assert_eq!(parse_assign(b"x + 1").unwrap_err().rest, b"");
}

#[test]
fn a_simple_statement_is_a_declaration_an_assignment_or_an_expression() {
    assert_eq!(
        show(&parse_single_cmd(b"var x").unwrap().1),
        show(&Cmd::Decl(b"x"))
    );
    assert_eq!(
        show(&parse_single_cmd(b"variable = 1").unwrap().1),
        show(&Cmd::Assign(var("variable"), num(1)))
    );
    assert_eq!(
        show(&parse_single_cmd(b"x == 1").unwrap().1),
        show(&Cmd::Expr(bin(BinOp::Eq, var("x"), num(1))))
    );
    assert_eq!(
        show(&parse_expr_cmd(b"f()").unwrap().1),
        show(&Cmd::Expr(Box::new(Expr::Call(b"f", None))))
    );
    assert_eq!(parse_single_cmd(b";").unwrap_err().rest, b";");
}

#[test]
fn if_takes_then_and_else_or_leaves_them() {
    let empty = || Box::new(Cmd::Sequence(vec![]));
    let one = |name: &'static str| Box::new(Cmd::Sequence(vec![Box::new(Cmd::Decl(name.as_bytes()))]));
    let (rest, c) = parse_if(b"if x { var a }").unwrap();
    assert_eq!(rest, b"");
    assert_eq!(show(&c), show(&Cmd::If(var("x"), one("a"), empty())));
    let (rest, c) = parse_if(b"if x then { var a; } else { var b; } rest").unwrap();
    assert_eq!(rest, b" rest");
    assert_eq!(show(&c), show(&Cmd::If(var("x"), one("a"), one("b"))));
    let (rest, c) = parse_if(b"if x {} else").unwrap();
    assert_eq!(rest, b" else");
    assert_eq!(show(&c), show(&Cmd::If(var("x"), empty(), empty())));
    let (rest, _) = parse_if(b"if x {} else { 1 2 }").unwrap();
    assert_eq!(rest, b" else { 1 2 }");
    assert_eq!(parse_if(b"if(x) {}").unwrap_err().rest, b"(x) {}");
    assert_eq!(parse_if(b"if x then var a").unwrap_err().rest, b"var a");
    assert_eq!(parse_if(b"if x { var a").unwrap_err().rest, b"");
    assert_eq!(parse_if(b"while x {}").unwrap_err().rest, b"while x {}");
}

#[test]
fn while_takes_do_or_leaves_it() {
    let body = || Box::new(Cmd::Sequence(vec![Box::new(Cmd::Expr(var("y")))]));
    let (rest, c) = parse_while(b"while x do { y }").unwrap();
    assert_eq!(rest, b"");
    assert_eq!(show(&c), show(&Cmd::While(var("x"), body())));
    let (_, c) = parse_while(b"while x{y;}").unwrap();
    assert_eq!(show(&c), show(&Cmd::While(var("x"), body())));
    let (_, c) = parse_block_cmd(b"while (x) do { y }").unwrap();
    assert_eq!(show(&c), show(&Cmd::While(var("x"), body())));
    assert_eq!(parse_while(b"whilex {}").unwrap_err().rest, b"x {}");
    assert_eq!(parse_while(b"while x do y").unwrap_err().rest, b"y");
    assert_eq!(parse_block_cmd(b"x").unwrap_err().rest, b"x");
}

#[test]
fn the_last_simple_statement_may_leave_its_separator() {
    let with = parse_cmd(b"var x; x = 1;").unwrap();
    let without = parse_cmd(b"var x; x = 1").unwrap();
    assert_eq!(with.0, b"");
    assert_eq!(without.0, b"");
    assert_eq!(show(&with.1), show(&without.1));
    let want = Cmd::Sequence(vec![
        Box::new(Cmd::Decl(b"x")),
        Box::new(Cmd::Assign(var("x"), num(1))),
    ]);
    assert_eq!(show(&with.1), show(&want));
}

#[test]
fn a_block_statement_needs_no_separator() {
    let a = parse_cmd(b"while x { } var y").unwrap();
    let b = parse_cmd(b"while x { } ; var y").unwrap();
    assert_eq!(a.0, b"");
    assert_eq!(show(&a.1), show(&b.1));
    let (rest, c) = parse_cmd(b"if a {} if b {}").unwrap();
    assert_eq!(rest, b"");
    match *c {
        Cmd::Sequence(ref statements) => assert_eq!(statements.len(), 2),
        _ => panic!("a sequence was expected"),
    }
}

#[test]
fn a_command_stops_before_what_it_cannot_read() {
    let (rest, c) = parse_cmd(b"var x x = 1").unwrap();
    assert_eq!(rest, b" x = 1");
    assert_eq!(
        show(&c),
        show(&Cmd::Sequence(vec![Box::new(Cmd::Decl(b"x"))]))
    );
    let (rest, c) = parse_cmd(b"  ) ").unwrap();
    assert_eq!(rest, b"  ) ");
    assert_eq!(show(&c), show(&Cmd::Sequence(vec![])));
    let (rest, _) = parse_cmd(b"").unwrap();
    assert_eq!(rest, b"");
}

#[test]
fn a_program_must_be_read_to_its_end() {
    assert!(parse(b"var x; x = 5; x = x + 1;").is_ok());
    assert!(parse(b"  var x ;\n\t x = 5 \r\n").is_ok());
    assert_eq!(show(&parse(b"").unwrap()), show(&Cmd::Sequence(vec![])));
    assert_eq!(show(&parse(b" \n ").unwrap()), show(&Cmd::Sequence(vec![])));
    assert_eq!(parse(b"var x; )").unwrap_err().rest, b")");
    assert_eq!(parse(b"var x x = 1").unwrap_err().rest, b"x = 1");
    assert_eq!(parse(b"x = 1 +").unwrap_err().rest, b"+");
    assert_eq!(parse(b"while x { ").unwrap_err().rest, b"x { ");
    assert_eq!(parse(b"if x { ").unwrap_err().rest, b"x { ");
}

#[test]
fn a_keyword_before_a_parenthesis_is_read_as_a_call() {
    let (rest, c) = parse_cmd(b"if(x)").unwrap();
    assert_eq!(rest, b"");
    assert_eq!(
        show(&c),
        show(&Cmd::Sequence(vec![Box::new(Cmd::Expr(Box::new(Expr::Call(
            b"if",
            Some(var("x"))
        ))))]))
    );
}

#[test]
fn nesting_is_followed_to_its_depth() {
    let depth = 100;
    let src = format!("{}7{}", "(".repeat(depth), ")".repeat(depth));
    let (rest, e) = parse_expr(src.as_bytes()).unwrap();
    assert_eq!(rest, b"");
    assert_eq!(show(&e), show(&num(7)));
    let src = format!("{}7{}", "- ".repeat(depth), " ^ 1".repeat(depth));
    let (rest, e) = parse_expr(src.as_bytes()).unwrap();
    assert_eq!(rest, b"");
    let mut tree = &*e;
    for _ in 0..depth {
        match tree {
            Expr::UnOp(UnOp::Minus, inner) => tree = &**inner,
            _ => panic!("a negation was expected"),
        }
    }
    for level in 0..depth {
        match tree {
            Expr::BinOp(BinOp::Pow, base, exponent) => {
                assert_eq!(show(base), show(&num(if level == 0 { 7 } else { 1 })));
                tree = &**exponent;
            }
            _ => panic!("a power was expected"),
        }
    }
    assert_eq!(show(&tree), show(&&*num(1)));
    let src = format!("{}x = 1{}", "while 1 { ".repeat(depth), " }".repeat(depth));
    let program = parse(src.as_bytes()).unwrap();
    let mut levels = 0;
    let mut c = &*program;
    loop {
        match c {
            Cmd::Sequence(statements) => {
                assert_eq!(statements.len(), 1);
                c = &*statements[0];
            }
            Cmd::While(_, body) => {
                levels += 1;
                c = &**body;
            }
            Cmd::Assign(_, _) => break,
            _ => panic!("a loop or an assignment was expected"),
        }
    }
    assert_eq!(levels, depth);
}
