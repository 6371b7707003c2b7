//! The parsers. Each reads from the front of its input and returns what is
//! left together with the tree, or the point at which it could not go on.
//!
//! The parsers call one another as the grammar does, so they go as deep as
//! the text nests.

use vstd::prelude::*;

use crate::ast::{lemma_sequence_model, models, BinOp, Cmd, CmdModel, Expr, ExprModel, UnOp};
use crate::error::ParseError;
use crate::grammar;
use crate::grammar::{Level, Parsed};
use crate::lex::{
    at, eat, eat1, eat2, ident_len, identifier, lemma_rest_rest, lemma_rest_zero, rest, skip_ws,
    skip_ws1, unsigned, ws,
};

verus! {

/// What a parser of expressions returns.
pub type ExprResult<'a> = Result<(&'a [u8], Box<Expr<'a>>), ParseError<'a>>;

/// The result `r` of a parser run on `s` is what the grammar says, `want`:
/// on success the same tree and the input that is left after the bytes used;
/// on failure the input from the offset of the failure on.
pub open spec fn expr_parsed<'a>(r: ExprResult<'a>, s: Seq<u8>, want: Parsed<ExprModel>) -> bool {
    match (r, want) {
        (Ok((out, e)), Ok((m, n))) => e.model() == m && n <= s.len() && out@ == rest(s, n),
        (Err(err), Err(a)) => a <= s.len() && err.rest@ == rest(s, a),
        _ => false,
    }
}

/// An unsigned literal as the language's integer.
fn literal(v: u128) -> (r: i128)
    ensures
        r == grammar::literal_value(v),
{
    if v <= 0x7fff_ffff_ffff_ffff_ffff_ffff_ffff_ffff {
        v as i128
    } else {
        let d: u128 = u128::MAX - v;
        -(d as i128) - 1
    }
}

/// Parses an unsigned integer literal.
pub fn parse_uint<'a>(input: &'a [u8]) -> (r: ExprResult<'a>)
    ensures
        expr_parsed(r, input@, grammar::uint(input@)),
{
    proof {
        lemma_rest_zero(input@);
    }
    match unsigned(input) {
        Ok((out, v)) => Ok((out, Box::new(Expr::Int(literal(v))))),
        Err(e) => Err(e),
    }
}

/// Parses an identifier.
pub fn parse_ident<'a>(input: &'a [u8]) -> (r: ExprResult<'a>)
    ensures
        expr_parsed(r, input@, grammar::ident(input@)),
{
    proof {
        lemma_rest_zero(input@);
    }
    match identifier(input) {
        Ok((out, name)) => Ok((out, Box::new(Expr::Ident(name)))),
        Err(e) => Err(e),
    }
}

/// A result on `s` from offset `p` on, seen from the start of `s`.
proof fn lemma_sub_expr(s: Seq<u8>, p: nat, r: ExprResult, want: Parsed<ExprModel>)
    requires
        p <= s.len(),
        expr_parsed(r, rest(s, p), want),
    ensures
        match (r, want) {
            (Ok((out, e)), Ok((m, n))) => e.model() == m && p + n <= s.len() && out@ == rest(
                s,
                p + n,
            ),
            (Err(err), Err(a)) => p + a <= s.len() && err.rest@ == rest(s, p + a),
            _ => false,
        },
{
    match want {
        Ok((m, n)) => lemma_rest_rest(s, p, n),
        Err(a) => lemma_rest_rest(s, p, a),
    }
}

/// Reads the infix operator of `level` from the front of `cur`, which is `s`
/// from offset `p` on.
fn operator<'a>(level: Level, cur: &'a [u8], Ghost(s): Ghost<Seq<u8>>, Ghost(p): Ghost<nat>) -> (r:
    Option<(BinOp, &'a [u8])>)
    requires
        p <= s.len(),
        cur@ == rest(s, p),
    ensures
        match (r, grammar::operator(level, rest(s, p))) {
            (Some((op, out)), Some((want, k))) => op == want && out@ == rest(s, p + k) && 1 <= k
                && p + k <= s.len(),
            (None, None) => true,
            _ => false,
        },
{
    let ghost c = cur@;
    proof {
        lemma_rest_zero(c);
        lemma_rest_rest(s, p, 1);
        lemma_rest_rest(s, p, 2);
    }
    match level {
        Level::Or => match eat2('|' as u8, '|' as u8, cur, Ghost(c), Ghost(0)) {
            Some(out) => Some((BinOp::Or, out)),
            None => None,
        },
        Level::And => match eat2('&' as u8, '&' as u8, cur, Ghost(c), Ghost(0)) {
            Some(out) => Some((BinOp::And, out)),
            None => None,
        },
        Level::Cmp => {
            if let Some(out) = eat2('>' as u8, '=' as u8, cur, Ghost(c), Ghost(0)) {
                Some((BinOp::Ge, out))
            } else if let Some(out) = eat1('>' as u8, cur, Ghost(c), Ghost(0)) {
                Some((BinOp::Gt, out))
            } else if let Some(out) = eat2('<' as u8, '=' as u8, cur, Ghost(c), Ghost(0)) {
                Some((BinOp::Le, out))
            } else if let Some(out) = eat1('<' as u8, cur, Ghost(c), Ghost(0)) {
                Some((BinOp::Lt, out))
            } else if let Some(out) = eat2('=' as u8, '=' as u8, cur, Ghost(c), Ghost(0)) {
                Some((BinOp::Eq, out))
            } else if let Some(out) = eat2('!' as u8, '=' as u8, cur, Ghost(c), Ghost(0)) {
                Some((BinOp::Ne, out))
            } else {
                None
            }
        },
        Level::Add => {
            if let Some(out) = eat1('+' as u8, cur, Ghost(c), Ghost(0)) {
                Some((BinOp::Add, out))
            } else if let Some(out) = eat1('-' as u8, cur, Ghost(c), Ghost(0)) {
                Some((BinOp::Sub, out))
            } else {
                None
            }
        },
        Level::Mul => {
            if let Some(out) = eat1('*' as u8, cur, Ghost(c), Ghost(0)) {
                Some((BinOp::Mul, out))
            } else if let Some(out) = eat1('/' as u8, cur, Ghost(c), Ghost(0)) {
                Some((BinOp::Div, out))
            } else if let Some(out) = eat1('%' as u8, cur, Ghost(c), Ghost(0)) {
                Some((BinOp::Rem, out))
            } else {
                None
            }
        },
    }
}

/// Parses a call: an identifier, `(`, at most one expression, `)`.
pub fn parse_call<'a>(input: &'a [u8]) -> (r: ExprResult<'a>)
    ensures
        expr_parsed(r, input@, grammar::call(input@)),
    decreases input@.len(), 22nat,
{
    let ghost s = input@;
    proof {
        lemma_rest_zero(s);
    }
    let (r1, name) = match identifier(input) {
        Ok(x) => x,
        Err(e) => {
            return Err(e);
        },
    };
    let ghost n = ident_len(s).unwrap();
    let r2 = skip_ws(r1, Ghost(s), Ghost(n));
    let ghost pos1 = ws(s, n);
    let r3 = match eat1('(' as u8, r2, Ghost(s), Ghost(pos1)) {
        Some(out) => out,
        None => {
            return Err(ParseError { rest: r2 });
        },
    };
    let r4 = skip_ws(r3, Ghost(s), Ghost(pos1 + 1));
    let ghost pos2 = ws(s, pos1 + 1);
    let sub = parse_expr(r4);
    let ghost pos3 = pos2 + grammar::used(grammar::expr(rest(s, pos2)));
    proof {
        lemma_sub_expr(s, pos2, sub, grammar::expr(rest(s, pos2)));
    }
    let (r5, arg) = match sub {
        Ok((out, e)) => (out, Some(e)),
        Err(_) => (r4, None),
    };
    let r6 = skip_ws(r5, Ghost(s), Ghost(pos3));
    let ghost pos4 = ws(s, pos3);
    match eat1(')' as u8, r6, Ghost(s), Ghost(pos4)) {
        Some(out) => Ok((out, Box::new(Expr::Call(name, arg)))),
        None => Err(ParseError { rest: r6 }),
    }
}

/// Parses an expression in parentheses.
fn paren<'a>(input: &'a [u8]) -> (r: ExprResult<'a>)
    ensures
        expr_parsed(r, input@, grammar::paren(input@)),
    decreases input@.len(), 21nat,
{
    let ghost s = input@;
    proof {
        lemma_rest_zero(s);
    }
    let r1 = match eat1('(' as u8, input, Ghost(s), Ghost(0)) {
        Some(out) => out,
        None => {
            return Err(ParseError { rest: input });
        },
    };
    let r2 = skip_ws(r1, Ghost(s), Ghost(1));
    let ghost pos1 = ws(s, 1);
    let sub = parse_expr(r2);
    proof {
        lemma_sub_expr(s, pos1, sub, grammar::expr(rest(s, pos1)));
    }
    let (r3, e) = match sub {
        Ok(x) => x,
        Err(e) => {
            return Err(e);
        },
    };
    let ghost pos2 = pos1 + grammar::used(grammar::expr(rest(s, pos1)));
    let r4 = skip_ws(r3, Ghost(s), Ghost(pos2));
    let ghost pos3 = ws(s, pos2);
    match eat1(')' as u8, r4, Ghost(s), Ghost(pos3)) {
        Some(out) => Ok((out, e)),
        None => Err(ParseError { rest: r4 }),
    }
}

/// Parses a primary: an unsigned literal, a call, an identifier or an
/// expression in parentheses.
pub fn parse_single_expr<'a>(input: &'a [u8]) -> (r: ExprResult<'a>)
    ensures
        expr_parsed(r, input@, grammar::single(input@)),
    decreases input@.len(), 23nat,
{
    let ghost s = input@;
    match parse_uint(input) {
        Ok(r) => {
            return Ok(r);
        },
        Err(_) => {},
    }
    match parse_call(input) {
        Ok(r) => {
            assert(grammar::call(s) is Ok);
            assert(grammar::single(s) == grammar::call(s)) by {
                                    assert(grammar::single(s) == (match grammar::call(s) {
                    Ok(r) => Ok::<(ExprModel, nat), nat>(r),
                    Err(_) => match grammar::ident(s) {
                        Ok(r) => Ok(r),
                        Err(_) => grammar::paren(s),
                    },
                }));
            }
            return Ok(r);
        },
        Err(_) => {},
    }
    match parse_ident(input) {
        Ok(r) => {
            return Ok(r);
        },
        Err(_) => {},
    }
    paren(input)
}

/// Parses a primary, with `^` and a power after it where they follow.
pub fn parse_pow<'a>(input: &'a [u8]) -> (r: ExprResult<'a>)
    ensures
        expr_parsed(r, input@, grammar::pow(input@)),
    decreases input@.len(), 24nat,
{
    let ghost s = input@;
    let (r1, base) = match parse_single_expr(input) {
        Ok(x) => x,
        Err(e) => {
            return Err(e);
        },
    };
    let ghost n = grammar::used(grammar::single(s));
    let r2 = skip_ws(r1, Ghost(s), Ghost(n));
    let ghost pos1 = ws(s, n);
    match eat1('^' as u8, r2, Ghost(s), Ghost(pos1)) {
        Some(r3) => {
            let r4 = skip_ws(r3, Ghost(s), Ghost(pos1 + 1));
            let ghost pos2 = ws(s, pos1 + 1);
            let sub = parse_pow(r4);
            proof {
                lemma_sub_expr(s, pos2, sub, grammar::pow(rest(s, pos2)));
            }
            match sub {
                Ok((out, exponent)) => Ok((out, Box::new(Expr::BinOp(BinOp::Pow, base, exponent)))),
                Err(_) => Ok((r1, base)),
            }
        },
        None => Ok((r1, base)),
    }
}

/// Parses a dereference, `*` before an operand of `* / %`, or else a power.
pub fn parse_higher_unop<'a>(input: &'a [u8]) -> (r: ExprResult<'a>)
    ensures
        expr_parsed(r, input@, grammar::higher_unop(input@)),
    decreases input@.len(), 25nat,
{
    let ghost s = input@;
    proof {
        lemma_rest_zero(s);
    }
    match eat1('*' as u8, input, Ghost(s), Ghost(0)) {
        Some(r1) => {
            let r2 = skip_ws(r1, Ghost(s), Ghost(1));
            let sub = parse_higher_unop(r2);
            proof {
                lemma_sub_expr(s, ws(s, 1), sub, grammar::higher_unop(rest(s, ws(s, 1))));
            }
            match sub {
                Ok((out, e)) => {
                    return Ok((out, Box::new(Expr::UnOp(UnOp::Deref, e))));
                },
                Err(_) => {},
            }
        },
        None => {},
    }
    parse_pow(input)
}

/// Parses a chain of `* / %`.
pub fn parse_higher_binop<'a>(input: &'a [u8]) -> (r: ExprResult<'a>)
    ensures
        expr_parsed(r, input@, grammar::chain(Level::Mul, input@)),
    decreases input@.len(), 20 * grammar::rank(Level::Mul) + 11,
{
    chain(Level::Mul, input)
}

/// Parses `+` or `-` before an operand of `+ -`, or else a chain of
/// `* / %`.
pub fn parse_lower_unop<'a>(input: &'a [u8]) -> (r: ExprResult<'a>)
    ensures
        expr_parsed(r, input@, grammar::lower_unop(input@)),
    decreases input@.len(), 45nat,
{
    let ghost s = input@;
    proof {
        lemma_rest_zero(s);
    }
    let sign = match eat1('+' as u8, input, Ghost(s), Ghost(0)) {
        Some(r1) => Some((UnOp::Plus, r1)),
        None => match eat1('-' as u8, input, Ghost(s), Ghost(0)) {
            Some(r1) => Some((UnOp::Minus, r1)),
            None => None,
        },
    };
    match sign {
        Some((op, r1)) => {
            let r2 = skip_ws(r1, Ghost(s), Ghost(1));
            let sub = parse_lower_unop(r2);
            proof {
                lemma_sub_expr(s, ws(s, 1), sub, grammar::lower_unop(rest(s, ws(s, 1))));
            }
            match sub {
                Ok((out, e)) => {
                    return Ok((out, Box::new(Expr::UnOp(op, e))));
                },
                Err(_) => {},
            }
        },
        None => {},
    }
    parse_higher_binop(input)
}

/// Parses a chain of `+ -`.
pub fn parse_lower_binop<'a>(input: &'a [u8]) -> (r: ExprResult<'a>)
    ensures
        expr_parsed(r, input@, grammar::chain(Level::Add, input@)),
    decreases input@.len(), 20 * grammar::rank(Level::Add) + 11,
{
    chain(Level::Add, input)
}

/// Parses a chain of comparisons.
pub fn parse_cmp_binop<'a>(input: &'a [u8]) -> (r: ExprResult<'a>)
    ensures
        expr_parsed(r, input@, grammar::chain(Level::Cmp, input@)),
    decreases input@.len(), 20 * grammar::rank(Level::Cmp) + 11,
{
    chain(Level::Cmp, input)
}

/// Parses `!` before an operand of `&&`, or else a chain of comparisons.
pub fn parse_not_unop<'a>(input: &'a [u8]) -> (r: ExprResult<'a>)
    ensures
        expr_parsed(r, input@, grammar::not_unop(input@)),
    decreases input@.len(), 85nat,
{
    let ghost s = input@;
    proof {
        lemma_rest_zero(s);
    }
    // 0x21 is `!`.
    match eat1(0x21, input, Ghost(s), Ghost(0)) {
        Some(r1) => {
            let r2 = skip_ws(r1, Ghost(s), Ghost(1));
            let sub = parse_not_unop(r2);
            proof {
                lemma_sub_expr(s, ws(s, 1), sub, grammar::not_unop(rest(s, ws(s, 1))));
            }
            match sub {
                Ok((out, e)) => {
                    return Ok((out, Box::new(Expr::UnOp(UnOp::Not, e))));
                },
                Err(_) => {},
            }
        },
        None => {},
    }
    parse_cmp_binop(input)
}

/// Parses a chain of `&&`.
pub fn parse_and_binop<'a>(input: &'a [u8]) -> (r: ExprResult<'a>)
    ensures
        expr_parsed(r, input@, grammar::chain(Level::And, input@)),
    decreases input@.len(), 20 * grammar::rank(Level::And) + 11,
{
    chain(Level::And, input)
}

/// Parses a chain of `||`.
pub fn parse_or_binop<'a>(input: &'a [u8]) -> (r: ExprResult<'a>)
    ensures
        expr_parsed(r, input@, grammar::chain(Level::Or, input@)),
    decreases input@.len(), 20 * grammar::rank(Level::Or) + 11,
{
    chain(Level::Or, input)
}

/// Parses an expression.
pub fn parse_expr<'a>(input: &'a [u8]) -> (r: ExprResult<'a>)
    ensures
        expr_parsed(r, input@, grammar::expr(input@)),
    decreases input@.len(), 200nat,
{
    parse_or_binop(input)
}

/// Parses what stands on either side of an operator of `level`.
fn operand<'a>(level: Level, input: &'a [u8]) -> (r: ExprResult<'a>)
    ensures
        expr_parsed(r, input@, grammar::operand(level, input@)),
    decreases input@.len(), 20 * grammar::rank(level) + 9,
{
    match level {
        Level::Or => parse_and_binop(input),
        Level::And => parse_not_unop(input),
        Level::Cmp => parse_lower_binop(input),
        Level::Add => parse_lower_unop(input),
        Level::Mul => parse_higher_unop(input),
    }
}

/// Parses one operand of `level` and the `operator operand` pairs after it,
/// grouping them to the left.
fn chain<'a>(level: Level, input: &'a [u8]) -> (r: ExprResult<'a>)
    ensures
        expr_parsed(r, input@, grammar::chain(level, input@)),
    decreases input@.len(), 20 * grammar::rank(level) + 10,
{
    let ghost s = input@;
    let (mut cur, mut acc) = match operand(level, input) {
        Ok(x) => x,
        Err(e) => {
            return Err(e);
        },
    };
    let ghost mut n: nat = grammar::used(grammar::operand(level, s));
    loop
        invariant
            s == input@,
            n <= s.len(),
            cur@ == rest(s, n),
            grammar::chain(level, s) == Ok::<(ExprModel, nat), nat>(
                (
                    grammar::tail(level, cur@, acc.model()).0,
                    n + grammar::tail(level, cur@, acc.model()).1,
                ),
            ),
        ensures
            n <= s.len(),
            cur@ == rest(s, n),
            grammar::chain(level, s) == Ok::<(ExprModel, nat), nat>((acc.model(), n)),
        decreases cur@.len(),
    {
        let ghost c = cur@;
        proof {
            lemma_rest_zero(c);
        }
        let r1 = skip_ws(cur, Ghost(c), Ghost(0));
        let ghost pos1 = ws(c, 0);
        let (op, r2) = match operator(level, r1, Ghost(c), Ghost(pos1)) {
            Some(x) => x,
            None => {
                break ;
            },
        };
        let ghost k = grammar::operator(level, rest(c, pos1)).unwrap().1;
        let r3 = skip_ws(r2, Ghost(c), Ghost(pos1 + k));
        let ghost pos2 = ws(c, pos1 + k);
        let sub = operand(level, r3);
        proof {
            lemma_sub_expr(c, pos2, sub, grammar::operand(level, rest(c, pos2)));
        }
        let (r4, rhs) = match sub {
            Ok(x) => x,
            Err(_) => {
                break ;
            },
        };
        proof {
            let m = grammar::used(grammar::operand(level, rest(c, pos2)));
            lemma_rest_rest(s, n, pos2 + m);
            n = n + pos2 + m;
        }
        acc = Box::new(Expr::BinOp(op, acc, rhs));
        cur = r4;
    }
    Ok((cur, acc))
}

/// What a parser of commands returns.
pub type CmdResult<'a> = Result<(&'a [u8], Box<Cmd<'a>>), ParseError<'a>>;

/// The result `r` of a parser run on `s` is what the grammar says, `want`:
/// on success the same tree and the input that is left after the bytes used;
/// on failure the input from the offset of the failure on.
pub open spec fn cmd_parsed<'a>(r: CmdResult<'a>, s: Seq<u8>, want: Parsed<CmdModel>) -> bool {
    match (r, want) {
        (Ok((out, c)), Ok((m, n))) => c.model() == m && n <= s.len() && out@ == rest(s, n),
        (Err(err), Err(a)) => a <= s.len() && err.rest@ == rest(s, a),
        _ => false,
    }
}

/// A result on `s` from offset `p` on, seen from the start of `s`.
proof fn lemma_sub_cmd(s: Seq<u8>, p: nat, r: CmdResult, want: Parsed<CmdModel>)
    requires
        p <= s.len(),
        cmd_parsed(r, rest(s, p), want),
    ensures
        match (r, want) {
            (Ok((out, c)), Ok((m, n))) => c.model() == m && p + n <= s.len() && out@ == rest(
                s,
                p + n,
            ),
            (Err(err), Err(a)) => p + a <= s.len() && err.rest@ == rest(s, p + a),
            _ => false,
        },
{
    match want {
        Ok((m, n)) => lemma_rest_rest(s, p, n),
        Err(a) => lemma_rest_rest(s, p, a),
    }
}

/// The bytes of `var`.
fn kw_var() -> (kw: [u8; 3])
    ensures
        kw@ == grammar::kw_var(),
{
    let kw = ['v' as u8, 'a' as u8, 'r' as u8];
    assert(kw@ =~= grammar::kw_var());
    kw
}

/// The bytes of `if`.
fn kw_if() -> (kw: [u8; 2])
    ensures
        kw@ == grammar::kw_if(),
{
    let kw = ['i' as u8, 'f' as u8];
    assert(kw@ =~= grammar::kw_if());
    kw
}

/// The bytes of `then`.
fn kw_then() -> (kw: [u8; 4])
    ensures
        kw@ == grammar::kw_then(),
{
    let kw = ['t' as u8, 'h' as u8, 'e' as u8, 'n' as u8];
    assert(kw@ =~= grammar::kw_then());
    kw
}

/// The bytes of `else`.
fn kw_else() -> (kw: [u8; 4])
    ensures
        kw@ == grammar::kw_else(),
{
    let kw = ['e' as u8, 'l' as u8, 's' as u8, 'e' as u8];
    assert(kw@ =~= grammar::kw_else());
    kw
}

/// The bytes of `while`.
fn kw_while() -> (kw: [u8; 5])
    ensures
        kw@ == grammar::kw_while(),
{
    let kw = ['w' as u8, 'h' as u8, 'i' as u8, 'l' as u8, 'e' as u8];
    assert(kw@ =~= grammar::kw_while());
    kw
}

/// The bytes of `do`.
fn kw_do() -> (kw: [u8; 2])
    ensures
        kw@ == grammar::kw_do(),
{
    let kw = ['d' as u8, 'o' as u8];
    assert(kw@ =~= grammar::kw_do());
    kw
}

/// Parses an expression as a statement.
pub fn parse_expr_cmd<'a>(input: &'a [u8]) -> (r: CmdResult<'a>)
    ensures
        cmd_parsed(r, input@, grammar::expr_cmd(input@)),
{
    proof {
        reveal(grammar::expr_cmd);
    }
    match parse_expr(input) {
        Ok((out, e)) => Ok((out, Box::new(Cmd::Expr(e)))),
        Err(e) => Err(e),
    }
}

/// Parses a declaration: `var`, white space, an identifier.
pub fn parse_decl<'a>(input: &'a [u8]) -> (r: CmdResult<'a>)
    ensures
        cmd_parsed(r, input@, grammar::decl(input@)),
{
    proof {
        reveal(grammar::decl);
    }
    let ghost s = input@;
    proof {
        lemma_rest_zero(s);
    }
    let kw = kw_var();
    let r1 = match eat(&kw, input, Ghost(s), Ghost(0)) {
        Some(out) => out,
        None => {
            return Err(ParseError { rest: input });
        },
    };
    let r2 = match skip_ws1(r1, Ghost(s), Ghost(3)) {
        Some(out) => out,
        None => {
            return Err(ParseError { rest: r1 });
        },
    };
    let ghost p = ws(s, 3);
    proof {
        lemma_rest_zero(r2@);
    }
    match identifier(r2) {
        Ok((out, name)) => {
            proof {
                lemma_rest_rest(s, p, ident_len(r2@).unwrap());
            }
            Ok((out, Box::new(Cmd::Decl(name))))
        },
        Err(e) => Err(e),
    }
}

/// Parses an assignment: an expression, `=`, an expression.
pub fn parse_assign<'a>(input: &'a [u8]) -> (r: CmdResult<'a>)
    ensures
        cmd_parsed(r, input@, grammar::assign(input@)),
{
    proof {
        reveal(grammar::assign);
    }
    let ghost s = input@;
    let (r1, target) = match parse_expr(input) {
        Ok(x) => x,
        Err(e) => {
            return Err(e);
        },
    };
    let ghost n = grammar::used(grammar::expr(s));
    let r2 = skip_ws(r1, Ghost(s), Ghost(n));
    let ghost pos1 = ws(s, n);
    let r3 = match eat1('=' as u8, r2, Ghost(s), Ghost(pos1)) {
        Some(out) => out,
        None => {
            return Err(ParseError { rest: r2 });
        },
    };
    let r4 = skip_ws(r3, Ghost(s), Ghost(pos1 + 1));
    let ghost pos2 = ws(s, pos1 + 1);
    let sub = parse_expr(r4);
    proof {
        lemma_sub_expr(s, pos2, sub, grammar::expr(rest(s, pos2)));
    }
    match sub {
        Ok((out, value)) => Ok((out, Box::new(Cmd::Assign(target, value)))),
        Err(e) => Err(e),
    }
}

/// Parses a simple statement: a declaration, an assignment or an expression.
pub fn parse_single_cmd<'a>(input: &'a [u8]) -> (r: CmdResult<'a>)
    ensures
        cmd_parsed(r, input@, grammar::single_cmd(input@)),
{
    proof {
        reveal(grammar::single_cmd);
    }
    match parse_decl(input) {
        Ok(r) => {
            return Ok(r);
        },
        Err(_) => {},
    }
    match parse_assign(input) {
        Ok(r) => {
            return Ok(r);
        },
        Err(_) => {},
    }
    parse_expr_cmd(input)
}

/// Drops white space and then the word `word` from the front of `cur`, which
/// is `s` from offset `p` on, where both stand there.
fn opt_word<'a, const M: usize>(
    word: &[u8; M],
    cur: &'a [u8],
    Ghost(s): Ghost<Seq<u8>>,
    Ghost(p): Ghost<nat>,
) -> (out: &'a [u8])
    requires
        p <= s.len(),
        cur@ == rest(s, p),
    ensures
        out@ == rest(s, grammar::opt_word(s, p, word@)),
        p <= grammar::opt_word(s, p, word@) <= s.len(),
{
    proof {
        reveal(grammar::opt_word);
    }
    match skip_ws1(cur, Ghost(s), Ghost(p)) {
        Some(r1) => match eat(word, r1, Ghost(s), Ghost(ws(s, p))) {
            Some(r2) => r2,
            None => cur,
        },
        None => cur,
    }
}

/// Parses what `if` and `while` share: the keyword `kw`, white space, a
/// condition, the word `word` if it is there, and a command in braces.
fn guarded<'a, const N: usize, const M: usize>(input: &'a [u8], kw: &[u8; N], word: &[u8; M]) -> (r:
    Result<(&'a [u8], Box<Expr<'a>>, Box<Cmd<'a>>), ParseError<'a>>)
    requires
        N > 0,
    ensures
        match (r, grammar::guarded(input@, kw@, word@)) {
            (Ok((out, cond, body)), Ok(((c, b), n))) => cond.model() == c && body.model() == b
                && n <= input@.len() && out@ == rest(input@, n),
            (Err(err), Err(a)) => a <= input@.len() && err.rest@ == rest(input@, a),
            _ => false,
        },
    decreases input@.len(), 1nat,
{
    let ghost s = input@;
    proof {
        lemma_rest_zero(s);
    }
    let r1 = match eat(kw, input, Ghost(s), Ghost(0)) {
        Some(out) => out,
        None => {
            return Err(ParseError { rest: input });
        },
    };
    let r2 = match skip_ws1(r1, Ghost(s), Ghost(N as nat)) {
        Some(out) => out,
        None => {
            return Err(ParseError { rest: r1 });
        },
    };
    let ghost pos1 = ws(s, N as nat);
    let sub = parse_expr(r2);
    proof {
        lemma_sub_expr(s, pos1, sub, grammar::expr(rest(s, pos1)));
    }
    let (r3, cond) = match sub {
        Ok(x) => x,
        Err(e) => {
            return Err(e);
        },
    };
    let ghost n = grammar::used(grammar::expr(rest(s, pos1)));
    let r4 = opt_word(word, r3, Ghost(s), Ghost(pos1 + n));
    let ghost q = grammar::opt_word(s, pos1 + n, word@);
    let r5 = skip_ws(r4, Ghost(s), Ghost(q));
    let ghost pos2 = ws(s, q);
    let r6 = match eat1('{' as u8, r5, Ghost(s), Ghost(pos2)) {
        Some(out) => out,
        None => {
            return Err(ParseError { rest: r5 });
        },
    };
    let r7 = skip_ws(r6, Ghost(s), Ghost(pos2 + 1));
    let ghost pos3 = ws(s, pos2 + 1);
    let sub = parse_cmd(r7);
    proof {
        lemma_sub_cmd(s, pos3, sub, grammar::cmd(rest(s, pos3)));
    }
    let (r8, body) = match sub {
        Ok(x) => x,
        Err(e) => {
            return Err(e);
        },
    };
    let ghost m = grammar::used(grammar::cmd(rest(s, pos3)));
    let r9 = skip_ws(r8, Ghost(s), Ghost(pos3 + m));
    let ghost pos4 = ws(s, pos3 + m);
    match eat1('}' as u8, r9, Ghost(s), Ghost(pos4)) {
        Some(out) => Ok((out, cond, body)),
        None => Err(ParseError { rest: r9 }),
    }
}

/// Parses the `else` branch that stands at the front of `cur`, which is `s`
/// from offset `p` on.
fn else_branch<'a>(cur: &'a [u8], Ghost(s): Ghost<Seq<u8>>, Ghost(p): Ghost<nat>) -> (r: Option<
    (&'a [u8], Box<Cmd<'a>>),
>)
    requires
        p <= s.len(),
        cur@ == rest(s, p),
    ensures
        match (r, grammar::else_branch(s, p)) {
            (Some((out, body)), Some((b, n))) => body.model() == b && n <= s.len() && out@ == rest(
                s,
                n,
            ),
            (None, None) => true,
            _ => false,
        },
    decreases s.len(), 1nat,
{
    let r1 = skip_ws(cur, Ghost(s), Ghost(p));
    let ghost pos1 = ws(s, p);
    let kw = kw_else();
    let r2 = match eat(&kw, r1, Ghost(s), Ghost(pos1)) {
        Some(out) => out,
        None => {
            return None;
        },
    };
    let r3 = skip_ws(r2, Ghost(s), Ghost(pos1 + 4));
    let ghost pos2 = ws(s, pos1 + 4);
    let r4 = match eat1('{' as u8, r3, Ghost(s), Ghost(pos2)) {
        Some(out) => out,
        None => {
            return None;
        },
    };
    let r5 = skip_ws(r4, Ghost(s), Ghost(pos2 + 1));
    let ghost pos3 = ws(s, pos2 + 1);
    let sub = parse_cmd(r5);
    proof {
        lemma_sub_cmd(s, pos3, sub, grammar::cmd(rest(s, pos3)));
    }
    let (r6, body) = match sub {
        Ok(x) => x,
        Err(_) => {
            return None;
        },
    };
    let ghost m = grammar::used(grammar::cmd(rest(s, pos3)));
    let r7 = skip_ws(r6, Ghost(s), Ghost(pos3 + m));
    let ghost pos4 = ws(s, pos3 + m);
    match eat1('}' as u8, r7, Ghost(s), Ghost(pos4)) {
        Some(out) => Some((out, body)),
        None => None,
    }
}

/// The empty sequence of commands.
fn nothing<'a>() -> (c: Box<Cmd<'a>>)
    ensures
        c.model() == CmdModel::Sequence(Seq::empty()),
{
    let none: Vec<Box<Cmd<'a>>> = Vec::new();
    proof {
        lemma_sequence_model(none);
        assert(models(none@) =~= Seq::<CmdModel>::empty());
    }
    Box::new(Cmd::Sequence(none))
}

/// Parses a conditional.
pub fn parse_if<'a>(input: &'a [u8]) -> (r: CmdResult<'a>)
    ensures
        cmd_parsed(r, input@, grammar::if_cmd(input@)),
    decreases input@.len(), 2nat,
{
    let ghost s = input@;
    let kw = kw_if();
    let word = kw_then();
    let (r1, cond, first) = match guarded(input, &kw, &word) {
        Ok(x) => x,
        Err(e) => {
            return Err(e);
        },
    };
    let ghost n = grammar::used(grammar::guarded(s, grammar::kw_if(), grammar::kw_then()));
    match else_branch(r1, Ghost(s), Ghost(n)) {
        Some((out, second)) => Ok((out, Box::new(Cmd::If(cond, first, second)))),
        None => Ok((r1, Box::new(Cmd::If(cond, first, nothing())))),
    }
}

/// Parses a loop.
pub fn parse_while<'a>(input: &'a [u8]) -> (r: CmdResult<'a>)
    ensures
        cmd_parsed(r, input@, grammar::while_cmd(input@)),
    decreases input@.len(), 2nat,
{
    let kw = kw_while();
    let word = kw_do();
    match guarded(input, &kw, &word) {
        Ok((out, cond, body)) => Ok((out, Box::new(Cmd::While(cond, body)))),
        Err(e) => Err(e),
    }
}

/// Parses a block statement: a conditional or a loop.
pub fn parse_block_cmd<'a>(input: &'a [u8]) -> (r: CmdResult<'a>)
    ensures
        cmd_parsed(r, input@, grammar::block_cmd(input@)),
    decreases input@.len(), 3nat,
{
    match parse_if(input) {
        Ok(r) => {
            return Ok(r);
        },
        Err(_) => {},
    }
    parse_while(input)
}

/// Parses a statement that another may follow: a simple statement and `;`,
/// or else a block statement and `;` if it is there.
fn item<'a>(input: &'a [u8]) -> (r: CmdResult<'a>)
    ensures
        cmd_parsed(r, input@, grammar::item(input@)),
    decreases input@.len(), 4nat,
{
    let ghost s = input@;
    proof {
        lemma_rest_zero(s);
    }
    let r1 = skip_ws(input, Ghost(s), Ghost(0));
    let ghost p = ws(s, 0);
    let simple = parse_single_cmd(r1);
    proof {
        lemma_sub_cmd(s, p, simple, grammar::single_cmd(rest(s, p)));
    }
    match simple {
        Ok((r2, c)) => {
            let ghost n = grammar::used(grammar::single_cmd(rest(s, p)));
            let r3 = skip_ws(r2, Ghost(s), Ghost(p + n));
            match eat1(';' as u8, r3, Ghost(s), Ghost(ws(s, p + n))) {
                Some(out) => {
                    return Ok((out, c));
                },
                None => {},
            }
        },
        Err(_) => {},
    }
    let sub = parse_block_cmd(r1);
    proof {
        lemma_sub_cmd(s, p, sub, grammar::block_cmd(rest(s, p)));
    }
    let (r2, c) = match sub {
        Ok(x) => x,
        Err(e) => {
            return Err(e);
        },
    };
    let ghost n = grammar::used(grammar::block_cmd(rest(s, p)));
    let r3 = skip_ws(r2, Ghost(s), Ghost(p + n));
    match eat1(';' as u8, r3, Ghost(s), Ghost(ws(s, p + n))) {
        Some(out) => Ok((out, c)),
        None => Ok((r2, c)),
    }
}

/// Parses statements that others may follow, as many as there are.
fn items<'a>(input: &'a [u8]) -> (r: Result<(&'a [u8], Vec<Box<Cmd<'a>>>), ParseError<'a>>)
    ensures
        match (r, grammar::items(input@)) {
            (Ok((out, cs)), Ok((ms, n))) => models(cs@) == ms && n <= input@.len() && out@ == rest(
                input@,
                n,
            ),
            (Err(err), Err(a)) => a <= input@.len() && err.rest@ == rest(input@, a),
            _ => false,
        },
    decreases input@.len(), 5nat,
{
    let ghost s = input@;
    let mut cur: &'a [u8] = input;
    let mut acc: Vec<Box<Cmd<'a>>> = Vec::new();
    let ghost mut n: nat = 0;
    proof {
        lemma_rest_zero(s);
        assert(models(acc@) =~= Seq::<CmdModel>::empty());
        match grammar::items(s) {
            Ok((cs, m)) => {
                assert(models(acc@) + cs =~= cs);
            },
            Err(_) => {},
        }
    }
    loop
        invariant
            s == input@,
            n <= s.len(),
            cur@ == rest(s, n),
            grammar::items(s) == match grammar::items(cur@) {
                Ok((cs, m)) => Ok::<(Seq<CmdModel>, nat), nat>((models(acc@) + cs, n + m)),
                Err(a) => Err(n + a),
            },
        decreases cur@.len(),
    {
        let ghost c = cur@;
        let ghost before = models(acc@);
        let sub = item(cur);
        let (next, stmt) = match sub {
            Ok(x) => x,
            Err(_) => {
                proof {
                    assert(before + Seq::<CmdModel>::empty() =~= before);
                }
                return Ok((cur, acc));
            },
        };
        if next.len() == cur.len() {
            return Err(ParseError { rest: cur });
        }
        let ghost k = grammar::used(grammar::item(c));
        acc.push(stmt);
        proof {
            lemma_rest_rest(s, n, k);
            assert(models(acc@) =~= before + seq![stmt.model()]);
            match grammar::items(rest(c, k)) {
                Ok((cs, m)) => {
                    assert(models(acc@) + cs =~= before + (seq![stmt.model()] + cs));
                },
                Err(_) => {},
            }
            n = n + k;
        }
        cur = next;
    }
}

/// Parses a command: statements, each simple one followed by `;`, each
/// conditional or loop followed by `;` or not, and the last simple statement
/// with or without its `;`. It takes as many statements as parse, and stops
/// before what does not: so it never fails.
pub fn parse_cmd<'a>(input: &'a [u8]) -> (r: CmdResult<'a>)
    ensures
        r is Ok,
        cmd_parsed(r, input@, grammar::cmd(input@)),
    decreases input@.len(), 6nat,
{
    let ghost s = input@;
    proof {
        grammar::lemma_cmd_parses(s);
    }
    let (r1, mut cs) = match items(input) {
        Ok(x) => x,
        Err(e) => {
            return Err(e);
        },
    };
    let ghost n = grammar::used(grammar::items(s));
    let ghost before = models(cs@);
    let r2 = skip_ws(r1, Ghost(s), Ghost(n));
    let last = parse_single_cmd(r2);
    proof {
        lemma_sub_cmd(s, ws(s, n), last, grammar::single_cmd(rest(s, ws(s, n))));
    }
    match last {
        Ok((out, c)) => {
            cs.push(c);
            proof {
                lemma_sequence_model(cs);
                assert(models(cs@) =~= before.push(c.model()));
            }
            Ok((out, Box::new(Cmd::Sequence(cs))))
        },
        Err(_) => {
            proof {
                lemma_sequence_model(cs);
            }
            Ok((r1, Box::new(Cmd::Sequence(cs))))
        },
    }
}

/// Parses a program: a command and white space, to the end of `input`. What
/// is left over makes it fail.
pub fn parse<'a>(input: &'a [u8]) -> (r: Result<Box<Cmd<'a>>, ParseError<'a>>)
    ensures
        match (r, grammar::program(input@)) {
            (Ok(c), Ok(m)) => c.model() == m,
            (Err(err), Err(a)) => a <= input@.len() && err.rest@ == rest(input@, a),
            _ => false,
        },
{
    let ghost s = input@;
    let (r1, c) = match parse_cmd(input) {
        Ok(x) => x,
        Err(e) => {
            return Err(e);
        },
    };
    let ghost n = grammar::used(grammar::cmd(s));
    let r2 = skip_ws(r1, Ghost(s), Ghost(n));
    if r2.len() == 0 {
        Ok(c)
    } else {
        Err(ParseError { rest: r2 })
    }
}

} // verus!
