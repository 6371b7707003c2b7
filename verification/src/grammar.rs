//! The grammar, as functions from the text that is left to what a parser
//! makes of it.
//!
//! Each function takes the bytes still to be read. Where it succeeds it gives
//! the tree and the number of bytes it used; where it fails it gives the
//! offset at which it could not go on. Alternatives are tried in order and
//! the first that succeeds wins; where all fail, the failure is that of the
//! last. Offsets inside a function count from the start of its own input.

use vstd::prelude::*;

use crate::ast::{BinOp, CmdModel, ExprModel, UnOp};
use crate::lex::{at, ident_len, is_space, lemma_run_len, rest, space_run, uint_literal, ws};

verus! {

/// What a parser makes of its input: the value and the bytes used, or the
/// offset of the failure.
pub type Parsed<T> = Result<(T, nat), nat>;

/// The bytes that a parser used; none where it failed.
pub open spec fn used<T>(r: Parsed<T>) -> nat {
    match r {
        Ok((_, n)) => n,
        Err(_) => 0,
    }
}

/// The five levels of left-associative infix operators, loosest first.
#[derive(Clone, Copy, Debug, PartialEq, Eq, Structural)]
pub enum Level {
    /// `||`
    Or,
    /// `&&`
    And,
    /// `>=  >  <=  <  ==  !=`
    Cmp,
    /// `+  -`
    Add,
    /// `*  /  %`
    Mul,
}

/// The bytes of a token given as two characters.
pub open spec fn two(a: char, b: char) -> Seq<u8> {
    seq![a as u8, b as u8]
}

/// The bytes of a token given as one character.
pub open spec fn one(a: char) -> Seq<u8> {
    seq![a as u8]
}

/// The bytes of `var`.
pub open spec fn kw_var() -> Seq<u8> {
    seq!['v' as u8, 'a' as u8, 'r' as u8]
}

/// The bytes of `if`.
pub open spec fn kw_if() -> Seq<u8> {
    seq!['i' as u8, 'f' as u8]
}

/// The bytes of `then`.
pub open spec fn kw_then() -> Seq<u8> {
    seq!['t' as u8, 'h' as u8, 'e' as u8, 'n' as u8]
}

/// The bytes of `else`.
pub open spec fn kw_else() -> Seq<u8> {
    seq!['e' as u8, 'l' as u8, 's' as u8, 'e' as u8]
}

/// The bytes of `while`.
pub open spec fn kw_while() -> Seq<u8> {
    seq!['w' as u8, 'h' as u8, 'i' as u8, 'l' as u8, 'e' as u8]
}

/// The bytes of `do`.
pub open spec fn kw_do() -> Seq<u8> {
    seq!['d' as u8, 'o' as u8]
}

/// The value of an unsigned literal as the language's integer: itself up to
/// `i128::MAX`, and from there on wrapped round to the negative numbers.
pub open spec fn literal_value(v: u128) -> i128 {
    if v <= i128::MAX {
        v as i128
    } else {
        (v - 0x1_0000_0000_0000_0000_0000_0000_0000_0000int) as i128
    }
}

/// The infix operator of `level` at the front of `s`, with its length.
pub open spec fn operator(level: Level, s: Seq<u8>) -> Option<(BinOp, nat)> {
    match level {
        Level::Or => if at(s, 0, two('|', '|')) {
            Some((BinOp::Or, 2))
        } else {
            None
        },
        Level::And => if at(s, 0, two('&', '&')) {
            Some((BinOp::And, 2))
        } else {
            None
        },
        Level::Cmp => if at(s, 0, two('>', '=')) {
            Some((BinOp::Ge, 2))
        } else if at(s, 0, one('>')) {
            Some((BinOp::Gt, 1))
        } else if at(s, 0, two('<', '=')) {
            Some((BinOp::Le, 2))
        } else if at(s, 0, one('<')) {
            Some((BinOp::Lt, 1))
        } else if at(s, 0, two('=', '=')) {
            Some((BinOp::Eq, 2))
        } else if at(s, 0, two('!', '=')) {
            Some((BinOp::Ne, 2))
        } else {
            None
        },
        Level::Add => if at(s, 0, one('+')) {
            Some((BinOp::Add, 1))
        } else if at(s, 0, one('-')) {
            Some((BinOp::Sub, 1))
        } else {
            None
        },
        Level::Mul => if at(s, 0, one('*')) {
            Some((BinOp::Mul, 1))
        } else if at(s, 0, one('/')) {
            Some((BinOp::Div, 1))
        } else if at(s, 0, one('%')) {
            Some((BinOp::Rem, 1))
        } else {
            None
        },
    }
}

/// How tightly a level binds, for the order in which the functions below
/// call one another.
pub open spec fn rank(level: Level) -> nat {
    match level {
        Level::Or => 5,
        Level::And => 4,
        Level::Cmp => 3,
        Level::Add => 2,
        Level::Mul => 1,
    }
}

/// An unsigned literal.
pub open spec fn uint(s: Seq<u8>) -> Parsed<ExprModel> {
    match uint_literal(s) {
        Some((v, n)) => Ok((ExprModel::Int(literal_value(v)), n)),
        None => Err(0),
    }
}

/// An identifier.
pub open spec fn ident(s: Seq<u8>) -> Parsed<ExprModel> {
    match ident_len(s) {
        Some(n) => Ok((ExprModel::Ident(s.take(n as int)), n)),
        None => Err(0),
    }
}

/// An expression: a chain at the loosest level.
pub open spec fn expr(s: Seq<u8>) -> Parsed<ExprModel>
    decreases s.len(), 100nat,
{
    chain(Level::Or, s)
}

/// One operand of `level`, then any number of `operator operand` pairs,
/// grouped to the left.
pub open spec fn chain(level: Level, s: Seq<u8>) -> Parsed<ExprModel>
    decreases s.len(), 10 * rank(level) + 9,
{
    match operand(level, s) {
        Err(a) => Err(a),
        Ok((first, n)) => {
            let (e, m) = tail(level, rest(s, n), first);
            Ok((e, n + m))
        },
    }
}

/// What stands on either side of an operator of `level`.
pub open spec fn operand(level: Level, s: Seq<u8>) -> Parsed<ExprModel>
    decreases s.len(), 10 * rank(level) + 8,
{
    match level {
        Level::Or => chain(Level::And, s),
        Level::And => not_unop(s),
        Level::Cmp => chain(Level::Add, s),
        Level::Add => lower_unop(s),
        Level::Mul => higher_unop(s),
    }
}

/// The `operator operand` pairs that follow the operands read so far, which
/// make up `acc`. It stops, without failing, before the first pair that does
/// not parse.
pub open spec fn tail(level: Level, s: Seq<u8>, acc: ExprModel) -> (ExprModel, nat)
    decreases s.len(), 0nat,
{
    let pos1 = ws(s, 0);
    match operator(level, rest(s, pos1)) {
        None => (acc, 0),
        Some((op, k)) => {
            let pos2 = ws(s, pos1 + k);
            match operand(level, rest(s, pos2)) {
                Err(_) => (acc, 0),
                Ok((rhs, n)) => {
                    let (e, m) = tail(
                        level,
                        rest(s, pos2 + n),
                        ExprModel::BinOp(op, Box::new(acc), Box::new(rhs)),
                    );
                    (e, pos2 + n + m)
                },
            }
        },
    }
}

/// `!` before an operand of `&&`; without it, or where what follows it does
/// not parse, a comparison.
pub open spec fn not_unop(s: Seq<u8>) -> Parsed<ExprModel>
    decreases s.len(), 45nat,
{
    if at(s, 0, one('!')) {
        match not_unop(rest(s, ws(s, 1))) {
            Ok((e, n)) => Ok((ExprModel::UnOp(UnOp::Not, Box::new(e)), ws(s, 1) + n)),
            Err(_) => chain(Level::Cmp, s),
        }
    } else {
        chain(Level::Cmp, s)
    }
}

/// `+` or `-` before an operand of `+ -`; without it, or where what follows
/// it does not parse, a product.
pub open spec fn lower_unop(s: Seq<u8>) -> Parsed<ExprModel>
    decreases s.len(), 25nat,
{
    if at(s, 0, one('+')) || at(s, 0, one('-')) {
        match lower_unop(rest(s, ws(s, 1))) {
            Ok((e, n)) => Ok(
                (
                    ExprModel::UnOp(
                        if at(s, 0, one('+')) {
                            UnOp::Plus
                        } else {
                            UnOp::Minus
                        },
                        Box::new(e),
                    ),
                    ws(s, 1) + n,
                ),
            ),
            Err(_) => chain(Level::Mul, s),
        }
    } else {
        chain(Level::Mul, s)
    }
}

/// `*` before an operand of `* / %`: a dereference; without it, or where
/// what follows it does not parse, a power.
pub open spec fn higher_unop(s: Seq<u8>) -> Parsed<ExprModel>
    decreases s.len(), 15nat,
{
    if at(s, 0, one('*')) {
        match higher_unop(rest(s, ws(s, 1))) {
            Ok((e, n)) => Ok((ExprModel::UnOp(UnOp::Deref, Box::new(e)), ws(s, 1) + n)),
            Err(_) => pow(s),
        }
    } else {
        pow(s)
    }
}

/// A primary, and after it `^` and a power where they follow: `^` groups to
/// the right.
pub open spec fn pow(s: Seq<u8>) -> Parsed<ExprModel>
    decreases s.len(), 14nat,
{
    match single(s) {
        Err(a) => Err(a),
        Ok((base, n)) => {
            let pos1 = ws(s, n);
            if at(s, pos1, one('^')) {
                let pos2 = ws(s, pos1 + 1);
                match pow(rest(s, pos2)) {
                    Ok((exponent, m)) => Ok(
                        (
                            ExprModel::BinOp(BinOp::Pow, Box::new(base), Box::new(exponent)),
                            pos2 + m,
                        ),
                    ),
                    Err(_) => Ok((base, n)),
                }
            } else {
                Ok((base, n))
            }
        },
    }
}

/// A primary: an unsigned literal, a call, an identifier or an expression in
/// parentheses, tried in this order.
pub open spec fn single(s: Seq<u8>) -> Parsed<ExprModel>
    decreases s.len(), 13nat,
{
    match uint(s) {
        Ok(r) => Ok(r),
        Err(_) => match call(s) {
            Ok(r) => Ok(r),
            Err(_) => match ident(s) {
                Ok(r) => Ok(r),
                Err(_) => paren(s),
            },
        },
    }
}

/// A call: an identifier, `(`, at most one expression, `)`.
pub open spec fn call(s: Seq<u8>) -> Parsed<ExprModel>
    decreases s.len(), 12nat,
{
    match ident_len(s) {
        None => Err(0),
        Some(n) => {
            let pos1 = ws(s, n);
            if !at(s, pos1, one('(')) {
                Err(pos1)
            } else {
                let pos2 = ws(s, pos1 + 1);
                let (arg, pos3) = match expr(rest(s, pos2)) {
                    Ok((e, m)) => (Some(Box::new(e)), pos2 + m),
                    Err(_) => (None, pos2),
                };
                let pos4 = ws(s, pos3);
                if at(s, pos4, one(')')) {
                    Ok((ExprModel::Call(s.take(n as int), arg), pos4 + 1))
                } else {
                    Err(pos4)
                }
            }
        },
    }
}

/// An expression in parentheses.
pub open spec fn paren(s: Seq<u8>) -> Parsed<ExprModel>
    decreases s.len(), 11nat,
{
    if !at(s, 0, one('(')) {
        Err(0)
    } else {
        let pos1 = ws(s, 1);
        match expr(rest(s, pos1)) {
            Err(a) => Err(pos1 + a),
            Ok((e, n)) => {
                let pos2 = ws(s, pos1 + n);
                if at(s, pos2, one(')')) {
                    Ok((e, pos2 + 1))
                } else {
                    Err(pos2)
                }
            },
        }
    }
}

/// An expression as a statement.
#[verifier::opaque]
pub open spec fn expr_cmd(s: Seq<u8>) -> Parsed<CmdModel> {
    match expr(s) {
        Ok((e, n)) => Ok((CmdModel::Expr(e), n)),
        Err(a) => Err(a),
    }
}

/// A declaration: `var`, white space, an identifier.
#[verifier::opaque]
pub open spec fn decl(s: Seq<u8>) -> Parsed<CmdModel> {
    if !at(s, 0, kw_var()) {
        Err(0)
    } else if space_run(rest(s, 3)) == 0 {
        Err(3)
    } else {
        let p = ws(s, 3);
        match ident_len(rest(s, p)) {
            Some(n) => Ok((CmdModel::Decl(rest(s, p).take(n as int)), p + n)),
            None => Err(p),
        }
    }
}

/// An assignment: an expression, `=`, an expression. Any expression may
/// stand on the left.
#[verifier::opaque]
pub open spec fn assign(s: Seq<u8>) -> Parsed<CmdModel> {
    match expr(s) {
        Err(a) => Err(a),
        Ok((target, n)) => {
            let pos1 = ws(s, n);
            if !at(s, pos1, one('=')) {
                Err(pos1)
            } else {
                let pos2 = ws(s, pos1 + 1);
                match expr(rest(s, pos2)) {
                    Ok((value, m)) => Ok((CmdModel::Assign(target, value), pos2 + m)),
                    Err(a) => Err(pos2 + a),
                }
            }
        },
    }
}

/// A simple statement: a declaration, an assignment or an expression, tried
/// in this order.
#[verifier::opaque]
pub open spec fn single_cmd(s: Seq<u8>) -> Parsed<CmdModel> {
    match decl(s) {
        Ok(r) => Ok(r),
        Err(_) => match assign(s) {
            Ok(r) => Ok(r),
            Err(_) => expr_cmd(s),
        },
    }
}

/// The offset after the word `word` where white space and then `word` stand
/// in `s` at offset `p`; else `p`.
#[verifier::opaque]
pub open spec fn opt_word(s: Seq<u8>, p: nat, word: Seq<u8>) -> nat {
    if space_run(rest(s, p)) > 0 && at(s, ws(s, p), word) {
        ws(s, p) + word.len()
    } else {
        p
    }
}

/// What `if` and `while` share: the keyword `kw`, white space, a condition,
/// the word `word` if it is there, and a command in braces.
pub open spec fn guarded(s: Seq<u8>, kw: Seq<u8>, word: Seq<u8>) -> Parsed<(ExprModel, CmdModel)>
    decreases s.len(), 1nat,
{
    if !at(s, 0, kw) {
        Err(0)
    } else if space_run(rest(s, kw.len())) == 0 {
        Err(kw.len())
    } else {
        let pos1 = ws(s, kw.len());
        match expr(rest(s, pos1)) {
            Err(a) => Err(pos1 + a),
            Ok((cond, n)) => {
                let pos2 = ws(s, opt_word(s, pos1 + n, word));
                if !at(s, pos2, one('{')) {
                    Err(pos2)
                } else {
                    let pos3 = ws(s, pos2 + 1);
                    match cmd(rest(s, pos3)) {
                        Err(a) => Err(pos3 + a),
                        Ok((body, m)) => {
                            let pos4 = ws(s, pos3 + m);
                            if at(s, pos4, one('}')) {
                                Ok(((cond, body), pos4 + 1))
                            } else {
                                Err(pos4)
                            }
                        },
                    }
                }
            },
        }
    }
}

/// The `else` branch that stands in `s` at offset `p`: `else` and a command
/// in braces, with the offset after it. `None` where any of it is missing.
pub open spec fn else_branch(s: Seq<u8>, p: nat) -> Option<(CmdModel, nat)>
    decreases s.len(), 1nat,
{
    let pos1 = ws(s, p);
    if !at(s, pos1, kw_else()) {
        None
    } else {
        let pos2 = ws(s, pos1 + 4);
        if !at(s, pos2, one('{')) {
            None
        } else {
            let pos3 = ws(s, pos2 + 1);
            match cmd(rest(s, pos3)) {
                Err(_) => None,
                Ok((body, m)) => {
                    let pos4 = ws(s, pos3 + m);
                    if at(s, pos4, one('}')) {
                        Some((body, pos4 + 1))
                    } else {
                        None
                    }
                },
            }
        }
    }
}

/// A conditional: `if`, a condition, `then` if it is there, the first branch
/// in braces and, where it follows, `else` and the second branch in braces.
/// Without an `else` branch the second branch is the empty sequence.
pub open spec fn if_cmd(s: Seq<u8>) -> Parsed<CmdModel>
    decreases s.len(), 2nat,
{
    match guarded(s, kw_if(), kw_then()) {
        Err(a) => Err(a),
        Ok(((cond, first), n)) => match else_branch(s, n) {
            Some((second, m)) => Ok((CmdModel::If(cond, Box::new(first), Box::new(second)), m)),
            None => Ok(
                (
                    CmdModel::If(
                        cond,
                        Box::new(first),
                        Box::new(CmdModel::Sequence(Seq::empty())),
                    ),
                    n,
                ),
            ),
        },
    }
}

/// A loop: `while`, a condition, `do` if it is there, and the body in
/// braces.
pub open spec fn while_cmd(s: Seq<u8>) -> Parsed<CmdModel>
    decreases s.len(), 2nat,
{
    match guarded(s, kw_while(), kw_do()) {
        Err(a) => Err(a),
        Ok(((cond, body), n)) => Ok((CmdModel::While(cond, Box::new(body)), n)),
    }
}

/// A block statement: a conditional or a loop, tried in this order.
pub open spec fn block_cmd(s: Seq<u8>) -> Parsed<CmdModel>
    decreases s.len(), 3nat,
{
    match if_cmd(s) {
        Ok(r) => Ok(r),
        Err(_) => while_cmd(s),
    }
}

/// A statement that another may follow: white space, then a simple statement
/// and `;`, or else a block statement and `;` if it is there.
pub open spec fn item(s: Seq<u8>) -> Parsed<CmdModel>
    decreases s.len(), 4nat,
{
    let p = ws(s, 0);
    let simple = single_cmd(rest(s, p));
    if simple is Ok && at(s, ws(s, p + used(simple)), one(';')) {
        Ok((simple->Ok_0.0, ws(s, p + used(simple)) + 1))
    } else {
        match block_cmd(rest(s, p)) {
            Err(a) => Err(p + a),
            Ok((c, n)) => {
                let q = ws(s, p + n);
                if at(s, q, one(';')) {
                    Ok((c, q + 1))
                } else {
                    Ok((c, p + n))
                }
            },
        }
    }
}

/// Statements that others may follow, as many as parse. It fails only where
/// a statement parses without using a byte.
pub open spec fn items(s: Seq<u8>) -> Parsed<Seq<CmdModel>>
    decreases s.len(), 5nat,
{
    match item(s) {
        Err(_) => Ok((Seq::empty(), 0)),
        Ok((c, n)) => if rest(s, n).len() == s.len() {
            Err(0)
        } else {
            match items(rest(s, n)) {
                Ok((cs, m)) => Ok((seq![c] + cs, n + m)),
                Err(a) => Err(n + a),
            }
        },
    }
}

/// A command: statements that others may follow and, where it is there, a
/// last simple statement without its `;`.
pub open spec fn cmd(s: Seq<u8>) -> Parsed<CmdModel>
    decreases s.len(), 6nat,
{
    match items(s) {
        Err(a) => Err(a),
        Ok((cs, n)) => match single_cmd(rest(s, ws(s, n))) {
            Ok((c, m)) => Ok((CmdModel::Sequence(cs.push(c)), ws(s, n) + m)),
            Err(_) => Ok((CmdModel::Sequence(cs), n)),
        },
    }
}

/// A program: a command and white space, to the end of the text.
pub open spec fn program(s: Seq<u8>) -> Result<CmdModel, nat> {
    match cmd(s) {
        Err(a) => Err(a),
        Ok((c, n)) => if ws(s, n) == s.len() {
            Ok(c)
        } else {
            Err(ws(s, n))
        },
    }
}

/// A block statement that parses uses a byte at least, and no more than
/// there are.
pub proof fn lemma_block_progress(s: Seq<u8>)
    ensures
        block_cmd(s) matches Ok((_, n)) ==> 1 <= n <= s.len(),
{
}

/// A statement that another may follow, where it parses, uses a byte at
/// least, and no more than there are.
pub proof fn lemma_item_progress(s: Seq<u8>)
    ensures
        item(s) matches Ok((_, n)) ==> 1 <= n <= s.len(),
{
    let p = ws(s, 0);
    lemma_run_len(rest(s, 0), |b: u8| is_space(b));
    lemma_block_progress(rest(s, p));
}

/// Statements that others may follow never fail to parse: at worst there
/// are none.
pub proof fn lemma_items_parse(s: Seq<u8>)
    ensures
        items(s) is Ok,
    decreases s.len(),
{
    match item(s) {
        Ok((_, n)) => {
            lemma_item_progress(s);
            lemma_items_parse(rest(s, n));
        },
        Err(_) => {},
    }
}

/// A command never fails to parse: at worst it is the empty sequence and
/// uses no byte.
pub proof fn lemma_cmd_parses(s: Seq<u8>)
    ensures
        cmd(s) is Ok,
{
    lemma_items_parse(s);
}

} // verus!
