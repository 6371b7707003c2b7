//! The syntax trees of expressions and commands, and what each stands for in
//! contracts.

use vstd::prelude::*;

verus! {

/// The prefix operators.
#[derive(Clone, Copy, Debug, PartialEq, Eq, Structural)]
pub enum UnOp {
    /// `+`: the operand itself.
    Plus,
    /// `-`: the operand negated.
    Minus,
    /// `*`: the heap cell that the operand points to.
    Deref,
    /// `!`: 1 if the operand is 0, else 0.
    Not,
}

/// The infix operators.
#[derive(Clone, Copy, Debug, PartialEq, Eq, Structural)]
pub enum BinOp {
    /// `+`
    Add,
    /// `-`
    Sub,
    /// `*`
    Mul,
    /// `/`: division, rounded towards zero.
    Div,
    /// `%`: what division leaves.
    Rem,
    /// `^`: the left operand to the power of the right.
    Pow,
    /// `>`
    Gt,
    /// `>=`
    Ge,
    /// `<`
    Lt,
    /// `<=`
    Le,
    /// `==`
    Eq,
    /// `!=`
    Ne,
    /// `&&`: 1 if neither operand is 0, else 0. Both are evaluated.
    And,
    /// `||`: 1 if either operand is not 0, else 0. Both are evaluated.
    Or,
}

/// An expression. Names are the bytes of the source text that spell them.
#[derive(Debug)]
pub enum Expr<'a> {
    /// An infix operator with its left and its right operand.
    BinOp(BinOp, Box<Expr<'a>>, Box<Expr<'a>>),
    /// A prefix operator with its operand.
    UnOp(UnOp, Box<Expr<'a>>),
    /// A call of the function of this name, with its argument if it has one.
    Call(&'a [u8], Option<Box<Expr<'a>>>),
    /// A variable.
    Ident(&'a [u8]),
    /// A literal.
    Int(i128),
}

/// A command.
#[derive(Debug)]
pub enum Cmd<'a> {
    /// An expression, evaluated for what it does; its value is dropped.
    Expr(Box<Expr<'a>>),
    /// `var x`: binds the variable to 0.
    Decl(&'a [u8]),
    /// `target = value`. The target must be a variable or a dereference when
    /// the assignment is executed; the tree may hold any expression.
    Assign(Box<Expr<'a>>, Box<Expr<'a>>),
    /// Commands to be executed one after the other.
    Sequence(Vec<Box<Cmd<'a>>>),
    /// A condition, the command for when its value is not 0, and the command
    /// for when it is.
    If(Box<Expr<'a>>, Box<Cmd<'a>>, Box<Cmd<'a>>),
    /// A condition and the command to be repeated while its value is not 0.
    While(Box<Expr<'a>>, Box<Cmd<'a>>),
}

/// An expression as a mathematical value: names are sequences of bytes.
pub enum ExprModel {
    BinOp(BinOp, Box<ExprModel>, Box<ExprModel>),
    UnOp(UnOp, Box<ExprModel>),
    Call(Seq<u8>, Option<Box<ExprModel>>),
    Ident(Seq<u8>),
    Int(i128),
}

/// A command as a mathematical value.
pub enum CmdModel {
    Expr(ExprModel),
    Decl(Seq<u8>),
    Assign(ExprModel, ExprModel),
    Sequence(Seq<CmdModel>),
    If(ExprModel, Box<CmdModel>, Box<CmdModel>),
    While(ExprModel, Box<CmdModel>),
}

impl<'a> Expr<'a> {
    /// The expression as a mathematical value.
    pub open spec fn model(&self) -> ExprModel
        decreases self,
    {
        match self {
            Expr::BinOp(op, l, r) => ExprModel::BinOp(*op, Box::new(l.model()), Box::new(r.model())),
            Expr::UnOp(op, e) => ExprModel::UnOp(*op, Box::new(e.model())),
            Expr::Call(f, Some(e)) => ExprModel::Call(f@, Some(Box::new(e.model()))),
            Expr::Call(f, None) => ExprModel::Call(f@, None),
            Expr::Ident(x) => ExprModel::Ident(x@),
            Expr::Int(i) => ExprModel::Int(*i),
        }
    }
}

impl<'a> View for Expr<'a> {
    type V = ExprModel;

    open spec fn view(&self) -> ExprModel {
        self.model()
    }
}

impl<'a> Cmd<'a> {
    /// The command as a mathematical value.
    pub open spec fn model(&self) -> CmdModel
        decreases self,
    {
        match self {
            Cmd::Expr(e) => CmdModel::Expr(e.model()),
            Cmd::Decl(x) => CmdModel::Decl(x@),
            Cmd::Assign(t, v) => CmdModel::Assign(t.model(), v.model()),
            Cmd::Sequence(cs) => CmdModel::Sequence(
                Seq::new(
                    cs@.len(),
                    |i: int|
                        if 0 <= i < cs@.len() {
                            cs@[i].model()
                        } else {
                            CmdModel::Sequence(Seq::empty())
                        },
                ),
            ),
            Cmd::If(c, t, e) => CmdModel::If(c.model(), Box::new(t.model()), Box::new(e.model())),
            Cmd::While(c, b) => CmdModel::While(c.model(), Box::new(b.model())),
        }
    }
}

/// The commands of `cs` as mathematical values.
pub open spec fn models<'a>(cs: Seq<Box<Cmd<'a>>>) -> Seq<CmdModel> {
    Seq::new(cs.len(), |i: int| cs[i].model())
}

/// A sequence stands for the sequence of what its commands stand for.
pub proof fn lemma_sequence_model<'a>(cs: Vec<Box<Cmd<'a>>>)
    ensures
        Cmd::Sequence(cs).model() == CmdModel::Sequence(models(cs@)),
{
    assert(Cmd::Sequence(cs).model()->Sequence_0 =~= models(cs@));
}

impl<'a> View for Cmd<'a> {
    type V = CmdModel;

    open spec fn view(&self) -> CmdModel {
        self.model()
    }
}

} // verus!
