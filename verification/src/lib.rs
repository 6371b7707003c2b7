//! A small imperative language with integers, variables, loops and a heap
//! that its programs allocate from and free by hand.
//!
//! - `lex`, `grammar` and `parser` turn text into trees: `grammar` says what
//!   each piece of text means, `parser` does the work and is proved to do
//!   what `grammar` says.
//! - `ast` holds the trees, `arith` what the operators compute, `env` the
//!   variables and `mem` the heap.
//! - `meaning` says what a program does from start to end. `interp` computes
//!   it by walking the tree, for a program whose input is at hand.
//! - `semantics` says the same one step at a time, and `machine` takes the
//!   steps, for a program that reads and writes as it goes. `meaning` holds
//!   the proof that both come to the same.
//! - `text` is what a program writes, as bytes.

pub mod arith;
pub mod ast;
pub mod env;
pub mod error;
pub mod grammar;
pub mod interp;
pub mod lex;
pub mod machine;
pub mod meaning;
pub mod mem;
pub mod parser;
pub mod semantics;
pub mod text;

pub use ast::{BinOp, Cmd, CmdModel, Expr, ExprModel, UnOp};
pub use env::Env;
pub use error::{EvalError, ParseError};
pub use interp::Console;
pub use lex::identifier;
pub use machine::Machine;
pub use meaning::Ending;
pub use mem::Mem;
pub use parser::{
    parse, parse_and_binop, parse_assign, parse_block_cmd, parse_call, parse_cmd, parse_cmp_binop,
    parse_decl, parse_expr, parse_expr_cmd, parse_higher_binop, parse_higher_unop, parse_ident,
    parse_if, parse_lower_binop, parse_lower_unop, parse_not_unop, parse_or_binop, parse_pow,
    parse_single_cmd, parse_single_expr, parse_uint, parse_while,
};
pub use semantics::{Action, Builtin};
