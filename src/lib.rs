//! The front end of the Ruka language: a scanner that turns source text
//! into tokens, and a precedence-climbing parser that turns tokens into a
//! syntax tree. Each is proved against a model of its grammar.

pub mod ast;
pub mod compiler;
pub mod error;
pub mod grammar;
pub mod laws;
pub mod lexical;
pub mod parser;
pub mod position;
pub mod scanner;
pub mod token;
pub mod utility;

pub use crate::ast::{Ast, Binding, Block, Case, Closure, Expression, Fn, FnCall, If, Infix, Match, Node, Postfix, Prefix, Type};
pub use crate::compiler::{Compiler, Interpreter};
pub use crate::error::{CompileError, Error, ScanError};
pub use crate::parser::{ParseError, Parser, Precedence};
pub use crate::position::Position;
pub use crate::scanner::Scanner;
pub use crate::token::{Keyword, Mode, Token, TokenType};
pub use crate::utility::{is_alphabetical, is_alphanumeric, is_integral, is_numeric, try_escape_char};
