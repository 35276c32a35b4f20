//! A compilation unit, which owns a source text and its diagnostics, and
//! runs the scanner and the parser on it.

use vstd::prelude::*;

use crate::ast::Ast;
use crate::error::Error;
use crate::grammar::{program_ok, program_rel};
use crate::lexical::{all_diags, extends, stream};
use crate::parser::{ParseError, Parser};
use crate::scanner::{scannable, Scanner};

verus! {

/// A compilation unit: its name, its text, and the diagnostics raised on it.
pub struct Compiler {
    pub input: String,
    pub output: Option<String>,
    pub contents: String,
    pub ast: Option<Box<Ast>>,
    pub context: Vec<()>,
    pub errors: Vec<Error>,
}

impl Compiler {
    /// A unit named `source` whose text is `contents`.
    pub fn new_using_str(source: String, contents: String) -> (r: Self)
        ensures
            r.input == source,
            r.output is None,
            r.contents == contents,
            r.ast is None,
            r.context@.len() == 0,
            r.errors@.len() == 0,
    {
        Compiler { input: source, output: None, contents, ast: None, context: Vec::new(), errors: Vec::new() }
    }

    /// A unit named `source` that starts from an already parsed tree.
    pub fn new_using_ast(source: String, ast: Box<Ast>) -> (r: Self)
        ensures
            r.input == source,
            r.output is None,
            r.contents@.len() == 0,
            r.ast == Some(ast),
            r.context@.len() == 0,
            r.errors@.len() == 0,
    {
        Compiler {
            input: source,
            output: None,
            contents: String::new(),
            ast: Some(ast),
            context: Vec::new(),
            errors: Vec::new(),
        }
    }

    /// Scans the whole unit, recording its diagnostics; succeeds when the
    /// unit has none. A text too long to scan is refused unread.
    pub fn compile(&mut self) -> (r: Result<(), String>)
        ensures
            final(self).input == old(self).input,
            final(self).output == old(self).output,
            final(self).contents == old(self).contents,
            final(self).ast == old(self).ast,
            !scannable(old(self).contents@.len()) ==> r is Err && final(self).errors == old(self).errors,
            scannable(old(self).contents@.len()) ==> extends(
                old(self).errors@,
                final(self).errors@,
                old(self).input@,
                old(self).contents@,
                all_diags(stream(old(self).contents@, 0)),
            ),
            scannable(old(self).contents@.len()) ==> (r is Ok <==> final(self).errors@.len() == 0),
    {
        let n = self.contents.as_str().unicode_len();
        if n >= usize::MAX - 8 {
            return Err(String::from_str("Source too long to scan"));
        }
        let mut unit = Compiler::new_using_str(String::new(), String::new());
        std::mem::swap(self, &mut unit);
        let mut scanner = Scanner::new(unit);
        let _tokens = scanner.scan();
        let mut unit = scanner.compiler;
        std::mem::swap(self, &mut unit);
        if self.errors.len() == 0 {
            Ok(())
        } else {
            Err(String::from_str("Compiler with errors"))
        }
    }

    /// Scans and parses the unit, keeping the tree on success: the
    /// statements that the grammar reads in the unit's tokens. The first
    /// parse error ends it. A text too long to scan is refused unread.
    pub fn interpret(&mut self) -> (r: Result<(), Option<ParseError>>)
        ensures
            final(self).input == old(self).input,
            final(self).contents == old(self).contents,
            !scannable(old(self).contents@.len()) ==> r == Err::<(), Option<ParseError>>(None),
            scannable(old(self).contents@.len()) && program_ok(stream(old(self).contents@, 0), 0) ==> r is Ok,
            r is Ok ==> final(self).ast is Some && program_rel(
                stream(old(self).contents@, 0),
                0,
                final(self).ast->Some_0.nodes@,
            ),
            r is Err ==> final(self).ast == old(self).ast,
            old(self).errors@.len() <= final(self).errors@.len(),
            forall|k: int| 0 <= k < old(self).errors@.len() ==> #[trigger] final(self).errors@[k] == old(self).errors@[k],
    {
        let n = self.contents.as_str().unicode_len();
        if n >= usize::MAX - 8 {
            return Err(None);
        }
        let mut unit = Compiler::new_using_str(String::new(), String::new());
        std::mem::swap(self, &mut unit);
        let ghost e0 = unit.errors@;
        let mut parser = Parser::new(Scanner::new(unit));
        proof {
            let e1 = parser.scanner.compiler.errors@;
            assert forall|j: int| 0 <= j < e0.len() implies #[trigger] e1[j] == e0[j] by {
                assert(e1.subrange(0, e0.len() as int)[j] == e1[j]);
            }
        }
        let result = parser.parse_program();
        let mut unit = parser.scanner.compiler;
        std::mem::swap(self, &mut unit);
        match result {
            Ok(ast) => {
                self.ast = Some(Box::new(ast));
                Ok(())
            },
            Err(e) => Err(Some(e)),
        }
    }
}

/// An interpretation process on an already parsed tree.
pub struct Interpreter {
    pub input: String,
    pub ast: Option<Ast>,
    pub compiler: Compiler,
}

impl Interpreter {
    /// An interpreter of the tree `ast` of the unit named `source`.
    pub fn new(source: String, ast: Ast, compiler: Compiler) -> (r: Self)
        ensures
            r.input == source,
            r.ast == Some(ast),
            r.compiler == compiler,
    {
        Interpreter { input: source, ast: Some(ast), compiler }
    }

    /// Runs the tree. Nothing is evaluated yet, so this always succeeds.
    pub fn interpret(&mut self) -> (r: Result<(), String>)
        ensures
            r is Ok,
            *final(self) == *old(self),
    {
        Ok(())
    }
}

} // verus!
