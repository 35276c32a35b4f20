//! A precedence-climbing parser over the scanner's tokens.

use vstd::prelude::*;

use crate::ast::{Ast, Binding, Block, Case, Expression, FnCall, If, Infix, Match, Node, Prefix};
use crate::grammar::{
    args_list, args_mark, args_tail_ok, atom_rel, case_start, cases_list, cases_mark, cases_ok, climb_ok,
    climb_rel, closer, expr_ok, expr_rel, fixed_kind, infix_ok, infix_rel, is_at, lemma_args_last,
    lemma_args_more, lemma_atom_token, lemma_cases_end, lemma_cases_more, lemma_climb_base, lemma_climb_step,
    lemma_expr_intro, lemma_expr_unique, lemma_if_intro, lemma_infix_unique, lemma_match_intro,
    lemma_prefix_rule_kind, lemma_prefix_unique, lemma_program_tail, lemma_skip_sep, lemma_stmt_unique,
    lemma_stmts_end, lemma_stmts_more, lx_at, mark, marks, node_mark, nodes_mark, opens_block, prec_at,
    prefix_ok, prefix_rel, program_ok, program_rel, skip_sep, split, split2, split3, stmt_ok, stmt_rel,
    stmt_start, stmts_list, stmts_ok,
};
use crate::laws::{lemma_eof_last, lemma_stream_step};
use crate::lexical::{at_pos, extends, kind_of, stream, token_from, Lexeme, Step};
use crate::error::{describe, report};
use crate::scanner::{same_unit, unit_grown, Scanner};
use crate::token::{Keyword, Token, TokenType};

verus! {

/// How tightly an operator binds, from loosest to tightest.
#[derive(Clone, Copy, Debug, PartialEq, Eq, Structural)]
pub enum Precedence {
    Lowest,
    Equals,
    LtGt,
    Sum,
    Product,
    Prefix,
    Call,
    Index,
}

/// The precedence of a token kind as an infix operator.
pub open spec fn precedence_of(k: TokenType) -> Precedence {
    match k {
        TokenType::Equal | TokenType::NotEqual => Precedence::Equals,
        TokenType::Lesser | TokenType::LesserEq | TokenType::Greater | TokenType::GreaterEq => Precedence::LtGt,
        TokenType::Plus | TokenType::Minus => Precedence::Sum,
        TokenType::Slash | TokenType::Asterisk => Precedence::Product,
        TokenType::LeftParen => Precedence::Call,
        TokenType::LeftBracket => Precedence::Index,
        _ => Precedence::Lowest,
    }
}

/// The place of a precedence in the order, counted from zero.
pub open spec fn rank(p: Precedence) -> nat {
    match p {
        Precedence::Lowest => 0,
        Precedence::Equals => 1,
        Precedence::LtGt => 2,
        Precedence::Sum => 3,
        Precedence::Product => 4,
        Precedence::Prefix => 5,
        Precedence::Call => 6,
        Precedence::Index => 7,
    }
}

/// Whether an expression can start with a token of kind `k`.
pub open spec fn has_prefix_rule(k: TokenType) -> bool {
    match k {
        TokenType::Tag(_) | TokenType::Integer(_) | TokenType::Float(_) => true,
        TokenType::Keyword(kw) => kw == Keyword::True || kw == Keyword::False || kw == Keyword::Do
            || kw == Keyword::If || kw == Keyword::Match,
        TokenType::Bang | TokenType::Minus | TokenType::Asterisk | TokenType::Ampersand => true,
        TokenType::LeftParen | TokenType::LeftSquirly => true,
        _ => false,
    }
}

/// The expression that a token of kind `k` makes on its own, for the
/// kinds that make one: names, literals, `true` and `false`.
pub open spec fn atom_of(k: TokenType) -> Option<Expression> {
    match k {
        TokenType::Tag(t) => Some(Expression::Tag(t)),
        TokenType::Integer(t) => Some(Expression::Integer(t)),
        TokenType::Float(t) => Some(Expression::Float(t)),
        TokenType::Keyword(Keyword::True) => Some(Expression::Boolean(true)),
        TokenType::Keyword(Keyword::False) => Some(Expression::Boolean(false)),
        _ => None,
    }
}

/// Whether `n` is a `let` or `const` binding.
pub open spec fn is_binding(n: Node) -> bool {
    n is Binding && starts_statement(n->Binding_0.kind)
}

/// Whether a statement can start with a token of kind `k`: `let` or `const`.
pub open spec fn starts_statement(k: TokenType) -> bool {
    k == TokenType::Keyword(Keyword::Let) || k == TokenType::Keyword(Keyword::Const)
}

/// What a token's kind says of what it holds: its precedence, and, for a
/// kind that carries no text, the kind itself.
proof fn lemma_kind(k: TokenType, x: Lexeme)
    requires
        kind_of(k, x),
    ensures
        precedence_of(k) == (match fixed_kind(x) {
            Some(t) => precedence_of(t),
            None => Precedence::Lowest,
        }),
        fixed_kind(x) is Some ==> k == fixed_kind(x)->0,
        !(k is Tag || k is Integer || k is Float || k is String || k is Regex) ==> fixed_kind(x) == Some(k),
        k is Eof <==> x == Lexeme::Fixed(TokenType::Eof),
{
}

/// A token that makes an expression on its own makes the one that
/// `atom_of` gives.
proof fn lemma_atom(t: Seq<(nat, Step)>, i: int, k: TokenType)
    requires
        kind_of(k, lx_at(t, i)),
        atom_of(k) is Some,
    ensures
        atom_rel(t, i, atom_of(k)->0),
        0 <= i < t.len(),
{
}

/// One more statement, starting where the ones before leave off past the
/// separators, extends what the program holds.
proof fn lemma_program_step(
    t: Seq<(nat, Step)>,
    i0: int,
    b0: Seq<int>,
    n0: Seq<Node>,
    st: int,
    n: Node,
    e: int,
)
    requires
        b0.len() == n0.len(),
        forall|q: int| 0 <= q < b0.len() ==> #[trigger] stmt_rel(t, stmt_start(t, i0, b0, q), n0[q], b0[q]),
        st == skip_sep(t, if b0.len() == 0 { i0 } else { b0.last() + 1 }),
        stmt_rel(t, st, n, e),
    ensures
        forall|q: int|
            0 <= q < b0.len() + 1 ==> #[trigger] stmt_rel(t, stmt_start(t, i0, b0.push(e), q), n0.push(n)[q], b0.push(e)[q]),
{
    assert forall|q: int| 0 <= q < b0.len() + 1 implies #[trigger] stmt_rel(
        t,
        stmt_start(t, i0, b0.push(e), q),
        n0.push(n)[q],
        b0.push(e)[q],
    ) by {
        if q < b0.len() {
            assert(stmt_start(t, i0, b0.push(e), q) == stmt_start(t, i0, b0, q));
        }
    }
}

/// A token whose text a tag could hold is a tag.
proof fn lemma_tag_kind(k: TokenType, x: Lexeme)
    requires
        kind_of(k, x),
    ensures
        (exists|name: String| kind_of(TokenType::Tag(name), x)) ==> k is Tag,
{
    if exists|name: String| kind_of(TokenType::Tag(name), x) {
        let name = choose|name: String| kind_of(TokenType::Tag(name), x);
        lemma_kind(k, x);
        lemma_kind(TokenType::Tag(name), x);
    }
}

/// A copy of a binary operator's kind.
fn binary_operator(k: &TokenType) -> (r: TokenType)
    requires
        rank(precedence_of(*k)) > 0,
        !(*k is LeftParen || *k is LeftBracket),
    ensures
        r == *k,
{
    match k {
        TokenType::Equal => TokenType::Equal,
        TokenType::NotEqual => TokenType::NotEqual,
        TokenType::Lesser => TokenType::Lesser,
        TokenType::LesserEq => TokenType::LesserEq,
        TokenType::Greater => TokenType::Greater,
        TokenType::GreaterEq => TokenType::GreaterEq,
        TokenType::Plus => TokenType::Plus,
        TokenType::Minus => TokenType::Minus,
        TokenType::Slash => TokenType::Slash,
        _ => TokenType::Asterisk,
    }
}

impl Precedence {
    /// The precedence of a token kind as an infix operator; `Lowest` for a
    /// kind that is none.
    pub fn from_token_type(kind: &TokenType) -> (r: Precedence)
        ensures
            r == precedence_of(*kind),
    {
        match kind {
            TokenType::Equal | TokenType::NotEqual => Precedence::Equals,
            TokenType::Lesser | TokenType::LesserEq | TokenType::Greater | TokenType::GreaterEq => Precedence::LtGt,
            TokenType::Plus | TokenType::Minus => Precedence::Sum,
            TokenType::Slash | TokenType::Asterisk => Precedence::Product,
            TokenType::LeftParen => Precedence::Call,
            TokenType::LeftBracket => Precedence::Index,
            _ => Precedence::Lowest,
        }
    }

    /// The place of the precedence in the order.
    pub fn rank(&self) -> (r: u8)
        ensures
            r as nat == rank(*self),
    {
        match self {
            Precedence::Lowest => 0,
            Precedence::Equals => 1,
            Precedence::LtGt => 2,
            Precedence::Sum => 3,
            Precedence::Product => 4,
            Precedence::Prefix => 5,
            Precedence::Call => 6,
            Precedence::Index => 7,
        }
    }
}

/// Why a unit could not be parsed.
#[derive(Debug, PartialEq)]
pub enum ParseError {
    /// A token other than the one the grammar asks for.
    Expected { expected: String, got: Token },
    /// A token that no expression starts with.
    NoPrefixRule(Token),
    /// A token that no statement starts with.
    UnsupportedStatement(Token),
}

/// Whether a token of kind `k` is not what the grammar asks for where it
/// names `what`: a tag, `=`, `)`, `]`, `=>`, `do` (or `{`), and the end of
/// a block, which only the end of the input lacks.
pub open spec fn mismatch(what: Seq<char>, k: TokenType) -> bool {
    ||| what == "tag"@ && !(k is Tag)
    ||| what == "="@ && !(k is Assign)
    ||| what == ")"@ && !(k is RightParen)
    ||| what == "]"@ && !(k is RightBracket)
    ||| what == "=>"@ && !(k is WideArrow)
    ||| what == "do"@ && !(k == TokenType::Keyword(Keyword::Do) || k is LeftSquirly)
    ||| (what == "}"@ || what == "end"@) && k is Eof
}

/// Whether the error names a token that breaks the grammar where it stands.
pub open spec fn justified(e: ParseError) -> bool {
    match e {
        ParseError::Expected { expected, got } => mismatch(expected@, got.kind),
        ParseError::NoPrefixRule(t) => !has_prefix_rule(t.kind),
        ParseError::UnsupportedStatement(t) => !starts_statement(t.kind),
    }
}

impl ParseError {
    /// The token the error names.
    pub open spec fn spec_token(&self) -> Token {
        match self {
            ParseError::Expected { got, .. } => *got,
            ParseError::NoPrefixRule(t) => *t,
            ParseError::UnsupportedStatement(t) => *t,
        }
    }

    /// What the error says of that token.
    pub open spec fn spec_message(&self) -> Seq<char> {
        match self {
            ParseError::Expected { expected, got } => "Expected "@ + expected@ + ", got: "@ + got.kind.spelling(),
            ParseError::NoPrefixRule(t) => "No prefix function for "@ + t.kind.spelling(),
            ParseError::UnsupportedStatement(_) => "Unsupported statement"@,
        }
    }

    /// The error as text: its kind, the unit, line and column of the token
    /// it names, then the message.
    pub fn to_string(&self) -> (r: String)
        ensures
            r@ == report(
                "Parsing error"@,
                self.spec_token().file@,
                self.spec_token().pos,
                self.spec_message(),
            ),
    {
        match self {
            ParseError::Expected { expected, got } => {
                let mut msg = String::from_str("Expected ");
                msg.append(expected.as_str());
                msg.append(", got: ");
                msg.append(got.kind.to_str());
                describe("Parsing error", got.file.as_str(), got.pos, msg.as_str())
            },
            ParseError::NoPrefixRule(t) => {
                let mut msg = String::from_str("No prefix function for ");
                msg.append(t.kind.to_str());
                describe("Parsing error", t.file.as_str(), t.pos, msg.as_str())
            },
            ParseError::UnsupportedStatement(t) => {
                describe("Parsing error", t.file.as_str(), t.pos, "Unsupported statement")
            },
        }
    }
}

/// Builds the tree of a unit from its tokens, looking at two at a time.
pub struct Parser {
    pub scanner: Scanner,
    pub read: Token,
    pub peek: Token,
    /// The tokens that the scanner reads from where the parser started.
    pub tokens: Ghost<Seq<(nat, Step)>>,
    /// The index among them of the current token.
    pub at: Ghost<int>,
}

impl Parser {
    /// The parser's invariant: its scanner's.
    pub open spec fn wf(&self) -> bool {
        self.scanner.wf()
    }

    /// Whether the current token and the one after are those at `at` and
    /// after it among `tokens`, and the scanner reads on from there.
    pub open spec fn tracks(&self) -> bool {
        &&& self.scanner.wf()
        &&& 0 <= self.at@
        &&& forall|k: int|
            0 <= k < self.tokens@.len() - 1 ==> #[trigger] self.tokens@[k].1.lexeme != Lexeme::Fixed(TokenType::Eof)
        &&& kind_of(self.read.kind, lx_at(self.tokens@, self.at@))
        &&& kind_of(self.peek.kind, lx_at(self.tokens@, self.at@ + 1))
        &&& forall|k: int|
            k >= 0 ==> #[trigger] lx_at(stream(self.scanner.text(), self.scanner.read as nat), k) == lx_at(
                self.tokens@,
                self.at@ + 2 + k,
            )
    }

    /// What is left to parse: twice the characters not yet scanned, and one
    /// for each of the two tokens at hand that is not `Eof`.
    pub open spec fn measure(&self) -> nat {
        (2 * (self.scanner.text().len() + 2 - self.scanner.read) + (if self.read.kind is Eof {
            0int
        } else {
            1int
        }) + (if self.peek.kind is Eof {
            0int
        } else {
            1int
        })) as nat
    }

    /// Creates a parser on the first two tokens of the scanner; it follows
    /// the tokens that the scanner reads from where it stands.
    pub fn new(scanner: Scanner) -> (r: Self)
        requires
            scanner.wf(),
        ensures
            r.wf(),
            r.scanner.text() == scanner.text(),
            same_unit(&r.scanner.compiler, &scanner.compiler),
            r.tracks(),
            r.tokens@ == stream(scanner.text(), scanner.read as nat),
            r.at@ == 0,
            ({
                let s = scanner.text();
                let first = token_from(s, scanner.read as nat);
                let second = token_from(s, first.1.end);
                &&& kind_of(r.read.kind, first.1.lexeme)
                &&& at_pos(r.read.pos, s, first.0)
                &&& r.read.file == scanner.compiler.input
                &&& kind_of(r.peek.kind, second.1.lexeme)
                &&& at_pos(r.peek.pos, s, second.0)
                &&& r.peek.file == scanner.compiler.input
                &&& r.scanner.read == second.1.end
                &&& extends(
                    scanner.compiler.errors@,
                    r.scanner.compiler.errors@,
                    scanner.compiler.input@,
                    s,
                    first.1.diags + second.1.diags,
                )
            }),
    {
        let mut scanner = scanner;
        let ghost s = scanner.text();
        let ghost r0 = scanner.read as nat;
        let ghost e0 = scanner.compiler.errors@;
        let read = scanner.next_token();
        let ghost r1 = scanner.read as nat;
        let ghost e1 = scanner.compiler.errors@;
        let peek = scanner.next_token();
        proof {
            crate::scanner::lemma_extends_chain(
                e0,
                e1,
                scanner.compiler.errors@,
                scanner.compiler.input@,
                s,
                token_from(s, r0).1.diags,
                token_from(s, r1).1.diags,
            );
            lemma_eof_last(s, r0);
            lemma_stream_step(s, r0);
            lemma_stream_step(s, r1);
            assert(lx_at(stream(s, r0), 1) == lx_at(stream(s, r1), 0));
            assert forall|k: int| k >= 0 implies #[trigger] lx_at(stream(s, scanner.read as nat), k) == lx_at(
                stream(s, r0),
                2 + k,
            ) by {
                assert(lx_at(stream(s, r0), (k + 1) + 1) == lx_at(stream(s, r1), k + 1));
            }
        }
        Parser { scanner, read, peek, tokens: Ghost(stream(s, r0)), at: Ghost(0) }
    }

    // Moves `count` tokens on: the token after becomes the current one and
    // a new one is scanned after it.
    fn next_token(&mut self, count: usize)
        requires
            old(self).wf(),
        ensures
            final(self).wf(),
            final(self).scanner.text() == old(self).scanner.text(),
            unit_grown(&final(self).scanner.compiler, &old(self).scanner.compiler),
            final(self).measure() <= old(self).measure(),
            count >= 1 && !old(self).read.kind.spec_is_eof() ==> final(self).measure() < old(self).measure(),
            count == 1 ==> final(self).read == old(self).peek,
            final(self).tokens == old(self).tokens,
            old(self).tracks() ==> final(self).tracks() && final(self).at@ == old(self).at@ + count,
            !old(self).tracks() ==> final(self).at == old(self).at,
    {
        let mut k: usize = 0;
        while k < count
            invariant
                self.wf(),
                self.scanner.text() == old(self).scanner.text(),
                unit_grown(&self.scanner.compiler, &old(self).scanner.compiler),
                self.measure() <= old(self).measure(),
                k >= 1 && !old(self).read.kind.spec_is_eof() ==> self.measure() < old(self).measure(),
                k == 1 ==> self.read == old(self).peek,
                k == 0 ==> *self == *old(self),
                k <= count,
                self.tokens == old(self).tokens,
                old(self).tracks() ==> self.tracks() && self.at@ == old(self).at@ + k,
                !old(self).tracks() ==> self.at == old(self).at,
            decreases count - k,
        {
            let ghost s = self.scanner.text();
            let ghost r = self.scanner.read as nat;
            let ghost e0 = self.scanner.compiler.errors@;
            let mut t = self.scanner.next_token();
            proof {
                let e1 = self.scanner.compiler.errors@;
                assert forall|j: int| 0 <= j < e0.len() implies #[trigger] e1[j] == e0[j] by {
                    assert(e1.subrange(0, e0.len() as int)[j] == e1[j]);
                }
            }
            std::mem::swap(&mut self.peek, &mut t);
            self.read = t;
            proof {
                if old(self).tracks() {
                    lemma_stream_step(s, r);
                    let n = self.at@;
                    assert(lx_at(stream(s, r), 0) == lx_at(self.tokens@, n + 2));
                    self.at = Ghost(n + 1);
                    assert forall|j: int| j >= 0 implies #[trigger] lx_at(stream(s, self.scanner.read as nat), j)
                        == lx_at(self.tokens@, self.at@ + 2 + j) by {
                        assert(lx_at(stream(s, r), j + 1) == lx_at(self.tokens@, n + 2 + (j + 1)));
                    }
                }
            }
            k = k + 1;
        }
    }

    // Moves one token on past statement separators.
    fn skip_semicolon_newline(&mut self)
        requires
            old(self).tracks(),
            !old(self).read.kind.spec_is_eof(),
        ensures
            final(self).tracks(),
            final(self).tokens == old(self).tokens,
            final(self).at@ == (if is_at(old(self).tokens@, old(self).at@ + 1, TokenType::Newline) || is_at(
                old(self).tokens@,
                old(self).at@ + 1,
                TokenType::Semicolon,
            ) {
                old(self).at@ + 1
            } else {
                old(self).at@
            }),
            final(self).wf(),
            final(self).scanner.text() == old(self).scanner.text(),
            unit_grown(&final(self).scanner.compiler, &old(self).scanner.compiler),
            final(self).measure() <= old(self).measure(),
            !final(self).read.kind.spec_is_eof(),
    {
        proof {
            lemma_kind(self.peek.kind, lx_at(self.tokens@, self.at@ + 1));
        }
        match self.peek.kind {
            TokenType::Newline | TokenType::Semicolon => self.next_token(1),
            _ => {},
        }
    }

    // The error for a token other than the one expected after the current
    // one; the parse ends with it.
    fn expected(&mut self, what: &str) -> (r: ParseError)
        ensures
            r == (ParseError::Expected { expected: r->expected, got: old(self).peek }),
            r->expected@ == what@,
            *final(self) == *old(self),
    {
        ParseError::Expected { expected: String::from_str(what), got: self.peek.duplicate() }
    }

    // The name that the token after the current one holds, if it is a tag.
    fn parse_tag(&mut self) -> (r: Result<String, ParseError>)
        ensures
            match old(self).peek.kind {
                TokenType::Tag(name) => r == Ok::<String, ParseError>(name),
                _ => r is Err && r->Err_0 == (ParseError::Expected {
                    expected: r->Err_0->expected,
                    got: old(self).peek,
                }) && r->Err_0->expected@ == "tag"@,
            },
            *final(self) == *old(self),
            r is Err ==> justified(r->Err_0),
    {
        match &self.peek.kind {
            TokenType::Tag(name) => Ok(name.clone()),
            _ => Err(self.expected("tag")),
        }
    }

    // The error for a current token other than the one expected; the parse
    // ends with it.
    fn expected_here(&mut self, what: &str) -> (r: ParseError)
        ensures
            r == (ParseError::Expected { expected: r->expected, got: old(self).read }),
            r->expected@ == what@,
            *final(self) == *old(self),
    {
        ParseError::Expected { expected: String::from_str(what), got: self.read.duplicate() }
    }

    // An identifier.
    fn parse_expression_id(&mut self) -> (r: Result<Expression, ParseError>)
        requires
            old(self).read.kind is Tag,
        ensures
            r == Ok::<Expression, ParseError>(Expression::Tag(old(self).read.kind->Tag_0)),
            *final(self) == *old(self),
            r is Err ==> justified(r->Err_0),
    {
        match &self.read.kind {
            TokenType::Tag(name) => Ok(Expression::Tag(name.clone())),
            _ => Ok(Expression::Unit),
        }
    }

    // An integer literal.
    fn parse_expression_int(&mut self) -> (r: Result<Expression, ParseError>)
        requires
            old(self).read.kind is Integer,
        ensures
            r == Ok::<Expression, ParseError>(Expression::Integer(old(self).read.kind->Integer_0)),
            *final(self) == *old(self),
            r is Err ==> justified(r->Err_0),
    {
        match &self.read.kind {
            TokenType::Integer(i) => Ok(Expression::Integer(i.clone())),
            _ => Ok(Expression::Unit),
        }
    }

    // A float literal.
    fn parse_expression_float(&mut self) -> (r: Result<Expression, ParseError>)
        requires
            old(self).read.kind is Float,
        ensures
            r == Ok::<Expression, ParseError>(Expression::Float(old(self).read.kind->Float_0)),
            *final(self) == *old(self),
            r is Err ==> justified(r->Err_0),
    {
        match &self.read.kind {
            TokenType::Float(f) => Ok(Expression::Float(f.clone())),
            _ => Ok(Expression::Unit),
        }
    }

    // `true` or `false`.
    fn parse_expression_bool(&mut self) -> (r: Result<Expression, ParseError>)
        requires
            old(self).read.kind == TokenType::Keyword(Keyword::True) || old(self).read.kind == TokenType::Keyword(
                Keyword::False,
            ),
        ensures
            r == Ok::<Expression, ParseError>(
                Expression::Boolean(old(self).read.kind == TokenType::Keyword(Keyword::True)),
            ),
            *final(self) == *old(self),
            r is Err ==> justified(r->Err_0),
    {
        Ok(Expression::Boolean(matches!(self.read.kind, TokenType::Keyword(Keyword::True))))
    }

    // A prefix operator and its operand.
    fn parse_expression_prefix(&mut self) -> (r: Result<Expression, ParseError>)
        requires
            old(self).tracks(),
            old(self).read.kind is Bang || old(self).read.kind is Minus || old(self).read.kind is Asterisk
                || old(self).read.kind is Ampersand,
        ensures
            final(self).wf(),
            final(self).scanner.text() == old(self).scanner.text(),
            unit_grown(&final(self).scanner.compiler, &old(self).scanner.compiler),
            final(self).measure() <= old(self).measure(),
            final(self).tokens == old(self).tokens,
            r is Ok ==> final(self).tracks() && final(self).at@ >= old(self).at@,
            r is Ok ==> !final(self).read.kind.spec_is_eof(),
            r is Ok ==> r->Ok_0 is Prefix && r->Ok_0->Prefix_0.operator == old(self).read.kind,
            r is Ok ==> prefix_rel(old(self).tokens@, old(self).at@, r->Ok_0, final(self).at@),
            r is Err ==> justified(r->Err_0),
            prefix_ok(old(self).tokens@, old(self).at@) ==> r is Ok,
        decreases old(self).measure(), 0nat,
    {
        let ghost t = self.tokens@;
        let ghost i = self.at@;
        let ghost w = choose|e: Expression, m: int| #[trigger] split(e, m) && prefix_rel(t, i, e, m);
        proof {
            lemma_kind(self.read.kind, lx_at(self.tokens@, self.at@));
            lemma_atom_token(t, i, w.0);
            if prefix_ok(t, i) {
                assert(prefix_rel(t, i, w.0, w.1));
                assert(split(w.0->Prefix_0.value, w.1));
                assert(expr_ok(t, i + 1, Precedence::Prefix));
            }
        }
        let operator = match self.read.kind {
            TokenType::Bang => TokenType::Bang,
            TokenType::Minus => TokenType::Minus,
            TokenType::Asterisk => TokenType::Asterisk,
            _ => TokenType::Ampersand,
        };
        self.next_token(1);
        let value = match self.parse_expression(Precedence::Prefix) {
            Ok(v) => v,
            Err(e) => {
                return Err(e);
            },
        };
        Ok(Expression::Prefix(Box::new(Prefix { operator, value })))
    }

    // A parenthesised expression; `()` is the unit value.
    fn parse_expression_group(&mut self) -> (r: Result<Expression, ParseError>)
        requires
            old(self).tracks(),
            old(self).read.kind is LeftParen,
        ensures
            final(self).wf(),
            final(self).scanner.text() == old(self).scanner.text(),
            unit_grown(&final(self).scanner.compiler, &old(self).scanner.compiler),
            final(self).measure() <= old(self).measure(),
            final(self).tokens == old(self).tokens,
            r is Ok ==> final(self).tracks() && final(self).at@ >= old(self).at@,
            r is Ok ==> final(self).read.kind is RightParen,
            r is Ok ==> prefix_rel(old(self).tokens@, old(self).at@, r->Ok_0, final(self).at@),
            r is Err ==> justified(r->Err_0),
            prefix_ok(old(self).tokens@, old(self).at@) ==> r is Ok,
        decreases old(self).measure(), 0nat,
    {
        let ghost t = self.tokens@;
        let ghost i = self.at@;
        let ghost w = choose|e: Expression, m: int| #[trigger] split(e, m) && prefix_rel(t, i, e, m);
        proof {
            lemma_kind(self.read.kind, lx_at(self.tokens@, self.at@));
            lemma_kind(self.peek.kind, lx_at(self.tokens@, self.at@ + 1));
            lemma_atom_token(t, i, w.0);
        }
        if matches!(self.peek.kind, TokenType::RightParen) {
            self.next_token(1);
            return Ok(Expression::Unit);
        }
        proof {
            if prefix_ok(t, i) {
                assert(prefix_rel(t, i, w.0, w.1));
                assert(split(w.0, w.1 - 1));
                assert(expr_ok(t, i + 1, Precedence::Lowest));
            }
        }
        self.next_token(1);
        let e = match self.parse_expression(Precedence::Lowest) {
            Ok(v) => v,
            Err(e) => {
                return Err(e);
            },
        };
        proof {
            lemma_kind(self.read.kind, lx_at(self.tokens@, self.at@));
            lemma_kind(self.peek.kind, lx_at(self.tokens@, self.at@ + 1));
            if prefix_ok(t, i) {
                lemma_expr_unique(t, i + 1, Precedence::Lowest, w.0, w.1 - 1, e, self.at@);
            }
        }
        if matches!(self.peek.kind, TokenType::RightParen) {
            self.next_token(1);
            Ok(e)
        } else {
            Err(self.expected(")"))
        }
    }

    // Moves past statement separators.
    fn skip_separators(&mut self)
        requires
            old(self).tracks(),
        ensures
            final(self).wf(),
            final(self).scanner.text() == old(self).scanner.text(),
            unit_grown(&final(self).scanner.compiler, &old(self).scanner.compiler),
            final(self).measure() <= old(self).measure(),
            final(self).tokens == old(self).tokens,
            final(self).tracks(),
            final(self).at@ >= old(self).at@,
            !(final(self).read.kind is Newline || final(self).read.kind is Semicolon),
            final(self).at@ == skip_sep(old(self).tokens@, old(self).at@),
            !(old(self).read.kind is Newline || old(self).read.kind is Semicolon) ==> *final(self) == *old(self),
    {
        while matches!(self.read.kind, TokenType::Newline | TokenType::Semicolon)
            invariant
                self.wf(),
                self.scanner.text() == old(self).scanner.text(),
                unit_grown(&self.scanner.compiler, &old(self).scanner.compiler),
                self.measure() <= old(self).measure(),
                self.tokens == old(self).tokens,
                self.tracks(),
                self.at@ >= old(self).at@,
                skip_sep(self.tokens@, self.at@) == skip_sep(old(self).tokens@, old(self).at@),
                !(old(self).read.kind is Newline || old(self).read.kind is Semicolon) ==> *self == *old(self),
            decreases self.measure(),
        {
            proof {
                lemma_kind(self.read.kind, lx_at(self.tokens@, self.at@));
            }
            self.next_token(1);
        }
    }

    // A block: statements between `do` and `end`, or between braces.
    fn parse_expression_block(&mut self) -> (r: Result<Expression, ParseError>)
        requires
            old(self).tracks(),
            old(self).read.kind == TokenType::Keyword(Keyword::Do) || old(self).read.kind is LeftSquirly,
        ensures
            final(self).wf(),
            final(self).scanner.text() == old(self).scanner.text(),
            unit_grown(&final(self).scanner.compiler, &old(self).scanner.compiler),
            final(self).measure() <= old(self).measure(),
            final(self).tokens == old(self).tokens,
            r is Ok ==> final(self).tracks() && final(self).at@ >= old(self).at@,
            r is Ok ==> !final(self).read.kind.spec_is_eof(),
            r is Ok ==> r->Ok_0 is Block,
            r is Ok ==> prefix_rel(old(self).tokens@, old(self).at@, r->Ok_0, final(self).at@),
            r is Err ==> justified(r->Err_0),
            prefix_ok(old(self).tokens@, old(self).at@) ==> r is Ok,
        decreases old(self).measure(), 0nat,
    {
        let ghost t = self.tokens@;
        let ghost i = self.at@;
        let ghost close = closer(t, i);
        let ghost ok = prefix_ok(t, i);
        let ghost w = choose|e: Expression, m: int| #[trigger] split(e, m) && prefix_rel(t, i, e, m);
        proof {
            lemma_kind(self.read.kind, lx_at(t, i));
            lemma_atom_token(t, i, w.0);
            if ok {
                assert(prefix_rel(t, i, w.0, w.1));
                assert(nodes_mark(w.0->Block_0.statements@, w.1));
                assert(stmts_ok(t, i + 1, close));
            }
        }
        let braces = matches!(self.read.kind, TokenType::LeftSquirly);
        let mut statements: Vec<Node> = Vec::new();
        self.next_token(1);
        let ghost mut cur: int = i + 1;
        proof {
            assert forall|rest: Seq<Node>, m2: int| #[trigger] stmts_list(t, cur, close, rest, m2) implies stmts_list(
                t,
                i + 1,
                close,
                statements@ + rest,
                m2,
            ) by {
                assert(statements@ + rest =~= rest);
            }
        }
        loop
            invariant_except_break
                cur == self.at@,
            invariant
                self.wf(),
                self.scanner.text() == old(self).scanner.text(),
                unit_grown(&self.scanner.compiler, &old(self).scanner.compiler),
                self.measure() < old(self).measure(),
                self.tokens == old(self).tokens,
                self.tracks(),
                self.at@ > old(self).at@,
                t == self.tokens@,
                i == old(self).at@,
                0 <= i < t.len(),
                close == closer(t, i),
                braces == is_at(t, i, TokenType::LeftSquirly),
                ok == prefix_ok(t, i),
                ok ==> stmts_ok(t, cur, close),
                forall|rest: Seq<Node>, m2: int|
                    #[trigger] stmts_list(t, cur, close, rest, m2) ==> stmts_list(t, i + 1, close, statements@ + rest, m2),
            ensures
                !self.read.kind.spec_is_eof(),
                stmts_list(t, i + 1, close, statements@, self.at@),
            decreases self.measure(),
        {
            proof {
                lemma_skip_sep(t, cur);
            }
            self.skip_separators();
            proof {
                lemma_kind(self.read.kind, lx_at(t, self.at@));
            }
            let closed = if braces {
                matches!(self.read.kind, TokenType::RightSquirly)
            } else {
                matches!(self.read.kind, TokenType::Keyword(Keyword::End))
            };
            if closed {
                proof {
                    lemma_stmts_end(t, cur, close, self.at@);
                    assert(statements@ + Seq::<Node>::empty() =~= statements@);
                }
                break;
            }
            let ghost sw = choose|n: Seq<Node>, m: int| #[trigger] nodes_mark(n, m) && stmts_list(t, cur, close, n, m);
            let ghost se = choose|e: int|
                #[trigger] mark(e) && skip_sep(t, cur) <= e <= t.len() && stmt_rel(t, skip_sep(t, cur), sw.0[0], e)
                    && stmts_list(t, e + 1, close, sw.0.drop_first(), sw.1);
            proof {
                if ok {
                    assert(stmts_list(t, cur, close, sw.0, sw.1));
                    assert(sw.0.len() > 0);
                    assert(stmt_rel(t, self.at@, sw.0[0], se));
                    assert(node_mark(sw.0[0], se));
                    assert(stmt_ok(t, self.at@));
                }
            }
            if self.read.kind.is_eof() {
                return Err(self.expected_here(if braces { "}" } else { "end" }));
            }
            let ghost k = self.at@;
            let ghost n0 = statements@;
            let stmt = match self.parse_statement() {
                Ok(v) => v,
                Err(e) => {
                    return Err(e);
                },
            };
            proof {
                lemma_kind(self.read.kind, lx_at(t, self.at@));
            }
            statements.push(stmt);
            let ghost e = self.at@;
            proof {
                if ok {
                    lemma_stmt_unique(t, k, sw.0[0], se, stmt, e);
                    assert(nodes_mark(sw.0.drop_first(), sw.1));
                }
            }
            self.next_token(1);
            proof {
                assert forall|rest: Seq<Node>, m2: int| #[trigger] stmts_list(t, e + 1, close, rest, m2) implies stmts_list(
                    t,
                    i + 1,
                    close,
                    statements@ + rest,
                    m2,
                ) by {
                    lemma_stmts_more(t, cur, close, stmt, e, rest, m2);
                    assert(n0 + (seq![stmt] + rest) =~= statements@ + rest);
                }
                cur = e + 1;
            }
        }
        Ok(Expression::Block(Block { statements }))
    }

    // `if`, a condition, a block, and optionally `else` and an expression.
    fn parse_expression_if(&mut self) -> (r: Result<Expression, ParseError>)
        requires
            old(self).tracks(),
            old(self).read.kind == TokenType::Keyword(Keyword::If),
        ensures
            final(self).wf(),
            final(self).scanner.text() == old(self).scanner.text(),
            unit_grown(&final(self).scanner.compiler, &old(self).scanner.compiler),
            final(self).measure() <= old(self).measure(),
            final(self).tokens == old(self).tokens,
            r is Ok ==> final(self).tracks() && final(self).at@ >= old(self).at@,
            r is Ok ==> !final(self).read.kind.spec_is_eof(),
            r is Ok ==> r->Ok_0 is If,
            r is Ok ==> prefix_rel(old(self).tokens@, old(self).at@, r->Ok_0, final(self).at@),
            r is Err ==> justified(r->Err_0),
            prefix_ok(old(self).tokens@, old(self).at@) ==> r is Ok,
        decreases old(self).measure(), 0nat,
    {
        let ghost t = self.tokens@;
        let ghost i = self.at@;
        let ghost ok = prefix_ok(t, i);
        let ghost w = choose|e: Expression, m: int| #[trigger] split(e, m) && prefix_rel(t, i, e, m);
        let ghost kk = choose|k1: int, k2: int|
            #[trigger] split2(k1, k2) && i + 1 <= k1 && k1 + 1 <= k2 && expr_rel(
                t,
                i + 1,
                Precedence::Lowest,
                w.0->If_0.condition,
                k1,
            ) && opens_block(t, k1 + 1) && prefix_rel(t, k1 + 1, w.0->If_0.consequence, k2) && if is_at(
                t,
                k2 + 1,
                TokenType::Keyword(Keyword::Else),
            ) {
                expr_rel(t, k2 + 2, Precedence::Lowest, w.0->If_0.alternative, w.1)
            } else {
                w.0->If_0.alternative == Expression::Unit && w.1 == k2
            };
        proof {
            lemma_kind(self.read.kind, lx_at(t, i));
            lemma_atom_token(t, i, w.0);
            if ok {
                assert(prefix_rel(t, i, w.0, w.1));
                assert(split(w.0->If_0.condition, kk.0));
                assert(expr_ok(t, i + 1, Precedence::Lowest));
            }
        }
        self.next_token(1);
        let condition = match self.parse_expression(Precedence::Lowest) {
            Ok(v) => v,
            Err(e) => {
                return Err(e);
            },
        };
        let ghost k1 = self.at@;
        proof {
            lemma_kind(self.peek.kind, lx_at(t, k1 + 1));
            if ok {
                lemma_expr_unique(t, i + 1, Precedence::Lowest, w.0->If_0.condition, kk.0, condition, k1);
                assert(split(w.0->If_0.consequence, kk.1));
                assert(prefix_ok(t, k1 + 1));
            }
        }
        if !matches!(self.peek.kind, TokenType::Keyword(Keyword::Do) | TokenType::LeftSquirly) {
            return Err(self.expected("do"));
        }
        self.next_token(1);
        let consequence = match self.parse_expression_block() {
            Ok(v) => v,
            Err(e) => {
                return Err(e);
            },
        };
        let ghost k2 = self.at@;
        proof {
            lemma_kind(self.peek.kind, lx_at(t, k2 + 1));
            if ok {
                lemma_prefix_unique(t, k1 + 1, w.0->If_0.consequence, kk.1, consequence, k2);
                if is_at(t, k2 + 1, TokenType::Keyword(Keyword::Else)) {
                    assert(split(w.0->If_0.alternative, w.1));
                    assert(expr_ok(t, k2 + 2, Precedence::Lowest));
                }
            }
        }
        let alternative = if matches!(self.peek.kind, TokenType::Keyword(Keyword::Else)) {
            self.next_token(2);
            match self.parse_expression(Precedence::Lowest) {
                Ok(v) => v,
                Err(e) => {
                    return Err(e);
                },
            }
        } else {
            Expression::Unit
        };
        let e = Expression::If(Box::new(If { condition, consequence, alternative }));
        proof {
            lemma_if_intro(t, i, e, k1, k2, self.at@);
        }
        Ok(e)
    }

    // `match`, a value, and cases `condition => consequence` between braces
    // or between `do` and `end`.
    #[verifier::rlimit(80)]
    fn parse_expression_match(&mut self) -> (r: Result<Expression, ParseError>)
        requires
            old(self).tracks(),
            old(self).read.kind == TokenType::Keyword(Keyword::Match),
        ensures
            final(self).wf(),
            final(self).scanner.text() == old(self).scanner.text(),
            unit_grown(&final(self).scanner.compiler, &old(self).scanner.compiler),
            final(self).measure() <= old(self).measure(),
            final(self).tokens == old(self).tokens,
            r is Ok ==> final(self).tracks() && final(self).at@ >= old(self).at@,
            r is Ok ==> !final(self).read.kind.spec_is_eof(),
            r is Ok ==> r->Ok_0 is Match,
            r is Ok ==> prefix_rel(old(self).tokens@, old(self).at@, r->Ok_0, final(self).at@),
            r is Err ==> justified(r->Err_0),
            prefix_ok(old(self).tokens@, old(self).at@) ==> r is Ok,
        decreases old(self).measure(), 0nat,
    {
        let ghost t = self.tokens@;
        let ghost i = self.at@;
        let ghost ok = prefix_ok(t, i);
        let ghost w = choose|e: Expression, m: int| #[trigger] split(e, m) && prefix_rel(t, i, e, m);
        let ghost kv = choose|k1: int|
            #[trigger] mark(k1) && i + 1 <= k1 && expr_rel(t, i + 1, Precedence::Lowest, w.0->Match_0.value, k1)
                && opens_block(t, k1 + 1) && cases_list(t, k1 + 2, closer(t, k1 + 1), w.0->Match_0.cases@, w.1);
        proof {
            lemma_kind(self.read.kind, lx_at(t, i));
            lemma_atom_token(t, i, w.0);
            if ok {
                assert(prefix_rel(t, i, w.0, w.1));
                assert(split(w.0->Match_0.value, kv));
                assert(expr_ok(t, i + 1, Precedence::Lowest));
            }
        }
        self.next_token(1);
        let value = match self.parse_expression(Precedence::Lowest) {
            Ok(v) => v,
            Err(e) => {
                return Err(e);
            },
        };
        let ghost k1 = self.at@;
        proof {
            lemma_kind(self.peek.kind, lx_at(t, k1 + 1));
            if ok {
                lemma_expr_unique(t, i + 1, Precedence::Lowest, w.0->Match_0.value, kv, value, k1);
                assert(cases_mark(w.0->Match_0.cases@, w.1));
                assert(cases_ok(t, k1 + 2, closer(t, k1 + 1)));
            }
        }
        if !matches!(self.peek.kind, TokenType::Keyword(Keyword::Do) | TokenType::LeftSquirly) {
            return Err(self.expected("do"));
        }
        self.next_token(1);
        let braces = matches!(self.read.kind, TokenType::LeftSquirly);
        let ghost close = closer(t, k1 + 1);
        let mut cases: Vec<Case> = Vec::new();
        self.next_token(1);
        let ghost mut cur: int = k1 + 2;
        proof {
            assert forall|rest: Seq<Case>, m2: int| #[trigger] cases_list(t, cur, close, rest, m2) implies cases_list(
                t,
                k1 + 2,
                close,
                cases@ + rest,
                m2,
            ) by {
                assert(cases@ + rest =~= rest);
            }
        }
        loop
            invariant_except_break
                cur == self.at@,
            invariant
                self.wf(),
                self.scanner.text() == old(self).scanner.text(),
                unit_grown(&self.scanner.compiler, &old(self).scanner.compiler),
                self.measure() < old(self).measure(),
                self.tokens == old(self).tokens,
                self.tracks(),
                self.at@ > old(self).at@,
                t == self.tokens@,
                i == old(self).at@,
                i + 1 <= k1,
                close == closer(t, k1 + 1),
                braces == is_at(t, k1 + 1, TokenType::LeftSquirly),
                ok == prefix_ok(t, i),
                ok ==> cases_ok(t, cur, close),
                forall|rest: Seq<Case>, m2: int|
                    #[trigger] cases_list(t, cur, close, rest, m2) ==> cases_list(t, k1 + 2, close, cases@ + rest, m2),
            ensures
                !self.read.kind.spec_is_eof(),
                cases_list(t, k1 + 2, close, cases@, self.at@),
            decreases self.measure(),
        {
            proof {
                lemma_skip_sep(t, cur);
            }
            self.skip_separators();
            proof {
                lemma_kind(self.read.kind, lx_at(t, self.at@));
            }
            if matches!(self.read.kind, TokenType::Comma) {
                proof {
                    lemma_skip_sep(t, self.at@ + 1);
                }
                self.next_token(1);
                self.skip_separators();
            }
            proof {
                lemma_kind(self.read.kind, lx_at(t, self.at@));
                assert(self.at@ == case_start(t, cur));
            }
            let closed = if braces {
                matches!(self.read.kind, TokenType::RightSquirly)
            } else {
                matches!(self.read.kind, TokenType::Keyword(Keyword::End))
            };
            if closed {
                proof {
                    lemma_cases_end(t, cur, close, self.at@);
                    assert(cases@ + Seq::<Case>::empty() =~= cases@);
                }
                break;
            }
            let ghost c0 = cases@;
            let ghost cw = choose|c: Seq<Case>, m: int| #[trigger] cases_mark(c, m) && cases_list(t, cur, close, c, m);
            let ghost cd = choose|c: int, d: int|
                #[trigger] split2(c, d) && case_start(t, cur) <= c && c + 2 <= d <= t.len() && expr_rel(
                    t,
                    case_start(t, cur),
                    Precedence::Lowest,
                    cw.0[0].condition,
                    c,
                ) && is_at(t, c + 1, TokenType::WideArrow) && expr_rel(t, c + 2, Precedence::Lowest, cw.0[0].consequence, d)
                    && cases_list(t, d + 1, close, cw.0.drop_first(), cw.1);
            proof {
                if ok {
                    assert(cases_list(t, cur, close, cw.0, cw.1));
                    assert(cw.0.len() > 0);
                    assert(split(cw.0[0].condition, cd.0));
                    assert(expr_ok(t, self.at@, Precedence::Lowest));
                }
            }
            let condition = match self.parse_expression(Precedence::Lowest) {
                Ok(v) => v,
                Err(e) => {
                    return Err(e);
                },
            };
            let ghost c = self.at@;
            proof {
                lemma_kind(self.peek.kind, lx_at(t, c + 1));
                if ok {
                    lemma_expr_unique(t, case_start(t, cur), Precedence::Lowest, cw.0[0].condition, cd.0, condition, c);
                    assert(split(cw.0[0].consequence, cd.1));
                    assert(expr_ok(t, c + 2, Precedence::Lowest));
                }
            }
            if !matches!(self.peek.kind, TokenType::WideArrow) {
                return Err(self.expected("=>"));
            }
            self.next_token(2);
            let consequence = match self.parse_expression(Precedence::Lowest) {
                Ok(v) => v,
                Err(e) => {
                    return Err(e);
                },
            };
            let ghost d = self.at@;
            proof {
                lemma_kind(self.read.kind, lx_at(t, d));
                if ok {
                    lemma_expr_unique(t, c + 2, Precedence::Lowest, cw.0[0].consequence, cd.1, consequence, d);
                    assert(cases_mark(cw.0.drop_first(), cw.1));
                }
            }
            let case = Case { condition, consequence };
            cases.push(case);
            self.next_token(1);
            proof {
                assert forall|rest: Seq<Case>, m2: int| #[trigger] cases_list(t, d + 1, close, rest, m2) implies cases_list(
                    t,
                    k1 + 2,
                    close,
                    cases@ + rest,
                    m2,
                ) by {
                    lemma_cases_more(t, cur, close, case, c, d, rest, m2);
                    assert(c0 + (seq![case] + rest) =~= cases@ + rest);
                }
                cur = d + 1;
            }
        }
        let e = Expression::Match(Box::new(Match { value, cases }));
        proof {
            lemma_match_intro(t, i, e, k1, self.at@);
        }
        Ok(e)
    }

    // A binary operator, from the current token, and its right operand.
    fn parse_infix(&mut self, lhs: Expression) -> (r: Result<Expression, ParseError>)
        requires
            old(self).tracks(),
            !old(self).read.kind.spec_is_eof(),
            rank(precedence_of(old(self).read.kind)) > 0,
            !(old(self).read.kind is LeftParen || old(self).read.kind is LeftBracket),
        ensures
            final(self).wf(),
            final(self).scanner.text() == old(self).scanner.text(),
            unit_grown(&final(self).scanner.compiler, &old(self).scanner.compiler),
            final(self).measure() <= old(self).measure(),
            final(self).tokens == old(self).tokens,
            r is Ok ==> final(self).tracks() && final(self).at@ >= old(self).at@,
            r is Ok ==> !final(self).read.kind.spec_is_eof(),
            r is Ok ==> r->Ok_0 == Expression::Infix(
                Box::new(Infix { operator: old(self).read.kind, lhs, rhs: r->Ok_0->Infix_0.rhs }),
            ),
            r is Ok ==> infix_rel(old(self).tokens@, old(self).at@, lhs, r->Ok_0, final(self).at@),
            r is Err ==> justified(r->Err_0),
            infix_ok(old(self).tokens@, old(self).at@) ==> r is Ok,
        decreases old(self).measure(), 0nat,
    {
        let ghost t = self.tokens@;
        let ghost o = self.at@;
        let ghost w = choose|l: Expression, e: Expression, m: int| #[trigger] split3(l, e, m) && infix_rel(t, o, l, e, m);
        proof {
            lemma_kind(self.read.kind, lx_at(self.tokens@, self.at@));
            if infix_ok(t, o) {
                assert(infix_rel(t, o, w.0, w.1, w.2));
                assert(split(w.1->Infix_0.rhs, w.2));
                assert(expr_ok(t, o + 1, prec_at(t, o)));
            }
        }
        let operator = binary_operator(&self.read.kind);
        let p = Precedence::from_token_type(&operator);
        assert(self.measure() <= old(self).measure());
        self.next_token(1);
        let rhs = match self.parse_expression(p) {
            Ok(v) => v,
            Err(e) => {
                return Err(e);
            },
        };
        Ok(Expression::Infix(Box::new(Infix { operator, lhs, rhs })))
    }

    // The arguments of a call, from the current `(` to its `)`.
    #[verifier::rlimit(80)]
    fn parse_call(&mut self, func: Expression) -> (r: Result<Expression, ParseError>)
        requires
            old(self).tracks(),
            old(self).read.kind is LeftParen,
        ensures
            final(self).wf(),
            final(self).scanner.text() == old(self).scanner.text(),
            unit_grown(&final(self).scanner.compiler, &old(self).scanner.compiler),
            final(self).measure() <= old(self).measure(),
            final(self).tokens == old(self).tokens,
            r is Ok ==> final(self).tracks() && final(self).at@ >= old(self).at@,
            r is Ok ==> final(self).read.kind is RightParen,
            r is Ok ==> r->Ok_0 is FnCall && r->Ok_0->FnCall_0.func == func,
            r is Ok ==> infix_rel(old(self).tokens@, old(self).at@, func, r->Ok_0, final(self).at@),
            r is Err ==> justified(r->Err_0),
            infix_ok(old(self).tokens@, old(self).at@) ==> r is Ok,
        decreases old(self).measure(), 0nat,
    {
        let ghost t = self.tokens@;
        let ghost o = self.at@;
        let ghost ok = infix_ok(t, o);
        let ghost w = choose|l: Expression, e: Expression, m: int| #[trigger] split3(l, e, m) && infix_rel(t, o, l, e, m);
        proof {
            lemma_kind(self.read.kind, lx_at(t, o));
            lemma_kind(self.peek.kind, lx_at(t, o + 1));
            if ok {
                assert(infix_rel(t, o, w.0, w.1, w.2));
            }
        }
        let mut args: Vec<Expression> = Vec::new();
        if matches!(self.peek.kind, TokenType::RightParen) {
            self.next_token(1);
            assert(args@ =~= Seq::<Expression>::empty());
            return Ok(Expression::FnCall(Box::new(FnCall { func, args })));
        }
        let ghost a0 = w.1->FnCall_0.args@;
        let ghost k0 = choose|k: int|
            #[trigger] mark(k) && o + 1 <= k <= t.len() + 1 && expr_rel(t, o + 1, Precedence::Lowest, a0[0], k) && if a0.len()
                == 1 {
                is_at(t, k + 1, TokenType::RightParen) && w.2 == k + 1
            } else {
                is_at(t, k + 1, TokenType::Comma) && args_list(t, k + 2, a0.drop_first(), w.2)
            };
        proof {
            if ok {
                assert(args_list(t, o + 1, a0, w.2));
                assert(expr_rel(t, o + 1, Precedence::Lowest, a0[0], k0));
                assert(split(a0[0], k0));
                assert(expr_ok(t, o + 1, Precedence::Lowest));
            }
        }
        self.next_token(1);
        let first = match self.parse_expression(Precedence::Lowest) {
            Ok(v) => v,
            Err(e) => {
                return Err(e);
            },
        };
        args.push(first);
        let ghost mut cs: int = o + 1;
        proof {
            lemma_kind(self.read.kind, lx_at(t, self.at@));
            if ok {
                lemma_expr_unique(t, o + 1, Precedence::Lowest, a0[0], k0, first, self.at@);
                if a0.len() > 1 {
                    assert(args_mark(a0.drop_first(), w.2));
                }
                assert(args_tail_ok(t, self.at@));
            }
            assert forall|rest: Seq<Expression>, m2: int| #[trigger] args_list(t, cs, seq![first] + rest, m2) implies args_list(
                t,
                o + 1,
                args@ + rest,
                m2,
            ) by {
                assert(args@ + rest =~= seq![first] + rest);
            }
        }
        while matches!(self.peek.kind, TokenType::Comma)
            invariant
                self.wf(),
                self.scanner.text() == old(self).scanner.text(),
                unit_grown(&self.scanner.compiler, &old(self).scanner.compiler),
                self.measure() < old(self).measure(),
                self.tokens == old(self).tokens,
                self.tracks(),
                self.at@ >= old(self).at@,
                !self.read.kind.spec_is_eof(),
                t == self.tokens@,
                o == old(self).at@,
                !is_at(t, o + 1, TokenType::RightParen),
                args@.len() > 0,
                0 <= cs <= self.at@ < t.len(),
                expr_rel(t, cs, Precedence::Lowest, args@.last(), self.at@),
                forall|rest: Seq<Expression>, m2: int|
                    #[trigger] args_list(t, cs, seq![args@.last()] + rest, m2) ==> args_list(t, o + 1, args@ + rest, m2),
                ok ==> args_tail_ok(t, self.at@),
                ok == infix_ok(t, o),
            decreases self.measure(),
        {
            proof {
                lemma_kind(self.peek.kind, lx_at(t, self.at@ + 1));
            }
            let ghost prev = self.at@;
            let ghost args0 = args@;
            let ghost cs0 = cs;
            let ghost rw = choose|a: Seq<Expression>, m: int| #[trigger] args_mark(a, m) && args_list(t, prev + 2, a, m);
            let ghost rk = choose|k: int|
                #[trigger] mark(k) && prev + 2 <= k <= t.len() + 1 && expr_rel(t, prev + 2, Precedence::Lowest, rw.0[0], k)
                    && if rw.0.len() == 1 {
                    is_at(t, k + 1, TokenType::RightParen) && rw.1 == k + 1
                } else {
                    is_at(t, k + 1, TokenType::Comma) && args_list(t, k + 2, rw.0.drop_first(), rw.1)
                };
            proof {
                if ok {
                    assert(!is_at(t, prev + 1, TokenType::RightParen));
                    assert(args_list(t, prev + 2, rw.0, rw.1));
                    assert(expr_rel(t, prev + 2, Precedence::Lowest, rw.0[0], rk));
                    assert(split(rw.0[0], rk));
                    assert(expr_ok(t, prev + 2, Precedence::Lowest));
                }
            }
            self.next_token(2);
            let arg = match self.parse_expression(Precedence::Lowest) {
                Ok(v) => v,
                Err(e) => {
                    return Err(e);
                },
            };
            proof {
                lemma_kind(self.read.kind, lx_at(t, self.at@));
            }
            args.push(arg);
            proof {
                if ok {
                    lemma_expr_unique(t, prev + 2, Precedence::Lowest, rw.0[0], rk, arg, self.at@);
                    if rw.0.len() > 1 {
                        assert(args_mark(rw.0.drop_first(), rw.1));
                    }
                    assert(args_tail_ok(t, self.at@));
                }
                cs = prev + 2;
                assert(args@ == args0.push(arg));
                assert forall|rest: Seq<Expression>, m2: int| #[trigger] args_list(t, cs, seq![arg] + rest, m2) implies args_list(
                    t,
                    o + 1,
                    args@ + rest,
                    m2,
                ) by {
                    lemma_args_more(t, cs0, args0.last(), prev, seq![arg] + rest, m2);
                    assert(seq![args0.last()] + (seq![arg] + rest) =~= seq![args0.last()] + (seq![arg] + rest));
                    assert(args0 + (seq![arg] + rest) =~= args@ + rest);
                }
            }
        }
        proof {
            lemma_kind(self.peek.kind, lx_at(t, self.at@ + 1));
        }
        if matches!(self.peek.kind, TokenType::RightParen) {
            let ghost k = self.at@;
            self.next_token(1);
            proof {
                lemma_args_last(t, cs, args@.last(), k);
                assert(seq![args@.last()] + Seq::<Expression>::empty() =~= seq![args@.last()]);
                assert(args_list(t, cs, seq![args@.last()] + Seq::<Expression>::empty(), k + 1));
                assert(args@ + Seq::<Expression>::empty() =~= args@);
            }
            Ok(Expression::FnCall(Box::new(FnCall { func, args })))
        } else {
            Err(self.expected(")"))
        }
    }

    // An index, from the current `[` to its `]`; it stands as an infix `[`.
    fn parse_index(&mut self, lhs: Expression) -> (r: Result<Expression, ParseError>)
        requires
            old(self).tracks(),
            old(self).read.kind is LeftBracket,
        ensures
            final(self).wf(),
            final(self).scanner.text() == old(self).scanner.text(),
            unit_grown(&final(self).scanner.compiler, &old(self).scanner.compiler),
            final(self).measure() <= old(self).measure(),
            final(self).tokens == old(self).tokens,
            r is Ok ==> final(self).tracks() && final(self).at@ >= old(self).at@,
            r is Ok ==> final(self).read.kind is RightBracket,
            r is Ok ==> r->Ok_0 == Expression::Infix(
                Box::new(Infix { operator: TokenType::LeftBracket, lhs, rhs: r->Ok_0->Infix_0.rhs }),
            ),
            r is Ok ==> infix_rel(old(self).tokens@, old(self).at@, lhs, r->Ok_0, final(self).at@),
            r is Err ==> justified(r->Err_0),
            infix_ok(old(self).tokens@, old(self).at@) ==> r is Ok,
        decreases old(self).measure(), 0nat,
    {
        let ghost t = self.tokens@;
        let ghost o = self.at@;
        let ghost w = choose|l: Expression, e: Expression, m: int| #[trigger] split3(l, e, m) && infix_rel(t, o, l, e, m);
        proof {
            lemma_kind(self.read.kind, lx_at(self.tokens@, self.at@));
            if infix_ok(t, o) {
                assert(infix_rel(t, o, w.0, w.1, w.2));
                assert(split(w.1->Infix_0.rhs, w.2 - 1));
                assert(expr_ok(t, o + 1, Precedence::Lowest));
            }
        }
        self.next_token(1);
        let rhs = match self.parse_expression(Precedence::Lowest) {
            Ok(v) => v,
            Err(e) => {
                return Err(e);
            },
        };
        proof {
            lemma_kind(self.read.kind, lx_at(self.tokens@, self.at@));
            lemma_kind(self.peek.kind, lx_at(self.tokens@, self.at@ + 1));
            if infix_ok(t, o) {
                lemma_expr_unique(t, o + 1, Precedence::Lowest, w.1->Infix_0.rhs, w.2 - 1, rhs, self.at@);
            }
        }
        if matches!(self.peek.kind, TokenType::RightBracket) {
            self.next_token(1);
            Ok(Expression::Infix(Box::new(Infix { operator: TokenType::LeftBracket, lhs, rhs })))
        } else {
            Err(self.expected("]"))
        }
    }

    // An expression whose operators all bind tighter than `prec`: a prefix
    // rule picked by the current token, then infix rules for as long as the
    // token after binds tighter than `prec`.
    #[verifier::rlimit(80)]
    fn parse_expression(&mut self, prec: Precedence) -> (r: Result<Expression, ParseError>)
        requires
            old(self).tracks(),
        ensures
            final(self).wf(),
            final(self).scanner.text() == old(self).scanner.text(),
            unit_grown(&final(self).scanner.compiler, &old(self).scanner.compiler),
            final(self).measure() <= old(self).measure(),
            final(self).tokens == old(self).tokens,
            r is Ok ==> final(self).tracks() && final(self).at@ >= old(self).at@,
            r is Ok ==> !final(self).read.kind.spec_is_eof(),
            r is Ok ==> rank(precedence_of(final(self).peek.kind)) <= rank(prec),
            !has_prefix_rule(old(self).read.kind) ==> r == Err::<Expression, ParseError>(
                ParseError::NoPrefixRule(old(self).read),
            ) && *final(self) == *old(self),
            atom_of(old(self).read.kind) is Some && rank(precedence_of(old(self).peek.kind)) <= rank(prec) ==> r
                == Ok::<Expression, ParseError>(atom_of(old(self).read.kind)->0),
            r is Ok ==> expr_rel(old(self).tokens@, old(self).at@, prec, r->Ok_0, final(self).at@),
            r is Err ==> justified(r->Err_0),
            expr_ok(old(self).tokens@, old(self).at@, prec) ==> r is Ok,
        decreases old(self).measure(), 1nat,
    {
        let ghost t = self.tokens@;
        let ghost i = self.at@;
        let ghost ok = expr_ok(t, i, prec);
        let ghost w0 = choose|e: Expression, j: int| #[trigger] split(e, j) && expr_rel(t, i, prec, e, j);
        let ghost w1 = choose|l: Expression, m: int|
            #[trigger] split(l, m) && i <= m <= t.len() + 1 && prefix_rel(t, i, l, m) && climb_rel(
                t,
                m,
                prec,
                l,
                w0.0,
                w0.1,
            );
        proof {
            lemma_kind(self.read.kind, lx_at(t, i));
            if atom_of(self.read.kind) is Some {
                lemma_atom(t, i, self.read.kind);
            }
            if ok {
                assert(expr_rel(t, i, prec, w0.0, w0.1));
                assert(prefix_rel(t, i, w1.0, w1.1));
                lemma_prefix_rule_kind(t, i, w1.0, w1.1, self.read.kind);
                assert(split(w1.0, w1.1));
                assert(prefix_ok(t, i));
            }
        }
        let mut left = match self.read.kind {
            TokenType::Tag(_) => match self.parse_expression_id() {
                Ok(v) => v,
                Err(e) => {
                    return Err(e);
                },
            },
            TokenType::Integer(_) => match self.parse_expression_int() {
                Ok(v) => v,
                Err(e) => {
                    return Err(e);
                },
            },
            TokenType::Float(_) => match self.parse_expression_float() {
                Ok(v) => v,
                Err(e) => {
                    return Err(e);
                },
            },
            TokenType::Keyword(Keyword::True) | TokenType::Keyword(Keyword::False) => match self.parse_expression_bool() {
                Ok(v) => v,
                Err(e) => {
                    return Err(e);
                },
            },
            TokenType::Bang | TokenType::Minus | TokenType::Asterisk | TokenType::Ampersand => match self.parse_expression_prefix() {
                Ok(v) => v,
                Err(e) => {
                    return Err(e);
                },
            },
            TokenType::LeftParen => match self.parse_expression_group() {
                Ok(v) => v,
                Err(e) => {
                    return Err(e);
                },
            },
            TokenType::Keyword(Keyword::Do) | TokenType::LeftSquirly => match self.parse_expression_block() {
                Ok(v) => v,
                Err(e) => {
                    return Err(e);
                },
            },
            TokenType::Keyword(Keyword::If) => match self.parse_expression_if() {
                Ok(v) => v,
                Err(e) => {
                    return Err(e);
                },
            },
            TokenType::Keyword(Keyword::Match) => match self.parse_expression_match() {
                Ok(v) => v,
                Err(e) => {
                    return Err(e);
                },
            },
            _ => {
                return Err(ParseError::NoPrefixRule(self.read.duplicate()));
            },
        };
        let ghost first = left;
        let ghost start = *self;
        let ghost mut looped = false;
        assert(prefix_rel(t, i, first, start.at@));
        proof {
            if ok {
                lemma_prefix_unique(t, i, w1.0, w1.1, first, start.at@);
                assert(split3(w1.0, w0.0, w0.1));
            }
        }
        loop
            invariant
                self.wf(),
                self.scanner.text() == old(self).scanner.text(),
                unit_grown(&self.scanner.compiler, &old(self).scanner.compiler),
                self.measure() <= old(self).measure(),
                self.tokens == old(self).tokens,
                self.tracks(),
                self.at@ >= old(self).at@,
                !self.read.kind.spec_is_eof(),
                has_prefix_rule(old(self).read.kind),
                !looped ==> *self == start && left == first,
                looped ==> rank(precedence_of(start.peek.kind)) > rank(prec),
                atom_of(old(self).read.kind) is Some ==> start == *old(self) && first == atom_of(old(self).read.kind)->0,
                t == self.tokens@,
                forall|e2: Expression, j2: int|
                    #[trigger] climb_rel(t, self.at@, prec, left, e2, j2) ==> climb_rel(t, start.at@, prec, first, e2, j2),
                ok ==> climb_ok(t, self.at@, prec),
                ok == expr_ok(t, i, prec),
                i == old(self).at@,
            ensures
                rank(precedence_of(self.peek.kind)) <= rank(prec),
                !looped ==> left == first,
                looped ==> rank(precedence_of(start.peek.kind)) > rank(prec),
            decreases self.measure(),
        {
            proof {
                lemma_kind(self.read.kind, lx_at(t, self.at@));
                lemma_kind(self.peek.kind, lx_at(t, self.at@ + 1));
            }
            let p = Precedence::from_token_type(&self.peek.kind);
            if p.rank() <= prec.rank() {
                break;
            }
            let ghost m = self.at@;
            let ghost l0 = left;
            let ghost c = choose|l: Expression, e: Expression, j: int| #[trigger] split3(l, e, j) && climb_rel(t, m, prec, l, e, j);
            let ghost c2 = choose|l2: Expression, m2: int|
                #[trigger] split(l2, m2) && m + 1 <= m2 <= t.len() + 1 && infix_rel(t, m + 1, c.0, l2, m2) && climb_rel(
                    t,
                    m2,
                    prec,
                    l2,
                    c.1,
                    c.2,
                );
            proof {
                if ok {
                    assert(climb_rel(t, m, prec, c.0, c.1, c.2));
                    assert(rank(prec_at(t, m + 1)) > rank(prec));
                    assert(infix_rel(t, m + 1, c.0, c2.0, c2.1));
                    assert(split3(c.0, c2.0, c2.1));
                    assert(infix_ok(t, m + 1));
                }
            }
            self.next_token(1);
            proof {
                looped = true;
            }
            left = if matches!(self.read.kind, TokenType::LeftParen) {
                match self.parse_call(left) {
                    Ok(v) => v,
                    Err(e) => {
                        return Err(e);
                    },
                }
            } else if matches!(self.read.kind, TokenType::LeftBracket) {
                match self.parse_index(left) {
                    Ok(v) => v,
                    Err(e) => {
                        return Err(e);
                    },
                }
            } else {
                match self.parse_infix(left) {
                    Ok(v) => v,
                    Err(e) => {
                        return Err(e);
                    },
                }
            };
            proof {
                lemma_kind(self.read.kind, lx_at(t, self.at@));
                let m2 = self.at@;
                assert(infix_rel(t, m + 1, l0, left, m2));
                if ok {
                    lemma_infix_unique(t, m + 1, c.0, c2.0, c2.1, l0, left, m2);
                    assert(climb_rel(t, m2, prec, c2.0, c.1, c.2));
                    assert(split3(c2.0, c.1, c.2));
                }
                assert(0 <= m <= t.len() + 1);
                assert(m + 1 <= m2 <= t.len() + 1);
                assert(rank(prec_at(t, m + 1)) > rank(prec));
                assert forall|e2: Expression, j2: int| #[trigger] climb_rel(t, m2, prec, left, e2, j2) implies climb_rel(
                    t,
                    start.at@,
                    prec,
                    first,
                    e2,
                    j2,
                ) by {
                    lemma_climb_step(t, m, prec, l0, left, m2, e2, j2);
                }
            }
        }
        proof {
            lemma_kind(self.read.kind, lx_at(t, self.at@));
            lemma_climb_base(t, self.at@, prec, left);
            lemma_expr_intro(t, i, prec, first, start.at@, left, self.at@);
        }
        Ok(left)
    }

    // A `let` or `const` binding: a name, `=`, a value, and an optional
    // statement separator.
    fn parse_binding_statement(&mut self) -> (r: Result<Node, ParseError>)
        requires
            old(self).tracks(),
            starts_statement(old(self).read.kind),
        ensures
            final(self).wf(),
            final(self).scanner.text() == old(self).scanner.text(),
            unit_grown(&final(self).scanner.compiler, &old(self).scanner.compiler),
            final(self).measure() <= old(self).measure(),
            final(self).tokens == old(self).tokens,
            r is Ok ==> final(self).tracks() && final(self).at@ >= old(self).at@,
            r is Ok ==> !final(self).read.kind.spec_is_eof(),
            !(old(self).peek.kind is Tag) ==> r is Err,
            r is Ok ==> r->Ok_0 is Binding && r->Ok_0->Binding_0.kind == old(self).read.kind
                && r->Ok_0->Binding_0.name == old(self).peek.kind->Tag_0 && r->Ok_0->Binding_0.expl_type is None,
            r is Ok ==> stmt_rel(old(self).tokens@, old(self).at@, r->Ok_0, final(self).at@),
            r is Err ==> justified(r->Err_0),
            stmt_ok(old(self).tokens@, old(self).at@) ==> r is Ok,
            !(old(self).peek.kind is Tag) ==> r == Err::<Node, ParseError>(
                ParseError::Expected { expected: r->Err_0->expected, got: old(self).peek },
            ) && r->Err_0->expected@ == "tag"@ && *final(self) == *old(self),
            old(self).peek.kind is Tag && !is_at(old(self).tokens@, old(self).at@ + 2, TokenType::Assign) ==> r is Err && r->Err_0 is Expected
                && r->Err_0->expected@ == "="@ && kind_of(r->Err_0->got.kind, lx_at(old(self).tokens@, old(self).at@ + 2)),
        decreases old(self).measure(), 2nat,
    {
        let ghost t = self.tokens@;
        let ghost i = self.at@;
        let ghost ok = stmt_ok(t, i);
        let ghost w = choose|n: Node, m: int| #[trigger] node_mark(n, m) && stmt_rel(t, i, n, m);
        let ghost wk = choose|k: int|
            #[trigger] mark(k) && expr_rel(t, i + 3, Precedence::Lowest, w.0->Binding_0.value, k) && w.1 == (if is_at(
                t,
                k + 1,
                TokenType::Newline,
            ) || is_at(t, k + 1, TokenType::Semicolon) {
                k + 1
            } else {
                k
            });
        proof {
            lemma_kind(self.read.kind, lx_at(t, i));
            lemma_kind(self.peek.kind, lx_at(t, i + 1));
            if ok {
                assert(stmt_rel(t, i, w.0, w.1));
                assert(self.peek.kind is Tag);
                assert(split(w.0->Binding_0.value, wk));
                assert(expr_ok(t, i + 3, Precedence::Lowest));
            }
        }
        let kind = if matches!(self.read.kind, TokenType::Keyword(Keyword::Let)) {
            TokenType::Keyword(Keyword::Let)
        } else {
            TokenType::Keyword(Keyword::Const)
        };
        let name = match self.parse_tag() {
            Ok(v) => v,
            Err(e) => {
                return Err(e);
            },
        };
        self.next_token(1);
        proof {
            lemma_kind(self.peek.kind, lx_at(t, self.at@ + 1));
        }
        if !matches!(self.peek.kind, TokenType::Assign) {
            return Err(self.expected("="));
        }
        self.next_token(2);
        let value = match self.parse_expression(Precedence::Lowest) {
            Ok(v) => v,
            Err(e) => {
                return Err(e);
            },
        };
        let ghost k = self.at@;
        self.skip_semicolon_newline();
        let node = Node::Binding(Binding { kind, name, expl_type: None, value });
        proof {
            assert(mark(k));
            assert(stmt_rel(t, i, node, self.at@));
        }
        Ok(node)
    }

    // A statement, picked by the current token.
    fn parse_statement(&mut self) -> (r: Result<Node, ParseError>)
        requires
            old(self).tracks(),
        ensures
            final(self).wf(),
            final(self).scanner.text() == old(self).scanner.text(),
            unit_grown(&final(self).scanner.compiler, &old(self).scanner.compiler),
            final(self).measure() <= old(self).measure(),
            final(self).tokens == old(self).tokens,
            r is Ok ==> final(self).tracks() && final(self).at@ >= old(self).at@,
            r is Ok ==> !final(self).read.kind.spec_is_eof(),
            r is Ok ==> is_binding(r->Ok_0),
            !starts_statement(old(self).read.kind) ==> r == Err::<Node, ParseError>(
                ParseError::UnsupportedStatement(old(self).read),
            ) && *final(self) == *old(self),
            r is Ok ==> stmt_rel(old(self).tokens@, old(self).at@, r->Ok_0, final(self).at@),
            r is Err ==> justified(r->Err_0),
            stmt_ok(old(self).tokens@, old(self).at@) ==> r is Ok,
            starts_statement(old(self).read.kind) && !(old(self).peek.kind is Tag) ==> r == Err::<Node, ParseError>(
                ParseError::Expected { expected: r->Err_0->expected, got: old(self).peek },
            ) && r->Err_0->expected@ == "tag"@ && *final(self) == *old(self),
            starts_statement(old(self).read.kind) && old(self).peek.kind is Tag && !is_at(
                old(self).tokens@,
                old(self).at@ + 2,
                TokenType::Assign,
            ) ==> r is Err && r->Err_0 is Expected && r->Err_0->expected@ == "="@ && kind_of(r->Err_0->got.kind, lx_at(old(self).tokens@, old(self).at@ + 2)),
        decreases old(self).measure(), 3nat,
    {
        match self.read.kind {
            TokenType::Keyword(Keyword::Let) | TokenType::Keyword(Keyword::Const) => self.parse_binding_statement(),
            _ => {
                Err(ParseError::UnsupportedStatement(self.read.duplicate()))
            },
        }
    }

    /// Parses statements up to the end of the input. Separators between
    /// statements are skipped; the first error ends the parse. It succeeds
    /// exactly when the grammar reads a program in the scanner's tokens,
    /// and then returns what the grammar reads.
    pub fn parse_program(&mut self) -> (r: Result<Ast, ParseError>)
        requires
            old(self).tracks(),
        ensures
            final(self).wf(),
            final(self).scanner.text() == old(self).scanner.text(),
            unit_grown(&final(self).scanner.compiler, &old(self).scanner.compiler),
            r is Ok ==> final(self).read.kind is Eof,
            r is Ok ==> program_rel(old(self).tokens@, old(self).at@, r->Ok_0.nodes@),
            program_ok(old(self).tokens@, old(self).at@) ==> r is Ok,
            r is Ok ==> forall|k: int| 0 <= k < r->Ok_0.nodes@.len() ==> is_binding(#[trigger] r->Ok_0.nodes@[k]),
            old(self).read.kind is Eof ==> r is Ok && r->Ok_0.nodes@.len() == 0,
            !(old(self).read.kind is Eof || old(self).read.kind is Newline || old(self).read.kind is Semicolon
                || starts_statement(old(self).read.kind)) ==> r == Err::<Ast, ParseError>(
                ParseError::UnsupportedStatement(old(self).read),
            ),
            r is Err ==> justified(r->Err_0),
            starts_statement(old(self).read.kind) && !(old(self).peek.kind is Tag) ==> r == Err::<Ast, ParseError>(
                ParseError::Expected { expected: r->Err_0->expected, got: old(self).peek },
            ) && r->Err_0->expected@ == "tag"@,
            starts_statement(old(self).read.kind) && old(self).peek.kind is Tag && !is_at(
                old(self).tokens@,
                old(self).at@ + 2,
                TokenType::Assign,
            ) ==> r is Err && r->Err_0 is Expected && r->Err_0->expected@ == "="@ && kind_of(
                r->Err_0->got.kind,
                lx_at(old(self).tokens@, old(self).at@ + 2),
            ),
    {
        let mut nodes: Vec<Node> = Vec::new();
        let ghost t = self.tokens@;
        let ghost i0 = self.at@;
        let ghost mut b: Seq<int> = seq![];
        let ghost ok = program_ok(t, i0);
        loop
            invariant_except_break
                nodes@.len() == 0 ==> *self == *old(self),
                ok ==> program_ok(t, self.at@),
                self.at@ == (if b.len() == 0 {
                    i0
                } else {
                    b.last() + 1
                }),
            invariant
                t == self.tokens@,
                i0 == old(self).at@,
                ok == program_ok(t, i0),
                nodes@.len() > 0 ==> !(starts_statement(old(self).read.kind) && !(old(self).peek.kind is Tag)) && !(starts_statement(
                    old(self).read.kind,
                ) && old(self).peek.kind is Tag && !is_at(t, i0 + 2, TokenType::Assign)),
                b.len() == nodes@.len(),
                forall|q: int| 0 <= q < b.len() ==> #[trigger] stmt_rel(t, stmt_start(t, i0, b, q), nodes@[q], b[q]),
                self.wf(),
                self.tracks(),
                self.tokens == old(self).tokens,
                self.at@ >= old(self).at@,
                self.scanner.text() == old(self).scanner.text(),
                unit_grown(&self.scanner.compiler, &old(self).scanner.compiler),
                forall|k: int| 0 <= k < nodes@.len() ==> is_binding(#[trigger] nodes@[k]),
                nodes@.len() > 0 ==> (old(self).read.kind is Newline || old(self).read.kind is Semicolon
                    || starts_statement(old(self).read.kind)),
            ensures
                is_at(t, skip_sep(t, if b.len() == 0 { i0 } else { b.last() + 1 }), TokenType::Eof),
                self.read.kind is Eof,
                forall|k: int| 0 <= k < nodes@.len() ==> is_binding(#[trigger] nodes@[k]),
                old(self).read.kind is Eof ==> nodes@.len() == 0,
                nodes@.len() == 0 ==> !starts_statement(old(self).read.kind),
                nodes@.len() > 0 ==> !(starts_statement(old(self).read.kind) && !(old(self).peek.kind is Tag)) && !(starts_statement(
                    old(self).read.kind,
                ) && old(self).peek.kind is Tag && !is_at(t, i0 + 2, TokenType::Assign)),
                old(self).read.kind is Eof || old(self).read.kind is Newline || old(self).read.kind is Semicolon
                    || starts_statement(old(self).read.kind),
            decreases self.measure(),
        {
            let ghost cur0 = self.at@;
            proof {
                lemma_kind(self.read.kind, lx_at(t, self.at@));
                lemma_skip_sep(t, cur0);
            }
            self.skip_separators();
            proof {
                lemma_kind(self.read.kind, lx_at(t, self.at@));
            }
            if self.read.kind.is_eof() {
                break;
            }
            let ghost b0 = b;
            let ghost n0 = nodes@;
            let ghost st = self.at@;
            let ghost pw = choose|n: Seq<Node>| #[trigger] nodes_mark(n, 0) && program_rel(t, cur0, n);
            let ghost pb = choose|bb: Seq<int>|
                {
                    &&& #[trigger] marks(bb)
                    &&& bb.len() == pw.len()
                    &&& forall|q: int| 0 <= q < bb.len() ==> #[trigger] stmt_rel(t, stmt_start(t, cur0, bb, q), pw[q], bb[q])
                    &&& is_at(t, skip_sep(t, if bb.len() == 0 { cur0 } else { bb.last() + 1 }), TokenType::Eof)
                };
            proof {
                if ok {
                    assert(program_rel(t, cur0, pw));
                    assert(st == skip_sep(t, cur0));
                    assert(pw.len() > 0);
                    assert(stmt_start(t, cur0, pb, 0) == st);
                    assert(stmt_rel(t, st, pw[0], pb[0]));
                    assert(node_mark(pw[0], pb[0]));
                    assert(stmt_ok(t, st));
                }
            }
            let stmt = match self.parse_statement() {
                Ok(v) => v,
                Err(e) => {
                    return Err(e);
                },
            };
            nodes.push(stmt);
            proof {
                if n0.len() == 0 {
                    lemma_tag_kind(old(self).peek.kind, lx_at(t, i0 + 1));
                }
                if ok {
                    lemma_stmt_unique(t, st, pw[0], pb[0], stmt, self.at@);
                    lemma_program_tail(t, cur0, pw, pb);
                    assert(nodes_mark(pw.drop_first(), 0));
                }
                b = b.push(self.at@);
                lemma_program_step(t, i0, b0, n0, st, stmt, self.at@);
            }
            self.next_token(1);
        }
        proof {
            assert(marks(b));
        }
        Ok(Ast { nodes })
    }
}

} // verus!
