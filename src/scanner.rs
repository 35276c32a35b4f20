//! The scanner: it reads a unit's text one token at a time.

use vstd::prelude::*;

use crate::compiler::Compiler;
use crate::error::Error;
use crate::lexical::{
    all_diags, at_pos, blank, blank_end, char_at, closing_diags, column_of, comment_end, diag_at, escape_fault, escape_faults,
    extends, follows, integral_end, kind_of, lemma_blank_end, lemma_blank_trivia, lemma_ends_grow,
    lemma_multiline_grows, lex, line_of, missing_margin, multiline_body, operator_at, reports, starts_escape,
    stream, string_body, token_from, trivia, unescape, unterminated_message, word_end, Diag, Step,
};
use crate::position::Position;
use crate::token::{Token, TokenType};
use crate::utility::{
    alphabetical, escape_char, integral, is_alphabetical, is_alphanumeric, is_digit, is_integral, push_char,
};

verus! {

/// Whether a text of `n` characters is short enough to scan: offsets and
/// positions then stay well inside `usize`.
pub open spec fn scannable(n: nat) -> bool {
    n + 8 < usize::MAX
}

/// Whether two units hold the same name, text, tree and context; only
/// their diagnostics may differ.
pub open spec fn same_unit(a: &Compiler, b: &Compiler) -> bool {
    &&& a.input == b.input
    &&& a.output == b.output
    &&& a.contents == b.contents
    &&& a.ast == b.ast
    &&& a.context == b.context
}

/// Whether `now` is the unit `before` with diagnostics only added after
/// those it had.
pub open spec fn unit_grown(now: &Compiler, before: &Compiler) -> bool {
    &&& same_unit(now, before)
    &&& before.errors@.len() <= now.errors@.len()
    &&& forall|k: int| 0 <= k < before.errors@.len() ==> #[trigger] now.errors@[k] == before.errors@[k]
}

/// Turns the source text of one unit into tokens, one call at a time.
pub struct Scanner {
    pub compiler: Compiler,
    pub chars: Vec<char>,
    pub current_pos: Position,
    pub token_pos: Position,
    pub read: usize,
}

proof fn lemma_pos_bound(s: Seq<char>, i: nat)
    ensures
        line_of(s, i) <= i + 1,
        column_of(s, i) <= i + 1,
    decreases i,
{
    if i > 0 {
        lemma_pos_bound(s, (i - 1) as nat);
    }
}

/// Reports of diagnostics chain: what extends `a` to `b` and then `b` to
/// `c` extends `a` to `c`.
pub proof fn lemma_extends_chain(
    a: Seq<Error>,
    b: Seq<Error>,
    c: Seq<Error>,
    file: Seq<char>,
    s: Seq<char>,
    d1: Seq<Diag>,
    d2: Seq<Diag>,
)
    requires
        extends(a, b, file, s, d1),
        extends(b, c, file, s, d2),
    ensures
        extends(a, c, file, s, d1 + d2),
{
    assert(c.subrange(0, a.len() as int) =~= b.subrange(0, a.len() as int));
    assert forall|k: int| 0 <= k < (d1 + d2).len() implies reports(
        #[trigger] c[a.len() + k],
        file,
        s,
        (d1 + d2)[k],
    ) by {
        if k < d1.len() {
            assert(c[a.len() + k] == b[a.len() + k]);
        } else {
            assert(c[a.len() + k] == c[b.len() + (k - d1.len())]);
        }
    }
}

proof fn lemma_extends_none(a: Seq<Error>, file: Seq<char>, s: Seq<char>)
    ensures
        extends(a, a, file, s, seq![]),
{
    assert(a.subrange(0, a.len() as int) =~= a);
}





proof fn lemma_blank_multiline(s: Seq<char>, i: nat)
    ensures
        multiline_body(s, blank_end(s, i), true) == multiline_body(s, i, true),
    decreases s.len() - i,
{
    if i < s.len() && blank(s[i as int]) {
        lemma_blank_multiline(s, i + 1);
    }
}

impl Scanner {
    /// The text being scanned.
    pub open spec fn text(&self) -> Seq<char> {
        self.compiler.contents@
    }

    /// The offset of the next character to read.
    pub open spec fn offset(&self) -> nat {
        self.read as nat
    }

    /// The scanner's invariant: its copy of the text is the unit's, its
    /// offset lies at most one past the end, and its position is that of
    /// the offset.
    pub open spec fn wf(&self) -> bool {
        &&& self.chars@ == self.compiler.contents@
        &&& scannable(self.chars@.len())
        &&& self.read <= self.chars@.len() + 1
        &&& at_pos(self.current_pos, self.chars@, self.read as nat)
    }

    pub open spec fn moved(&self, old: &Scanner) -> bool {
        &&& self.wf()
        &&& self.chars == old.chars
        &&& same_unit(&self.compiler, &old.compiler)
        &&& self.token_pos == old.token_pos
        &&& self.read >= old.read
    }

    /// Whether the scanner, moved from `old`, has handed out `r` as the
    /// token `st` read from the offset where `old` stood.
    pub open spec fn delivers(&self, old: &Scanner, r: Token, st: Step) -> bool {
        &&& self.moved(old)
        &&& kind_of(r.kind, st.lexeme)
        &&& self.read == st.end
        &&& r.pos == old.token_pos
        &&& r.file == old.compiler.input
        &&& extends(old.compiler.errors@, self.compiler.errors@, old.compiler.input@, old.text(), st.diags)
    }

    /// Creates a scanner at the start of the unit's text.
    pub fn new(compiler: Compiler) -> (r: Self)
        requires
            scannable(compiler.contents@.len()),
        ensures
            r.wf(),
            r.compiler == compiler,
            r.text() == compiler.contents@,
            r.offset() == 0,
            r.current_pos == (Position { line: 1, column: 1 }),
            r.token_pos == (Position { line: 1, column: 1 }),
    {
        let chars = crate::utility::chars_of(compiler.contents.as_str());
        let current_pos = Position::new(1, 1);
        Scanner { compiler, chars, current_pos, token_pos: current_pos, read: 0 }
    }

    fn char_at_offset(&self, i: usize) -> (r: char)
        ensures
            r == char_at(self.chars@, i as nat),
    {
        if i < self.chars.len() {
            self.chars[i]
        } else {
            '\0'
        }
    }

    // The character at the offset.
    fn read(&self) -> (r: char)
        requires
            self.wf(),
        ensures
            r == char_at(self.text(), self.read as nat),
    {
        self.char_at_offset(self.read)
    }

    // The character after the offset.
    fn peek(&self) -> (r: char)
        requires
            self.wf(),
        ensures
            r == char_at(self.text(), (self.read + 1) as nat),
    {
        self.char_at_offset(self.read + 1)
    }

    // The character before the offset.
    fn prev(&self) -> (r: char)
        requires
            self.wf(),
        ensures
            self.read > 0 ==> r == char_at(self.text(), (self.read - 1) as nat),
    {
        if self.read == 0 {
            '\0'
        } else {
            self.char_at_offset(self.read - 1)
        }
    }

    // Moves the offset forward by `count`, at most three, keeping track of
    // line and column.
    fn advance(&mut self, count: usize)
        requires
            old(self).wf(),
            old(self).read + (if count > 3 { 3 } else { count }) <= old(self).chars@.len() + 1,
        ensures
            final(self).moved(old(self)),
            final(self).compiler.errors == old(self).compiler.errors,
            final(self).read == old(self).read + (if count > 3 { 3 } else { count }),
    {
        let count = if count > 3 {
            3
        } else {
            count
        };
        let ghost start = self.read;
        let mut k: usize = 0;
        while k < count
            invariant
                self.moved(old(self)),
                self.compiler.errors == old(self).compiler.errors,
                k <= count,
                self.read == start + k,
                start + count <= self.chars@.len() + 1,
            decreases count - k,
        {
            proof {
                lemma_pos_bound(self.chars@, self.read as nat);
            }
            self.read = self.read + 1;
            self.current_pos.column = self.current_pos.column + 1;
            if self.char_at_offset(self.read - 1) == '\n' {
                self.current_pos.line = self.current_pos.line + 1;
                self.current_pos.column = 1;
            }
            k = k + 1;
        }
    }

    // Records a diagnostic at the current position.
    fn report(&mut self, msg: String)
        requires
            old(self).wf(),
        ensures
            final(self).moved(old(self)),
            final(self).read == old(self).read,
            extends(
                old(self).compiler.errors@,
                final(self).compiler.errors@,
                old(self).compiler.input@,
                old(self).text(),
                seq![Diag { msg: msg@, at: old(self).read as nat }],
            ),
    {
        let e = Error::new(self.compiler.input.clone(), String::from_str("Scanning error"), msg, self.current_pos);
        self.compiler.errors.push(e);
        proof {
            let a = old(self).compiler.errors@;
            assert(self.compiler.errors@.subrange(0, a.len() as int) =~= a);
            assert(self.compiler.errors@[a.len() as int] == e);
        }
    }

    // Skips spaces and tabs.
    fn skip_whitespace(&mut self)
        requires
            old(self).wf(),
        ensures
            final(self).moved(old(self)),
            final(self).compiler.errors == old(self).compiler.errors,
            final(self).read == blank_end(old(self).text(), old(self).read as nat),
    {
        let ghost s = self.text();
        let ghost start = self.read as nat;
        loop
            invariant
                self.moved(old(self)),
                self.compiler.errors == old(self).compiler.errors,
                s == self.text(),
                blank_end(s, self.read as nat) == blank_end(s, start),
            ensures
                self.moved(old(self)),
                self.compiler.errors == old(self).compiler.errors,
                self.read == blank_end(s, start),
            decreases self.chars@.len() + 1 - self.read,
        {
            let c = self.read();
            if c == ' ' || c == '\t' {
                self.advance(1);
            } else {
                break;
            }
        }
    }

    // Skips a `//` comment and the newline that ends it.
    fn skip_single_comment(&mut self)
        requires
            old(self).wf(),
            char_at(old(self).text(), old(self).read as nat) == '/',
            char_at(old(self).text(), (old(self).read + 1) as nat) == '/',
        ensures
            final(self).moved(old(self)),
            final(self).compiler.errors == old(self).compiler.errors,
            final(self).read > old(self).read,
            trivia(old(self).text(), final(self).read as nat, 0) == trivia(old(self).text(), old(self).read as nat, 0),
    {
        let ghost s = self.text();
        let ghost start = self.read as nat;
        self.advance(2);
        loop
            invariant_except_break
                trivia(s, self.read as nat, 1) == trivia(s, start, 0),
            invariant
                self.moved(old(self)),
                self.compiler.errors == old(self).compiler.errors,
                s == self.text(),
                self.read > start,
            ensures
                self.moved(old(self)),
                self.compiler.errors == old(self).compiler.errors,
                self.read > start,
                trivia(s, self.read as nat, 0) == trivia(s, start, 0),
            decreases self.chars@.len() + 1 - self.read,
        {
            let c = self.read();
            if c == '\n' {
                self.advance(1);
                break;
            }
            if self.read >= self.chars.len() {
                break;
            }
            self.advance(1);
        }
    }

    // Skips a `/* */` comment; one that the input ends inside is reported.
    // Returns what was reported.
    fn skip_multi_comment(&mut self) -> (r: Ghost<Seq<Diag>>)
        requires
            old(self).wf(),
            char_at(old(self).text(), old(self).read as nat) == '/',
            char_at(old(self).text(), (old(self).read + 1) as nat) == '*',
        ensures
            final(self).moved(old(self)),
            final(self).read > old(self).read,
            extends(
                old(self).compiler.errors@,
                final(self).compiler.errors@,
                old(self).compiler.input@,
                old(self).text(),
                r@,
            ),
            r@ + trivia(old(self).text(), final(self).read as nat, 0).1 == trivia(
                old(self).text(),
                old(self).read as nat,
                0,
            ).1,
            trivia(old(self).text(), final(self).read as nat, 0).0 == trivia(
                old(self).text(),
                old(self).read as nat,
                0,
            ).0,
            final(self).read == comment_end(old(self).text(), (old(self).read + 2) as nat).0,
            r@ == (if comment_end(old(self).text(), (old(self).read + 2) as nat).1 {
                Seq::<Diag>::empty()
            } else {
                seq![
                    Diag {
                        msg: "Unterminated multiline comment"@,
                        at: comment_end(old(self).text(), (old(self).read + 2) as nat).0,
                    },
                ]
            }),
    {
        let ghost s = self.text();
        let ghost start = self.read as nat;
        let ghost t = trivia(s, start, 0);
        let ghost mut d: Seq<Diag> = seq![];
        self.advance(2);
        loop
            invariant_except_break
                self.compiler.errors == old(self).compiler.errors,
                trivia(s, self.read as nat, 2) == t,
                d == Seq::<Diag>::empty(),
                comment_end(s, self.read as nat) == comment_end(s, start + 2),
            invariant
                self.moved(old(self)),
                s == self.text(),
                self.read > start,
            ensures
                self.moved(old(self)),
                self.read > start,
                extends(old(self).compiler.errors@, self.compiler.errors@, old(self).compiler.input@, s, d),
                d + trivia(s, self.read as nat, 0).1 == t.1,
                trivia(s, self.read as nat, 0).0 == t.0,
                self.read == comment_end(s, start + 2).0,
                d == (if comment_end(s, start + 2).1 {
                    Seq::<Diag>::empty()
                } else {
                    seq![Diag { msg: "Unterminated multiline comment"@, at: comment_end(s, start + 2).0 }]
                }),
            decreases self.chars@.len() + 1 - self.read,
        {
            let c = self.read();
            if self.read >= self.chars.len() {
                proof {
                    d = seq![Diag { msg: "Unterminated multiline comment"@, at: self.read as nat }];
                }
                self.report(String::from_str("Unterminated multiline comment"));
                assert(d + seq![] =~= d);
                break;
            }
            if c == '*' && self.peek() == '/' {
                self.advance(2);
                proof {
                    lemma_extends_none(old(self).compiler.errors@, old(self).compiler.input@, s);
                    assert(d + t.1 =~= t.1);
                }
                break;
            }
            self.advance(1);
        }
        Ghost(d)
    }

    // Reads a word: a keyword, else a mode, else a tag.
    fn read_tag_keyword_mode(&mut self) -> (r: Token)
        requires
            old(self).wf(),
            alphabetical(char_at(old(self).text(), old(self).read as nat)),
        ensures
            final(self).delivers(old(self), r, lex(old(self).text(), old(self).read as nat)),
    {
        let ghost s = self.text();
        let start = self.read;
        loop
            invariant
                self.moved(old(self)),
                self.compiler.errors == old(self).compiler.errors,
                s == self.text(),
                start <= self.read <= s.len(),
                word_end(s, self.read as nat) == word_end(s, start as nat),
            ensures
                self.moved(old(self)),
                self.compiler.errors == old(self).compiler.errors,
                start <= self.read <= s.len(),
                self.read == word_end(s, start as nat),
            decreases self.chars@.len() + 1 - self.read,
        {
            let c = self.read();
            if is_alphanumeric(c) {
                self.advance(1);
            } else {
                break;
            }
        }
        let word = self.compiler.contents.as_str().substring_char(start, self.read);
        let kind = match TokenType::try_keyword(word) {
            Some(k) => k,
            None => match TokenType::try_mode(word) {
                Some(m) => m,
                None => TokenType::Tag(String::from_str(word)),
            },
        };
        proof {
            lemma_extends_none(old(self).compiler.errors@, old(self).compiler.input@, s);
        }
        Token::new(kind, self.compiler.input.clone(), self.token_pos)
    }

    // Reads digits and `_` from just after a decimal point.
    fn read_integer(&mut self)
        requires
            old(self).wf(),
            char_at(old(self).text(), old(self).read as nat) == '.',
        ensures
            final(self).moved(old(self)),
            final(self).compiler.errors == old(self).compiler.errors,
            final(self).read == integral_end(old(self).text(), (old(self).read + 1) as nat),
            final(self).read <= old(self).text().len(),
    {
        let ghost s = self.text();
        let ghost start = (self.read + 1) as nat;
        self.advance(1);
        loop
            invariant
                self.moved(old(self)),
                self.compiler.errors == old(self).compiler.errors,
                s == self.text(),
                self.read <= s.len(),
                integral_end(s, self.read as nat) == integral_end(s, start),
            ensures
                self.moved(old(self)),
                self.compiler.errors == old(self).compiler.errors,
                self.read <= s.len(),
                self.read == integral_end(s, start),
            decreases self.chars@.len() + 1 - self.read,
        {
            let c = self.read();
            if is_integral(c) {
                self.advance(1);
            } else {
                break;
            }
        }
    }

    // Reads an integer, or a float where a decimal point and a digit follow
    // the integral part.
    fn read_number(&mut self) -> (r: Token)
        requires
            old(self).wf(),
            integral(char_at(old(self).text(), old(self).read as nat)),
        ensures
            final(self).delivers(old(self), r, lex(old(self).text(), old(self).read as nat)),
    {
        let ghost s = self.text();
        let start = self.read;
        loop
            invariant
                self.moved(old(self)),
                self.compiler.errors == old(self).compiler.errors,
                s == self.text(),
                start <= self.read <= s.len(),
                integral_end(s, self.read as nat) == integral_end(s, start as nat),
            ensures
                self.moved(old(self)),
                self.compiler.errors == old(self).compiler.errors,
                start <= self.read <= s.len(),
                self.read == integral_end(s, start as nat),
            decreases self.chars@.len() + 1 - self.read,
        {
            let c = self.read();
            if is_integral(c) {
                self.advance(1);
            } else {
                break;
            }
        }
        let is_float = self.read() == '.' && is_digit(self.peek());
        if is_float {
            self.read_integer();
        }
        let text = String::from_str(self.compiler.contents.as_str().substring_char(start, self.read));
        let kind = if is_float {
            TokenType::Float(text)
        } else {
            TokenType::Integer(text)
        };
        proof {
            lemma_extends_none(old(self).compiler.errors@, old(self).compiler.input@, s);
        }
        Token::new(kind, self.compiler.input.clone(), self.token_pos)
    }

    // Reads the operator of two or more characters that the text holds at
    // the offset, taking the longest spelling; `None`, and no move, if there
    // is none.
    fn try_compound_operator(&mut self) -> (r: Option<TokenType>)
        requires
            old(self).wf(),
        ensures
            final(self).moved(old(self)),
            final(self).compiler.errors == old(self).compiler.errors,
            ({
                let op = operator_at(old(self).text(), old(self).read as nat);
                match r {
                    Some(k) => k == op.0 && op.1 >= 2 && final(self).read == old(self).read + op.1,
                    None => op.1 == 1 && final(self).read == old(self).read,
                }
            }),
    {
        let p = self.read;
        let n = self.chars.len();
        if p + 3 <= n {
            let w = self.compiler.contents.as_str().substring_char(p, p + 3);
            match TokenType::try_from_str(w) {
                Some(k) => {
                    self.advance(3);
                    return Some(k);
                },
                None => {},
            }
        }
        if p + 2 <= n {
            let w = self.compiler.contents.as_str().substring_char(p, p + 2);
            match TokenType::try_from_str(w) {
                Some(k) => {
                    self.advance(2);
                    return Some(k);
                },
                None => {},
            }
        }
        None
    }

    // Reports the backslash at `i` of the raw string text, which starts no
    // known escape.
    fn create_escape_error(&mut self, i: usize, raw: &Vec<char>)
        requires
            old(self).wf(),
            i < raw@.len(),
        ensures
            final(self).moved(old(self)),
            final(self).read == old(self).read,
            extends(
                old(self).compiler.errors@,
                final(self).compiler.errors@,
                old(self).compiler.input@,
                old(self).text(),
                seq![Diag { msg: escape_fault(raw@.subrange(i as int, raw@.len() as int)), at: old(self).read as nat }],
            ),
    {
        let ghost rest = raw@.subrange(i as int, raw@.len() as int);
        if i < raw.len() - 1 {
            let mut m = String::from_str("Unrecognized escape character: \\");
            push_char(&mut m, raw[i + 1]);
            assert(rest[1] == raw@[i + 1]);
            self.report(m);
        } else {
            self.report(String::from_str("Unterminated escape character"));
        }
    }

    // Resolves the escape sequences of raw string text, reporting each
    // backslash that starts no known one.
    fn handle_escape_characters(&mut self, raw: &Vec<char>) -> (r: String)
        requires
            old(self).wf(),
        ensures
            final(self).moved(old(self)),
            final(self).read == old(self).read,
            r@ == unescape(raw@),
            extends(
                old(self).compiler.errors@,
                final(self).compiler.errors@,
                old(self).compiler.input@,
                old(self).text(),
                escape_faults(raw@).map_values(diag_at(old(self).read as nat)),
            ),
    {
        let ghost s = self.text();
        let ghost at = self.read as nat;
        let mut out = String::new();
        let n = raw.len();
        let mut i: usize = 0;
        let ghost mut done: Seq<Seq<char>> = seq![];
        proof {
            lemma_extends_none(old(self).compiler.errors@, old(self).compiler.input@, s);
            assert(raw@.subrange(0, n as int) =~= raw@);
            assert(done.map_values(diag_at(at)) =~= seq![]);
        }
        while i < n
            invariant
                self.moved(old(self)),
                self.read == old(self).read,
                s == self.text(),
                at == self.read,
                n == raw@.len(),
                i <= n,
                out@ + unescape(raw@.subrange(i as int, n as int)) == unescape(raw@),
                done + escape_faults(raw@.subrange(i as int, n as int)) == escape_faults(raw@),
                extends(
                    old(self).compiler.errors@,
                    self.compiler.errors@,
                    old(self).compiler.input@,
                    s,
                    done.map_values(diag_at(at)),
                ),
            decreases n - i,
        {
            let ghost rest = raw@.subrange(i as int, n as int);
            let ghost out0 = out@;
            let c = raw[i];
            let esc = if c == '\\' && i + 1 < n {
                escape_char(raw[i + 1])
            } else {
                None
            };
            match esc {
                Some(e) => {
                    assert(rest.subrange(2, rest.len() as int) =~= raw@.subrange(i + 2, n as int));
                    assert(starts_escape(rest));
                    push_char(&mut out, e);
                    assert(out@ + unescape(raw@.subrange(i + 2, n as int)) =~= out0 + unescape(rest)) by {
                        assert(unescape(rest) == seq![e] + unescape(rest.subrange(2, rest.len() as int)));
                    }
                    i = i + 2;
                },
                None => {
                    assert(rest.subrange(1, rest.len() as int) =~= raw@.subrange(i + 1, n as int));
                    assert(!starts_escape(rest));
                    if c == '\\' {
                        let ghost before = self.compiler.errors@;
                        self.create_escape_error(i, raw);
                        proof {
                            let f = escape_fault(rest);
                            lemma_extends_chain(
                                old(self).compiler.errors@,
                                before,
                                self.compiler.errors@,
                                old(self).compiler.input@,
                                s,
                                done.map_values(diag_at(at)),
                                seq![Diag { msg: f, at }],
                            );
                            assert(done.push(f).map_values(diag_at(at)) =~= done.map_values(diag_at(at)) + seq![
                                Diag { msg: f, at },
                            ]);
                            assert(done.push(f) + escape_faults(raw@.subrange(i + 1, n as int)) =~= done + escape_faults(rest));
                            done = done.push(f);
                        }
                    } else {
                        assert(done + escape_faults(raw@.subrange(i + 1, n as int)) =~= done + escape_faults(rest));
                    }
                    push_char(&mut out, c);
                    assert(out@ + unescape(raw@.subrange(i + 1, n as int)) =~= out0 + unescape(rest)) by {
                        assert(unescape(rest) == seq![c] + unescape(rest.subrange(1, rest.len() as int)));
                    }
                    i = i + 1;
                },
            }
        }
        assert(raw@.subrange(n as int, n as int) =~= Seq::<char>::empty());
        assert(out@ + Seq::<char>::empty() =~= out@);
        assert(done + Seq::<Seq<char>>::empty() =~= done);
        out
    }

    // Finishes a string whose body stopped at the offset: steps past the
    // closing quote, reports a missing one, and resolves the escapes.
    fn close_string(&mut self, raw: &Vec<char>, multiline: bool) -> (r: String)
        requires
            old(self).wf(),
            old(self).read <= old(self).text().len(),
        ensures
            final(self).moved(old(self)),
            final(self).read == old(self).read + 1,
            r@ == unescape(raw@),
            extends(
                old(self).compiler.errors@,
                final(self).compiler.errors@,
                old(self).compiler.input@,
                old(self).text(),
                closing_diags(old(self).text(), raw@, old(self).read as nat, multiline),
            ),
    {
        let ghost s = self.text();
        let ghost k = self.read as nat;
        let ghost e0 = self.compiler.errors@;
        self.advance(1);
        let ghost e1 = self.compiler.errors@;
        if self.prev() != '"' {
            let msg = if multiline {
                String::from_str("Unterminated multiline string literal")
            } else {
                String::from_str("Unterminated string literal")
            };
            self.report(msg);
        } else {
            proof {
                lemma_extends_none(e0, old(self).compiler.input@, s);
            }
        }
        let ghost e2 = self.compiler.errors@;
        let value = self.handle_escape_characters(raw);
        proof {
            let un: Seq<Diag> = if char_at(s, k) == '"' {
                seq![]
            } else {
                seq![Diag { msg: unterminated_message(multiline), at: k + 1 }]
            };
            lemma_extends_chain(
                e0,
                e2,
                self.compiler.errors@,
                old(self).compiler.input@,
                s,
                un,
                escape_faults(raw@).map_values(diag_at(k + 1)),
            );
        }
        value
    }

    // Reads a one-line string, from its opening quote.
    fn read_string(&mut self) -> (r: Token)
        requires
            old(self).wf(),
            char_at(old(self).text(), old(self).read as nat) == '"',
            char_at(old(self).text(), (old(self).read + 1) as nat) != '|',
        ensures
            final(self).delivers(old(self), r, lex(old(self).text(), old(self).read as nat)),
    {
        let ghost s = self.text();
        let ghost p = self.read as nat;
        let ghost b = string_body(s, p + 1);
        self.advance(1);
        let mut raw: Vec<char> = Vec::new();
        loop
            invariant
                self.moved(old(self)),
                self.compiler.errors == old(self).compiler.errors,
                s == self.text(),
                self.read <= s.len(),
                raw@ + string_body(s, self.read as nat).0 == b.0,
                string_body(s, self.read as nat).1 == b.1,
            ensures
                self.moved(old(self)),
                self.compiler.errors == old(self).compiler.errors,
                self.read <= s.len(),
                raw@ == b.0,
                self.read == b.1,
            decreases self.chars@.len() + 1 - self.read,
        {
            let ghost raw0 = raw@;
            let c = self.read();
            if c == '"' || self.read >= self.chars.len() {
                assert(raw@ + seq![] =~= raw@);
                break;
            }
            let n = self.peek();
            if c == '\\' && (n == '"' || n == '\\') {
                raw.push(c);
                raw.push(n);
                assert(raw@ + string_body(s, (self.read + 2) as nat).0 =~= raw0 + string_body(s, self.read as nat).0);
                self.advance(2);
            } else {
                raw.push(c);
                assert(raw@ + string_body(s, (self.read + 1) as nat).0 =~= raw0 + string_body(s, self.read as nat).0);
                self.advance(1);
            }
        }
        let value = self.close_string(&raw, false);
        Token::new(TokenType::String(value), self.compiler.input.clone(), self.token_pos)
    }

    // Reads a multi-line string, from its opening `"|`. Each later line
    // starts, after blanks, with a `|` that is not part of the text.
    fn read_multiline_string(&mut self) -> (r: Token)
        requires
            old(self).wf(),
            char_at(old(self).text(), old(self).read as nat) == '"',
            char_at(old(self).text(), (old(self).read + 1) as nat) == '|',
        ensures
            final(self).delivers(old(self), r, lex(old(self).text(), old(self).read as nat)),
    {
        let ghost s = self.text();
        let ghost file = self.compiler.input@;
        let ghost p = self.read as nat;
        let ghost b = multiline_body(s, p + 2, false);
        self.advance(2);
        let mut raw: Vec<char> = Vec::new();
        let mut fresh = false;
        let ghost mut miss: Seq<nat> = seq![];
        proof {
            lemma_extends_none(old(self).compiler.errors@, file, s);
            assert(miss.map_values(missing_margin()) =~= seq![]);
        }
        loop
            invariant
                self.moved(old(self)),
                s == self.text(),
                file == self.compiler.input@,
                self.read <= s.len(),
                raw@ + multiline_body(s, self.read as nat, fresh).0 == b.0,
                multiline_body(s, self.read as nat, fresh).1 == b.1,
                miss + multiline_body(s, self.read as nat, fresh).2 == b.2,
                extends(old(self).compiler.errors@, self.compiler.errors@, file, s, miss.map_values(missing_margin())),
            ensures
                self.moved(old(self)),
                self.read <= s.len(),
                raw@ == b.0,
                self.read == b.1,
                miss == b.2,
                extends(old(self).compiler.errors@, self.compiler.errors@, file, s, miss.map_values(missing_margin())),
            decreases self.chars@.len() + 1 - self.read,
        {
            if fresh {
                proof {
                    lemma_blank_multiline(s, self.read as nat);
                    lemma_blank_end(s, self.read as nat);
                }
                self.skip_whitespace();
                let c = self.read();
                if c == '|' {
                    self.advance(1);
                    fresh = false;
                } else if c == '"' {
                    assert(raw@ + seq![] =~= raw@);
                    assert(miss + seq![] =~= miss);
                    break;
                } else {
                    let ghost before = self.compiler.errors@;
                    let ghost j = self.read as nat;
                    self.report(String::from_str("Missing start of line delimiter '|'"));
                    proof {
                        lemma_extends_chain(
                            old(self).compiler.errors@,
                            before,
                            self.compiler.errors@,
                            file,
                            s,
                            miss.map_values(missing_margin()),
                            seq![Diag { msg: "Missing start of line delimiter '|'"@, at: j }],
                        );
                        assert(miss.push(j).map_values(missing_margin()) =~= miss.map_values(missing_margin())
                            + seq![Diag { msg: "Missing start of line delimiter '|'"@, at: j }]);
                        assert(miss.push(j) + multiline_body(s, j, false).2 =~= miss + (seq![j] + multiline_body(s, j, false).2));
                        miss = miss.push(j);
                    }
                    fresh = false;
                }
            }
            let ghost raw0 = raw@;
            let c = self.read();
            if c == '"' || self.read >= self.chars.len() {
                assert(raw@ + seq![] =~= raw@);
                assert(miss + seq![] =~= miss);
                break;
            }
            let n = self.peek();
            if c == '\\' && n == '|' {
                raw.push('|');
                assert(raw@ + multiline_body(s, (self.read + 2) as nat, false).0 =~= raw0 + multiline_body(s, self.read as nat, false).0);
                self.advance(2);
            } else if c == '\\' && (n == '"' || n == '\\') {
                raw.push(c);
                raw.push(n);
                assert(raw@ + multiline_body(s, (self.read + 2) as nat, false).0 =~= raw0 + multiline_body(s, self.read as nat, false).0);
                self.advance(2);
            } else if c == '\n' {
                raw.push(c);
                assert(raw@ + multiline_body(s, (self.read + 1) as nat, true).0 =~= raw0 + multiline_body(s, self.read as nat, false).0);
                self.advance(1);
                fresh = true;
            } else {
                raw.push(c);
                assert(raw@ + multiline_body(s, (self.read + 1) as nat, false).0 =~= raw0 + multiline_body(s, self.read as nat, false).0);
                self.advance(1);
            }
        }
        let ghost e1 = self.compiler.errors@;
        let value = self.close_string(&raw, true);
        proof {
            lemma_extends_chain(
                old(self).compiler.errors@,
                e1,
                self.compiler.errors@,
                file,
                s,
                miss.map_values(missing_margin()),
                closing_diags(s, raw@, b.1, true),
            );
        }
        Token::new(TokenType::String(value), self.compiler.input.clone(), self.token_pos)
    }

    /// Reads the next token. Blanks and comments before it are skipped; a
    /// comment that the input ends inside is reported. Past the end of the
    /// input every call gives `Eof`.
    pub fn next_token(&mut self) -> (r: Token)
        requires
            old(self).wf(),
        ensures
            final(self).wf(),
            final(self).chars == old(self).chars,
            same_unit(&final(self).compiler, &old(self).compiler),
            final(self).read >= old(self).read,
            ({
                let s = old(self).text();
                let t = trivia(s, old(self).read as nat, 0);
                let st = lex(s, t.0);
                &&& kind_of(r.kind, st.lexeme)
                &&& at_pos(r.pos, s, t.0)
                &&& r.file == old(self).compiler.input
                &&& final(self).read == st.end
                &&& extends(
                    old(self).compiler.errors@,
                    final(self).compiler.errors@,
                    old(self).compiler.input@,
                    s,
                    t.1 + st.diags,
                )
            }),
            !r.kind.spec_is_eof() ==> final(self).read > old(self).read,
    {
        let ghost s = self.text();
        let ghost file = self.compiler.input@;
        let ghost t = trivia(s, self.read as nat, 0);
        let ghost mut acc: Seq<Diag> = seq![];
        let ghost start = self.read;
        proof {
            lemma_extends_none(old(self).compiler.errors@, file, s);
            assert(acc + t.1 =~= t.1);
        }
        loop
            invariant
                self.moved(old(self)),
                s == self.text(),
                file == self.compiler.input@,
                trivia(s, self.read as nat, 0).0 == t.0,
                acc + trivia(s, self.read as nat, 0).1 == t.1,
                extends(old(self).compiler.errors@, self.compiler.errors@, file, s, acc),
            ensures
                self.moved(old(self)),
                extends(old(self).compiler.errors@, self.compiler.errors@, file, s, acc),
                t.0 == self.read,
                acc == t.1,
            decreases self.chars@.len() + 1 - self.read,
        {
            proof {
                lemma_blank_trivia(s, self.read as nat);
                lemma_blank_end(s, self.read as nat);
            }
            self.skip_whitespace();
            let c = self.read();
            let n = self.peek();
            if c == '/' && n == '/' {
                self.skip_single_comment();
            } else if c == '/' && n == '*' {
                let ghost before = self.compiler.errors@;
                let ghost from = self.read as nat;
                let g = self.skip_multi_comment();
                proof {
                    lemma_extends_chain(
                        old(self).compiler.errors@,
                        before,
                        self.compiler.errors@,
                        file,
                        s,
                        acc,
                        g@,
                    );
                    assert(acc + g@ + trivia(s, self.read as nat, 0).1 =~= acc + (g@ + trivia(s, self.read as nat, 0).1));
                    acc = acc + g@;
                }
            } else {
                assert(acc + seq![] =~= acc);
                break;
            }
        }
        self.token_pos = self.current_pos;
        let ghost e1 = self.compiler.errors@;
        let ghost p = self.read as nat;
        let ghost st = lex(s, p);
        proof {
            lemma_ends_grow(s, p + 1);
            lemma_ends_grow(s, p + 2);
            lemma_multiline_grows(s, p + 2, false);
            lemma_ends_grow(s, p + 1);
            lemma_ends_grow(s, integral_end(s, p) + 1);
        }
        let c = self.read();
        let r = if is_alphabetical(c) {
            self.read_tag_keyword_mode()
        } else if is_integral(c) {
            self.read_number()
        } else if c == '"' {
            if self.peek() == '|' {
                self.read_multiline_string()
            } else {
                self.read_string()
            }
        } else if self.read >= self.chars.len() {
            proof {
                lemma_extends_none(e1, file, s);
            }
            Token::new(TokenType::Eof, self.compiler.input.clone(), self.token_pos)
        } else {
            let kind = match self.try_compound_operator() {
                Some(k) => k,
                None => {
                    self.advance(1);
                    TokenType::from_char(c)
                },
            };
            proof {
                lemma_extends_none(e1, file, s);
            }
            Token::new(kind, self.compiler.input.clone(), self.token_pos)
        };
        proof {
            lemma_extends_chain(old(self).compiler.errors@, e1, self.compiler.errors@, file, s, acc, st.diags);
        }
        r
    }

    /// Reads every token up to and including the first `Eof`.
    pub fn scan(&mut self) -> (r: Vec<Token>)
        requires
            old(self).wf(),
        ensures
            final(self).wf(),
            final(self).chars == old(self).chars,
            same_unit(&final(self).compiler, &old(self).compiler),
            follows(r@, stream(old(self).text(), old(self).read as nat), old(self).text(), old(self).compiler.input@),
            extends(
                old(self).compiler.errors@,
                final(self).compiler.errors@,
                old(self).compiler.input@,
                old(self).text(),
                all_diags(stream(old(self).text(), old(self).read as nat)),
            ),
    {
        let ghost s = self.text();
        let ghost file = self.compiler.input@;
        let ghost i0 = self.read as nat;
        let ghost mut done: Seq<(nat, Step)> = seq![];
        let mut tokens: Vec<Token> = Vec::new();
        proof {
            lemma_extends_none(old(self).compiler.errors@, file, s);
            assert(done + stream(s, i0) =~= stream(s, i0));
        }
        loop
            invariant_except_break
                done + stream(s, self.read as nat) == stream(s, i0),
            invariant
                self.wf(),
                self.chars == old(self).chars,
                same_unit(&self.compiler, &old(self).compiler),
                s == self.text(),
                file == self.compiler.input@,
                follows(tokens@, done, s, file),
                extends(old(self).compiler.errors@, self.compiler.errors@, file, s, all_diags(done)),
            ensures
                done == stream(s, i0),
            decreases s.len() + 2 - self.read,
        {
            let ghost i = self.read as nat;
            let ghost before = self.compiler.errors@;
            let ghost tk = token_from(s, i);
            let ghost done0 = done;
            let tok = self.next_token();
            let eof = tok.kind.is_eof();
            proof {
                lemma_extends_chain(old(self).compiler.errors@, before, self.compiler.errors@, file, s, all_diags(done), tk.1.diags);
                assert(done.push(tk).drop_last() =~= done);
                done = done.push(tk);
            }
            tokens.push(tok);
            if eof {
                assert(stream(s, i) == seq![tk]);
                break;
            }
            assert(stream(s, i) == seq![tk] + stream(s, self.read as nat));
            assert(done0 + stream(s, i) =~= done + stream(s, self.read as nat));
        }
        tokens
    }
}

} // verus!
