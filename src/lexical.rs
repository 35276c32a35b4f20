//! The lexical grammar: where each token of a text starts and ends, what
//! it holds, and which diagnostics it raises. The scanner is proved to
//! read what this model gives.

use vstd::prelude::*;

use crate::error::Error;
use crate::position::Position;
use crate::token::{Token, char_kind, compound_of, keyword_of, mode_of, TokenType};
use crate::utility::{alphabetical, digit, escape_of, integral};

verus! {

/// The character at `i`, or `'\0'` past either end of the text.
pub open spec fn char_at(s: Seq<char>, i: nat) -> char {
    if i < s.len() {
        s[i as int]
    } else {
        '\0'
    }
}

/// The line of the character at offset `i`: one more than the newlines before it.
pub open spec fn line_of(s: Seq<char>, i: nat) -> nat
    decreases i,
{
    if i == 0 {
        1
    } else if char_at(s, (i - 1) as nat) == '\n' {
        line_of(s, (i - 1) as nat) + 1
    } else {
        line_of(s, (i - 1) as nat)
    }
}

/// The column of the character at offset `i`: one more than the characters
/// between it and the newline before it.
pub open spec fn column_of(s: Seq<char>, i: nat) -> nat
    decreases i,
{
    if i == 0 {
        1
    } else if char_at(s, (i - 1) as nat) == '\n' {
        1
    } else {
        column_of(s, (i - 1) as nat) + 1
    }
}

/// Whether `p` is the position of offset `i` in `s`.
pub open spec fn at_pos(p: Position, s: Seq<char>, i: nat) -> bool {
    p.line == line_of(s, i) && p.column == column_of(s, i)
}

/// Whether `c` is skipped between tokens: a space or a tab.
pub open spec fn blank(c: char) -> bool {
    c == ' ' || c == '\t'
}

/// A diagnostic of the scanner: its message and the offset whose position it reports.
pub struct Diag {
    pub msg: Seq<char>,
    pub at: nat,
}

/// What a token holds, before its text becomes a `String`.
pub enum Lexeme {
    Word(Seq<char>),
    Int(Seq<char>),
    Flt(Seq<char>),
    Str(Seq<char>),
    Fixed(TokenType),
}

/// One token as the grammar reads it: what it holds, the offset after it,
/// and the diagnostics it raises.
pub struct Step {
    pub lexeme: Lexeme,
    pub end: nat,
    pub diags: Seq<Diag>,
}

/// Where the skip of blanks and comments that starts at `i` stops, and
/// what it reports. `mode` is 0 outside comments, 1 in a `//` comment and
/// 2 in a `/* */` comment. A `//` comment ends with the newline that
/// closes it.
pub open spec fn trivia(s: Seq<char>, i: nat, mode: nat) -> (nat, Seq<Diag>)
    decreases (if i <= s.len() { s.len() - i } else { 0 }), mode,
{
    let c = char_at(s, i);
    if mode == 1 {
        if c == '\n' {
            trivia(s, i + 1, 0)
        } else if i >= s.len() {
            trivia(s, i, 0)
        } else {
            trivia(s, i + 1, 1)
        }
    } else if mode == 2 {
        if i >= s.len() {
            (i, seq![Diag { msg: "Unterminated multiline comment"@, at: i }])
        } else if c == '*' && char_at(s, i + 1) == '/' {
            trivia(s, i + 2, 0)
        } else {
            trivia(s, i + 1, 2)
        }
    } else if blank(c) {
        trivia(s, i + 1, 0)
    } else if c == '/' && char_at(s, i + 1) == '/' {
        trivia(s, i + 2, 1)
    } else if c == '/' && char_at(s, i + 1) == '*' {
        trivia(s, i + 2, 2)
    } else {
        (i, seq![])
    }
}

/// Where a `/* */` comment whose body starts at `i` stops, and whether it
/// was closed: just past the first `*/`, else at the end of the input.
pub open spec fn comment_end(s: Seq<char>, i: nat) -> (nat, bool)
    decreases s.len() - i,
{
    if i >= s.len() {
        (i, false)
    } else if s[i as int] == '*' && char_at(s, i + 1) == '/' {
        (i + 2, true)
    } else {
        comment_end(s, i + 1)
    }
}

/// The end of the run of blanks that starts at `i`.
pub open spec fn blank_end(s: Seq<char>, i: nat) -> nat
    decreases s.len() - i,
{
    if i < s.len() && blank(s[i as int]) {
        blank_end(s, i + 1)
    } else {
        i
    }
}

/// The end of the run of letters, digits and `_` that starts at `i`.
pub open spec fn word_end(s: Seq<char>, i: nat) -> nat
    decreases s.len() - i,
{
    if i < s.len() && (alphabetical(s[i as int]) || integral(s[i as int])) {
        word_end(s, i + 1)
    } else {
        i
    }
}

/// The end of the run of digits and `_` that starts at `i`.
pub open spec fn integral_end(s: Seq<char>, i: nat) -> nat
    decreases s.len() - i,
{
    if i < s.len() && integral(s[i as int]) {
        integral_end(s, i + 1)
    } else {
        i
    }
}

/// The operator at `p` and its length: the longest spelling of the
/// operator table that the text holds there, else the one character's kind.
pub open spec fn operator_at(s: Seq<char>, p: nat) -> (TokenType, nat) {
    if p + 3 <= s.len() && compound_of(s.subrange(p as int, p + 3 as int)) is Some {
        (compound_of(s.subrange(p as int, p + 3 as int))->0, 3)
    } else if p + 2 <= s.len() && compound_of(s.subrange(p as int, p + 2 as int)) is Some {
        (compound_of(s.subrange(p as int, p + 2 as int))->0, 2)
    } else {
        (char_kind(char_at(s, p)), 1)
    }
}

/// Whether a backslash at `i` keeps the next character with it in the raw
/// text of a string, so that it neither closes the string nor is read twice.
pub open spec fn kept_pair(s: Seq<char>, i: nat) -> bool {
    char_at(s, i) == '\\' && (char_at(s, i + 1) == '"' || char_at(s, i + 1) == '\\')
}

/// The raw text of a one-line string whose body starts at `i`, and the
/// offset where it stops: the closing quote or the end of the input.
pub open spec fn string_body(s: Seq<char>, i: nat) -> (Seq<char>, nat)
    decreases s.len() - i,
{
    if i >= s.len() || s[i as int] == '"' {
        (seq![], i)
    } else if kept_pair(s, i) {
        let rest = string_body(s, i + 2);
        (seq![s[i as int], s[i + 1 as int]] + rest.0, rest.1)
    } else {
        let rest = string_body(s, i + 1);
        (seq![s[i as int]] + rest.0, rest.1)
    }
}

/// The raw text of a multi-line string from `i`, the offset where it
/// stops, and the offsets of lines that lack their leading `|`. At a line
/// start (`fresh`) blanks are skipped and a `|` is taken as the margin.
pub open spec fn multiline_body(s: Seq<char>, i: nat, fresh: bool) -> (Seq<char>, nat, Seq<nat>)
    decreases (if i <= s.len() { s.len() - i } else { 0 }), (if fresh { 1int } else { 0int }),
{
    let c = char_at(s, i);
    if fresh {
        if blank(c) {
            multiline_body(s, i + 1, true)
        } else if c == '|' {
            multiline_body(s, i + 1, false)
        } else if c == '"' {
            (seq![], i, seq![])
        } else {
            let rest = multiline_body(s, i, false);
            (rest.0, rest.1, seq![i] + rest.2)
        }
    } else if c == '"' || i >= s.len() {
        (seq![], i, seq![])
    } else if c == '\\' && char_at(s, i + 1) == '|' {
        let rest = multiline_body(s, i + 2, false);
        (seq!['|'] + rest.0, rest.1, rest.2)
    } else if kept_pair(s, i) {
        let rest = multiline_body(s, i + 2, false);
        (seq![c, char_at(s, i + 1)] + rest.0, rest.1, rest.2)
    } else if c == '\n' {
        let rest = multiline_body(s, i + 1, true);
        (seq!['\n'] + rest.0, rest.1, rest.2)
    } else {
        let rest = multiline_body(s, i + 1, false);
        (seq![c] + rest.0, rest.1, rest.2)
    }
}

/// The message for a backslash at the head of `r` that starts no known escape.
pub open spec fn escape_fault(r: Seq<char>) -> Seq<char> {
    if r.len() >= 2 {
        "Unrecognized escape character: \\"@.push(r[1])
    } else {
        "Unterminated escape character"@
    }
}

/// Whether `r` starts with a known escape sequence.
pub open spec fn starts_escape(r: Seq<char>) -> bool {
    r.len() >= 2 && r[0] == '\\' && escape_of(r[1]) is Some
}

/// The value of the raw string text `r`: each known escape sequence is
/// replaced by its character; any other backslash stays as it is.
pub open spec fn unescape(r: Seq<char>) -> Seq<char>
    decreases r.len(),
{
    if r.len() == 0 {
        seq![]
    } else if starts_escape(r) {
        seq![escape_of(r[1])->0] + unescape(r.subrange(2, r.len() as int))
    } else {
        seq![r[0]] + unescape(r.subrange(1, r.len() as int))
    }
}

/// The messages for the backslashes of `r` that start no known escape, in order.
pub open spec fn escape_faults(r: Seq<char>) -> Seq<Seq<char>>
    decreases r.len(),
{
    if r.len() == 0 {
        seq![]
    } else if starts_escape(r) {
        escape_faults(r.subrange(2, r.len() as int))
    } else if r[0] == '\\' {
        seq![escape_fault(r)] + escape_faults(r.subrange(1, r.len() as int))
    } else {
        escape_faults(r.subrange(1, r.len() as int))
    }
}

/// The diagnostic with message `m` raised at offset `at`.
pub open spec fn diag_at(at: nat) -> spec_fn(Seq<char>) -> Diag {
    |m: Seq<char>| Diag { msg: m, at }
}

/// The diagnostic for a line of a multi-line string that lacks its `|`.
pub open spec fn missing_margin() -> spec_fn(nat) -> Diag {
    |j: nat| Diag { msg: "Missing start of line delimiter '|'"@, at: j }
}

/// The message for a string that the input ends inside.
pub open spec fn unterminated_message(multiline: bool) -> Seq<char> {
    if multiline {
        "Unterminated multiline string literal"@
    } else {
        "Unterminated string literal"@
    }
}

/// The diagnostics that close a string whose body stopped at `k` with raw
/// text `raw`: one if no quote closed it, then one per faulty escape, all
/// reported just after the string.
pub open spec fn closing_diags(s: Seq<char>, raw: Seq<char>, k: nat, multiline: bool) -> Seq<Diag> {
    let unterminated: Seq<Diag> = if char_at(s, k) == '"' {
        seq![]
    } else {
        seq![Diag { msg: unterminated_message(multiline), at: k + 1 }]
    };
    unterminated + escape_faults(raw).map_values(diag_at(k + 1))
}

/// The string token that starts with the quote at `p`.
pub open spec fn string_at(s: Seq<char>, p: nat) -> Step {
    if char_at(s, p + 1) == '|' {
        let b = multiline_body(s, p + 2, false);
        Step {
            lexeme: Lexeme::Str(unescape(b.0)),
            end: b.1 + 1,
            diags: b.2.map_values(missing_margin()) + closing_diags(s, b.0, b.1, true),
        }
    } else {
        let b = string_body(s, p + 1);
        Step { lexeme: Lexeme::Str(unescape(b.0)), end: b.1 + 1, diags: closing_diags(s, b.0, b.1, false) }
    }
}

/// The token that starts at `p`, where no blank or comment starts.
pub open spec fn lex(s: Seq<char>, p: nat) -> Step {
    let c = char_at(s, p);
    if alphabetical(c) {
        let e = word_end(s, p);
        Step { lexeme: Lexeme::Word(s.subrange(p as int, e as int)), end: e, diags: seq![] }
    } else if integral(c) {
        let q = integral_end(s, p);
        if char_at(s, q) == '.' && digit(char_at(s, q + 1)) {
            let e = integral_end(s, q + 1);
            Step { lexeme: Lexeme::Flt(s.subrange(p as int, e as int)), end: e, diags: seq![] }
        } else {
            Step { lexeme: Lexeme::Int(s.subrange(p as int, q as int)), end: q, diags: seq![] }
        }
    } else if c == '"' {
        string_at(s, p)
    } else if p >= s.len() {
        Step { lexeme: Lexeme::Fixed(TokenType::Eof), end: p, diags: seq![] }
    } else {
        let op = operator_at(s, p);
        Step { lexeme: Lexeme::Fixed(op.0), end: p + op.1, diags: seq![] }
    }
}

/// The token read from offset `i`: the offset where it starts, past blanks
/// and comments, and the step, whose diagnostics include those of the skip.
pub open spec fn token_from(s: Seq<char>, i: nat) -> (nat, Step) {
    let t = trivia(s, i, 0);
    let st = lex(s, t.0);
    (t.0, Step { lexeme: st.lexeme, end: st.end, diags: t.1 + st.diags })
}

/// The tokens read from offset `i` up to and including the first `Eof`.
/// (A step that does not move forward within the text also ends it; the
/// scanner never takes one.)
pub open spec fn stream(s: Seq<char>, i: nat) -> Seq<(nat, Step)>
    decreases s.len() + 2 - i,
{
    let tk = token_from(s, i);
    if tk.1.lexeme == Lexeme::Fixed(TokenType::Eof) || tk.1.end <= i || tk.1.end > s.len() + 1 {
        seq![tk]
    } else {
        seq![tk] + stream(s, tk.1.end)
    }
}

/// The diagnostics of the steps `st`, in order.
pub open spec fn all_diags(st: Seq<(nat, Step)>) -> Seq<Diag>
    decreases st.len(),
{
    if st.len() == 0 {
        seq![]
    } else {
        all_diags(st.drop_last()) + st.last().1.diags
    }
}

/// Whether the tokens `toks` of the unit `file` are the steps `st`: same
/// number, each of the kind its step gives, at the position where it starts.
pub open spec fn follows(toks: Seq<Token>, st: Seq<(nat, Step)>, s: Seq<char>, file: Seq<char>) -> bool {
    &&& toks.len() == st.len()
    &&& forall|k: int|
        0 <= k < st.len() ==> {
            &&& kind_of(#[trigger] toks[k].kind, st[k].1.lexeme)
            &&& at_pos(toks[k].pos, s, st[k].0)
            &&& toks[k].file@ == file
        }
}

/// Whether the token kind `k` is what the lexeme `x` gives: a word is a
/// keyword, else a mode, else a tag.
pub open spec fn kind_of(k: TokenType, x: Lexeme) -> bool {
    match x {
        Lexeme::Word(w) => match keyword_of(w) {
            Some(kw) => k == TokenType::Keyword(kw),
            None => match mode_of(w) {
                Some(m) => k == TokenType::Mode(m),
                None => k is Tag && k->Tag_0@ == w,
            },
        },
        Lexeme::Int(t) => k is Integer && k->Integer_0@ == t,
        Lexeme::Flt(t) => k is Float && k->Float_0@ == t,
        Lexeme::Str(t) => k is String && k->String_0@ == t,
        Lexeme::Fixed(t) => k == t,
    }
}

/// Whether `e` is the error that reports `d` for the unit `file` of text `s`.
pub open spec fn reports(e: Error, file: Seq<char>, s: Seq<char>, d: Diag) -> bool {
    &&& e.file@ == file
    &&& e.kind@ == "Scanning error"@
    &&& e.msg@ == d.msg
    &&& at_pos(e.pos, s, d.at)
}

/// Whether `now` is `before` followed by one error reporting each of `ds`, in order.
pub open spec fn extends(before: Seq<Error>, now: Seq<Error>, file: Seq<char>, s: Seq<char>, ds: Seq<Diag>) -> bool {
    &&& now.len() == before.len() + ds.len()
    &&& now.subrange(0, before.len() as int) == before
    &&& forall|k: int| 0 <= k < ds.len() ==> reports(#[trigger] now[before.len() + k], file, s, ds[k])
}

/// Skipping blanks and comments from `i` or from the end of the blank run
/// at `i` comes to the same.
pub proof fn lemma_blank_trivia(s: Seq<char>, i: nat)
    ensures
        trivia(s, blank_end(s, i), 0) == trivia(s, i, 0),
    decreases s.len() - i,
{
    if i < s.len() && blank(s[i as int]) {
        lemma_blank_trivia(s, i + 1);
    }
}

/// The blank run at `i` ends at or after `i`, within the text if `i` is,
/// and on a character that is no blank.
pub proof fn lemma_blank_end(s: Seq<char>, i: nat)
    ensures
        i <= blank_end(s, i),
        i <= s.len() ==> blank_end(s, i) <= s.len(),
        !blank(char_at(s, blank_end(s, i))),
    decreases s.len() - i,
{
    if i < s.len() && blank(s[i as int]) {
        lemma_blank_end(s, i + 1);
    }
}

/// Words, integral runs and one-line string bodies end at or after where
/// they start.
pub proof fn lemma_ends_grow(s: Seq<char>, i: nat)
    ensures
        word_end(s, i) >= i,
        integral_end(s, i) >= i,
        string_body(s, i).1 >= i,
    decreases s.len() - i,
{
    if i < s.len() {
        lemma_ends_grow(s, i + 1);
        if i + 2 <= s.len() {
            lemma_ends_grow(s, i + 2);
        }
    }
}

/// A multi-line string body ends at or after where it starts.
pub proof fn lemma_multiline_grows(s: Seq<char>, i: nat, fresh: bool)
    ensures
        multiline_body(s, i, fresh).1 >= i,
    decreases (if i <= s.len() { s.len() - i } else { 0 }), (if fresh { 1int } else { 0int }),
{
    let c = char_at(s, i);
    if fresh {
        if blank(c) || c == '|' {
            lemma_multiline_grows(s, i + 1, c == ' ' || c == '\t');
        } else if c != '"' {
            lemma_multiline_grows(s, i, false);
        }
    } else if c == '"' || i >= s.len() {
    } else if c == '\\' && (char_at(s, i + 1) == '|' || char_at(s, i + 1) == '"' || char_at(s, i + 1) == '\\') {
        lemma_multiline_grows(s, i + 2, false);
    } else {
        lemma_multiline_grows(s, i + 1, c == '\n');
    }
}

} // verus!
