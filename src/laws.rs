//! Properties of the lexical grammar: which token an operator character
//! makes, longest match, and that blanks and comments between tokens do not
//! change what is read.

use vstd::prelude::*;

use crate::lexical::{
    blank, blank_end, char_at, column_of, integral_end, lemma_blank_end, lemma_ends_grow, lemma_multiline_grows, lex, line_of,
    multiline_body, operator_at, string_body, stream, token_from, trivia, word_end, Lexeme, Step,
};
use crate::grammar::{atom_rel, climb_rel, expr_rel, fixed_kind, infix_rel, is_at, lx_at, prec_at, prefix_rel, split};
use crate::lexical::kind_of;
use crate::ast::Expression;
use crate::parser::{atom_of, rank, Precedence};
use crate::token::{char_kind, compound_of, TokenType};
use crate::utility::{alphabetical, integral};

verus! {

/// The skip of blanks and comments ends at or after where it starts.
pub proof fn lemma_trivia_grows(s: Seq<char>, i: nat, mode: nat)
    ensures
        trivia(s, i, mode).0 >= i,
    decreases (if i <= s.len() { s.len() - i } else { 0 }), mode,
{
    let c = char_at(s, i);
    if mode == 1 {
        if c == '\n' {
            lemma_trivia_grows(s, i + 1, 0);
        } else if i >= s.len() {
            lemma_trivia_grows(s, i, 0);
        } else {
            lemma_trivia_grows(s, i + 1, 1);
        }
    } else if mode == 2 {
        if i >= s.len() {
        } else if c == '*' && char_at(s, i + 1) == '/' {
            lemma_trivia_grows(s, i + 2, 0);
        } else {
            lemma_trivia_grows(s, i + 1, 2);
        }
    } else if c == ' ' || c == '\t' {
        lemma_trivia_grows(s, i + 1, 0);
    } else if c == '/' && char_at(s, i + 1) == '/' {
        lemma_trivia_grows(s, i + 2, 1);
    } else if c == '/' && char_at(s, i + 1) == '*' {
        lemma_trivia_grows(s, i + 2, 2);
    }
}

/// Every token but `Eof` ends after where it starts.
pub proof fn lemma_lex_moves(s: Seq<char>, p: nat)
    ensures
        lex(s, p).lexeme != Lexeme::Fixed(TokenType::Eof) ==> lex(s, p).end > p,
{
    lemma_ends_grow(s, p + 1);
    lemma_ends_grow(s, p + 2);
    lemma_multiline_grows(s, p + 2, false);
    lemma_ends_grow(s, crate::lexical::integral_end(s, p) + 1);
}

/// Two offsets from which the skip of blanks and comments comes to the
/// same place and reports the same give the same tokens.
proof fn lemma_same_stream(s: Seq<char>, i: nat, j: nat)
    requires
        i <= j,
        trivia(s, i, 0) == trivia(s, j, 0),
    ensures
        stream(s, i) == stream(s, j),
{
    lemma_trivia_grows(s, j, 0);
    lemma_lex_moves(s, trivia(s, j, 0).0);
    assert(token_from(s, i) == token_from(s, j));
}

/// A character that makes an operator alone, at a place where the text
/// spells no longer operator of the table, is read as one token of that
/// character's kind, and the scanner moves one column on.
pub proof fn single_character_operator(s: Seq<char>, p: nat)
    requires
        p < s.len(),
        !alphabetical(s[p as int]),
        !integral(s[p as int]),
        s[p as int] != '"',
        s[p as int] != '\n',
        !(p + 2 <= s.len() && compound_of(s.subrange(p as int, p + 2 as int)) is Some),
        !(p + 3 <= s.len() && compound_of(s.subrange(p as int, p + 3 as int)) is Some),
    ensures
        lex(s, p) == (Step { lexeme: Lexeme::Fixed(char_kind(s[p as int])), end: p + 1, diags: seq![] }),
        line_of(s, p + 1) == line_of(s, p),
        column_of(s, p + 1) == column_of(s, p) + 1,
{
}

/// Where the operator table spells operators of several lengths, the
/// scanner takes the longest: three characters over two, two over one.
pub proof fn longest_match(s: Seq<char>, p: nat)
    requires
        p < s.len(),
        !alphabetical(s[p as int]),
        !integral(s[p as int]),
        s[p as int] != '"',
    ensures
        p + 3 <= s.len() && compound_of(s.subrange(p as int, p + 3 as int)) is Some ==> lex(s, p) == (Step {
            lexeme: Lexeme::Fixed(compound_of(s.subrange(p as int, p + 3 as int))->0),
            end: p + 3,
            diags: seq![],
        }),
        !(p + 3 <= s.len() && compound_of(s.subrange(p as int, p + 3 as int)) is Some) && p + 2 <= s.len()
            && compound_of(s.subrange(p as int, p + 2 as int)) is Some ==> lex(s, p) == (Step {
            lexeme: Lexeme::Fixed(compound_of(s.subrange(p as int, p + 2 as int))->0),
            end: p + 2,
            diags: seq![],
        }),
{
}

/// Blanks between tokens do not change what is read: from anywhere in a
/// run of spaces and tabs the scanner reads the same tokens, at the same
/// places, with the same diagnostics.
pub proof fn blanks_are_skipped(s: Seq<char>, i: nat, j: nat)
    requires
        i <= j <= blank_end(s, i),
    ensures
        stream(s, i) == stream(s, j),
    decreases j - i,
{
    if i < j {
        assert(trivia(s, i, 0) == trivia(s, i + 1, 0));
        blanks_are_skipped(s, i + 1, j);
        lemma_same_stream(s, i, i + 1);
    }
}

proof fn lemma_line_comment_rest(s: Seq<char>, k: nat, j: nat)
    requires
        k < j,
        char_at(s, (j - 1) as nat) == '\n',
        forall|m: nat| k <= m < j - 1 ==> char_at(s, m) != '\n',
    ensures
        trivia(s, k, 1) == trivia(s, j, 0),
    decreases j - k,
{
    if k + 1 < j {
        lemma_line_comment_rest(s, k + 1, j);
    }
}

/// A `//` comment and the newline that ends it are transparent: the
/// tokens read from where the comment starts are those read from the line
/// after it.
pub proof fn line_comment_is_skipped(s: Seq<char>, i: nat, j: nat)
    requires
        char_at(s, i) == '/',
        char_at(s, i + 1) == '/',
        i + 2 < j,
        char_at(s, (j - 1) as nat) == '\n',
        forall|m: nat| i + 2 <= m < j - 1 ==> char_at(s, m) != '\n',
    ensures
        stream(s, i) == stream(s, j),
{
    lemma_line_comment_rest(s, i + 2, j);
    assert(trivia(s, i, 0) == trivia(s, i + 2, 1));
    lemma_same_stream(s, i, j);
}

/// Whether the text `s1` from offset `a1` on is the text `s2` from `a2` on.
pub open spec fn same_rest(s1: Seq<char>, a1: nat, s2: Seq<char>, a2: nat) -> bool {
    &&& a1 <= s1.len()
    &&& a2 <= s2.len()
    &&& s1.subrange(a1 as int, s1.len() as int) == s2.subrange(a2 as int, s2.len() as int)
}

/// Whether two runs of tokens hold the same number of tokens, of the same kinds.
pub open spec fn same_kinds(t1: Seq<(nat, Step)>, t2: Seq<(nat, Step)>) -> bool {
    &&& t1.len() == t2.len()
    &&& forall|k: int| 0 <= k < t1.len() ==> #[trigger] t1[k].1.lexeme == t2[k].1.lexeme
}

proof fn lemma_rest_char(s1: Seq<char>, a1: nat, s2: Seq<char>, a2: nat, k: nat)
    requires
        same_rest(s1, a1, s2, a2),
    ensures
        char_at(s1, a1 + k) == char_at(s2, a2 + k),
        (a1 + k < s1.len()) == (a2 + k < s2.len()),
{
    let r = s1.subrange(a1 as int, s1.len() as int);
    assert(r.len() == s2.len() - a2);
    if a1 + k < s1.len() {
        assert(s1[(a1 + k) as int] == r[k as int]);
        assert(s2[(a2 + k) as int] == s2.subrange(a2 as int, s2.len() as int)[k as int]);
    }
}

proof fn lemma_rest_subrange(s1: Seq<char>, a1: nat, s2: Seq<char>, a2: nat, p: nat, e: nat)
    requires
        same_rest(s1, a1, s2, a2),
        p <= e,
        a1 + e <= s1.len(),
    ensures
        s1.subrange((a1 + p) as int, (a1 + e) as int) == s2.subrange((a2 + p) as int, (a2 + e) as int),
{
    lemma_rest_len(s1, a1, s2, a2);
    assert forall|t: int| 0 <= t < e - p implies #[trigger] s1.subrange((a1 + p) as int, (a1 + e) as int)[t]
        == s2.subrange((a2 + p) as int, (a2 + e) as int)[t] by {
        lemma_rest_char(s1, a1, s2, a2, (p + t) as nat);
        assert(char_at(s1, (a1 + p + t) as nat) == s1[a1 + p + t]);
        assert(char_at(s2, (a2 + p + t) as nat) == s2[a2 + p + t]);
    }
    assert(s1.subrange((a1 + p) as int, (a1 + e) as int) =~= s2.subrange((a2 + p) as int, (a2 + e) as int));
}

proof fn lemma_rest_len(s1: Seq<char>, a1: nat, s2: Seq<char>, a2: nat)
    requires
        same_rest(s1, a1, s2, a2),
    ensures
        s1.len() - a1 == s2.len() - a2,
{
    assert(s1.subrange(a1 as int, s1.len() as int).len() == s2.subrange(a2 as int, s2.len() as int).len());
}

proof fn lemma_trivia_shift(s1: Seq<char>, a1: nat, s2: Seq<char>, a2: nat, k: nat, mode: nat)
    requires
        same_rest(s1, a1, s2, a2),
    ensures
        trivia(s1, a1 + k, mode).0 + a2 == trivia(s2, a2 + k, mode).0 + a1,
    decreases (if a1 + k <= s1.len() { s1.len() - (a1 + k) } else { 0 }), mode,
{
    lemma_rest_char(s1, a1, s2, a2, k);
    lemma_rest_char(s1, a1, s2, a2, k + 1);
    let c = char_at(s1, a1 + k);
    if mode == 1 {
        if c == '\n' {
            lemma_trivia_shift(s1, a1, s2, a2, k + 1, 0);
        } else if a1 + k >= s1.len() {
            lemma_trivia_shift(s1, a1, s2, a2, k, 0);
        } else {
            lemma_trivia_shift(s1, a1, s2, a2, k + 1, 1);
        }
    } else if mode == 2 {
        if a1 + k >= s1.len() {
        } else if c == '*' && char_at(s1, a1 + k + 1) == '/' {
            lemma_trivia_shift(s1, a1, s2, a2, k + 2, 0);
        } else {
            lemma_trivia_shift(s1, a1, s2, a2, k + 1, 2);
        }
    } else if blank(c) {
        lemma_trivia_shift(s1, a1, s2, a2, k + 1, 0);
    } else if c == '/' && char_at(s1, a1 + k + 1) == '/' {
        lemma_trivia_shift(s1, a1, s2, a2, k + 2, 1);
    } else if c == '/' && char_at(s1, a1 + k + 1) == '*' {
        lemma_trivia_shift(s1, a1, s2, a2, k + 2, 2);
    }
}

proof fn lemma_runs_shift(s1: Seq<char>, a1: nat, s2: Seq<char>, a2: nat, k: nat)
    requires
        same_rest(s1, a1, s2, a2),
    ensures
        word_end(s1, a1 + k) + a2 == word_end(s2, a2 + k) + a1,
        integral_end(s1, a1 + k) + a2 == integral_end(s2, a2 + k) + a1,
        a1 + k <= s1.len() ==> word_end(s1, a1 + k) <= s1.len() && integral_end(s1, a1 + k) <= s1.len(),
        string_body(s1, a1 + k).0 == string_body(s2, a2 + k).0,
        string_body(s1, a1 + k).1 + a2 == string_body(s2, a2 + k).1 + a1,
    decreases s1.len() - (a1 + k),
{
    lemma_rest_char(s1, a1, s2, a2, k);
    lemma_rest_char(s1, a1, s2, a2, k + 1);
    if a1 + k < s1.len() {
        lemma_runs_shift(s1, a1, s2, a2, k + 1);
        if a1 + k + 1 < s1.len() {
            lemma_runs_shift(s1, a1, s2, a2, k + 2);
        }
        assert(s1[a1 + k as int] == char_at(s1, a1 + k));
        assert(s2[a2 + k as int] == char_at(s2, a2 + k));
        assert(a1 + k + 1 >= s1.len() || s1[(a1 + k + 1) as int] == char_at(s1, a1 + k + 1));
    }
}

proof fn lemma_multiline_shift(s1: Seq<char>, a1: nat, s2: Seq<char>, a2: nat, k: nat, fresh: bool)
    requires
        same_rest(s1, a1, s2, a2),
    ensures
        multiline_body(s1, a1 + k, fresh).0 == multiline_body(s2, a2 + k, fresh).0,
        multiline_body(s1, a1 + k, fresh).1 + a2 == multiline_body(s2, a2 + k, fresh).1 + a1,
    decreases (if a1 + k <= s1.len() { s1.len() - (a1 + k) } else { 0 }), (if fresh { 1int } else { 0int }),
{
    lemma_rest_char(s1, a1, s2, a2, k);
    lemma_rest_char(s1, a1, s2, a2, k + 1);
    let c = char_at(s1, a1 + k);
    if fresh {
        if blank(c) {
            lemma_multiline_shift(s1, a1, s2, a2, k + 1, true);
        } else if c == '|' {
            lemma_multiline_shift(s1, a1, s2, a2, k + 1, false);
        } else if c != '"' {
            lemma_multiline_shift(s1, a1, s2, a2, k, false);
        }
    } else if c == '"' || a1 + k >= s1.len() {
    } else if c == '\\' && (char_at(s1, a1 + k + 1) == '|' || char_at(s1, a1 + k + 1) == '"' || char_at(
        s1,
        a1 + k + 1,
    ) == '\\') {
        lemma_multiline_shift(s1, a1, s2, a2, k + 2, false);
    } else {
        lemma_multiline_shift(s1, a1, s2, a2, k + 1, c == '\n');
    }
}

proof fn lemma_lex_shift(s1: Seq<char>, a1: nat, s2: Seq<char>, a2: nat, k: nat)
    requires
        same_rest(s1, a1, s2, a2),
    ensures
        lex(s1, a1 + k).lexeme == lex(s2, a2 + k).lexeme,
        lex(s1, a1 + k).end + a2 == lex(s2, a2 + k).end + a1,
{
    let start1 = a1 + k;
    let start2 = a2 + k;
    lemma_rest_char(s1, a1, s2, a2, k);
    lemma_rest_char(s1, a1, s2, a2, k + 1);
    lemma_rest_char(s1, a1, s2, a2, k + 2);
    lemma_runs_shift(s1, a1, s2, a2, k);
    lemma_runs_shift(s1, a1, s2, a2, k + 1);
    lemma_multiline_shift(s1, a1, s2, a2, k + 2, false);
    lemma_ends_grow(s1, start1);
    lemma_ends_grow(s1, start1 + 1);
    let c = char_at(s1, start1);
    if alphabetical(c) {
        lemma_rest_subrange(s1, a1, s2, a2, k, (word_end(s1, start1) - a1) as nat);
    } else if integral(c) {
        let q = integral_end(s1, start1);
        let qk = (q - a1) as nat;
        lemma_ends_grow(s1, q + 1);
        lemma_rest_char(s1, a1, s2, a2, qk);
        lemma_rest_char(s1, a1, s2, a2, qk + 1);
        lemma_runs_shift(s1, a1, s2, a2, qk + 1);
        lemma_rest_subrange(s1, a1, s2, a2, k, qk);
        if char_at(s1, q) == '.' {
            lemma_rest_subrange(s1, a1, s2, a2, k, (integral_end(s1, q + 1) - a1) as nat);
        }
    } else if c != '"' && start1 < s1.len() {
        if start1 + 3 <= s1.len() {
            lemma_rest_subrange(s1, a1, s2, a2, k, k + 3);
        }
        if start1 + 2 <= s1.len() {
            lemma_rest_subrange(s1, a1, s2, a2, k, k + 2);
        }
        assert(operator_at(s1, start1) == operator_at(s2, start2));
    }
}

proof fn lemma_stream_shift(s1: Seq<char>, a1: nat, s2: Seq<char>, a2: nat, k: nat)
    requires
        same_rest(s1, a1, s2, a2),
    ensures
        same_kinds(stream(s1, a1 + k), stream(s2, a2 + k)),
    decreases s1.len() + 2 - (a1 + k),
{
    lemma_rest_len(s1, a1, s2, a2);
    lemma_trivia_shift(s1, a1, s2, a2, k, 0);
    lemma_trivia_grows(s1, a1 + k, 0);
    let start1 = trivia(s1, a1 + k, 0).0;
    let kp = (start1 - a1) as nat;
    lemma_lex_shift(s1, a1, s2, a2, kp);
    let t1 = token_from(s1, a1 + k);
    let t2 = token_from(s2, a2 + k);
    assert(t1.1.lexeme == t2.1.lexeme);
    if t1.1.lexeme == Lexeme::Fixed(TokenType::Eof) || t1.1.end <= a1 + k || t1.1.end > s1.len() + 1 {
        assert(stream(s1, a1 + k) == seq![t1]);
        assert(stream(s2, a2 + k) == seq![t2]);
    } else {
        let ke = (t1.1.end - a1) as nat;
        lemma_stream_shift(s1, a1, s2, a2, ke);
        let r1 = stream(s1, a1 + ke);
        let r2 = stream(s2, a2 + ke);
        assert(stream(s1, a1 + k) == seq![t1] + r1);
        assert(stream(s2, a2 + k) == seq![t2] + r2);
        assert forall|j: int| 0 <= j < (seq![t1] + r1).len() implies #[trigger] (seq![t1] + r1)[j].1.lexeme == (seq![
            t2,
        ] + r2)[j].1.lexeme by {
            if j > 0 {
                assert((seq![t1] + r1)[j] == r1[j - 1]);
                assert((seq![t2] + r2)[j] == r2[j - 1]);
            }
        }
    }
}

proof fn lemma_blank_run_end(w: Seq<char>, x: Seq<char>, y: Seq<char>, k: nat)
    requires
        forall|m: int| 0 <= m < w.len() ==> blank(#[trigger] w[m]),
        k <= w.len(),
    ensures
        blank_end(x + w + y, x.len() + k) == blank_end(x + w + y, x.len() + w.len()),
    decreases w.len() - k,
{
    if k < w.len() {
        assert((x + w + y)[(x.len() + k) as int] == w[k as int]);
        lemma_blank_run_end(w, x, y, k + 1);
    }
}

proof fn lemma_suffix(x: Seq<char>, w: Seq<char>, y: Seq<char>)
    ensures
        same_rest(x + w + y, x.len() + w.len(), y, 0),
{
    assert((x + w + y).subrange((x.len() + w.len()) as int, (x + w + y).len() as int) =~= y);
    assert(y.subrange(0, y.len() as int) =~= y);
}

/// Blanks between tokens do not change their kinds, however many there
/// are: from where a run of spaces and tabs starts, a text reads as many
/// tokens, of the same kinds, as the same text with any other such run
/// in its place.
pub proof fn blank_runs_do_not_change_kinds(x: Seq<char>, w1: Seq<char>, w2: Seq<char>, y: Seq<char>)
    requires
        forall|m: int| 0 <= m < w1.len() ==> blank(#[trigger] w1[m]),
        forall|m: int| 0 <= m < w2.len() ==> blank(#[trigger] w2[m]),
    ensures
        same_kinds(stream(x + w1 + y, x.len()), stream(x + w2 + y, x.len())),
{
    let s1 = x + w1 + y;
    let s2 = x + w2 + y;
    lemma_blank_run_end(w1, x, y, 0);
    lemma_blank_run_end(w2, x, y, 0);
    lemma_blank_end_covers(s1, x.len(), w1.len());
    lemma_blank_end_covers(s2, x.len(), w2.len());
    blanks_are_skipped(s1, x.len(), x.len() + w1.len());
    blanks_are_skipped(s2, x.len(), x.len() + w2.len());
    lemma_suffix(x, w1, y);
    lemma_suffix(x, w2, y);
    lemma_stream_shift(s1, x.len() + w1.len(), s2, x.len() + w2.len(), 0);
}

proof fn lemma_blank_end_covers(s: Seq<char>, i: nat, n: nat)
    requires
        i + n <= s.len(),
        forall|m: int| i <= m < i + n ==> blank(#[trigger] s[m]),
    ensures
        i + n <= blank_end(s, i),
    decreases n,
{
    if n > 0 {
        assert(blank(s[i as int]));
        lemma_blank_end_covers(s, i + 1, (n - 1) as nat);
    } else {
        lemma_blank_end(s, i);
    }
}

/// A `//` comment, with the newline that ends it, does not change the
/// kinds of the tokens that follow: from where it starts, a text reads as
/// many tokens, of the same kinds, as the same text without it.
pub proof fn line_comments_do_not_change_kinds(x: Seq<char>, c: Seq<char>, y: Seq<char>)
    requires
        forall|m: int| 0 <= m < c.len() ==> #[trigger] c[m] != '\n',
    ensures
        same_kinds(stream(x + (seq!['/', '/'] + c + seq!['\n']) + y, x.len()), stream(x + y, x.len())),
{
    let comment = seq!['/', '/'] + c + seq!['\n'];
    let s1 = x + comment + y;
    let i = x.len();
    let j = x.len() + comment.len();
    assert(char_at(s1, i) == '/') by {
        assert(s1[i as int] == comment[0]);
    }
    assert(char_at(s1, i + 1) == '/') by {
        assert(s1[(i + 1) as int] == comment[1]);
    }
    assert(char_at(s1, (j - 1) as nat) == '\n') by {
        assert(s1[(j - 1) as int] == comment[comment.len() - 1]);
    }
    assert forall|m: nat| i + 2 <= m < j - 1 implies char_at(s1, m) != '\n' by {
        assert(s1[m as int] == comment[m - i]);
        assert(comment[m - i] == c[(m - i - 2) as int]);
    }
    line_comment_is_skipped(s1, i, j);
    assert(s1.subrange(j as int, s1.len() as int) =~= y);
    assert((x + y).subrange(x.len() as int, (x + y).len() as int) =~= y);
    lemma_stream_shift(s1, j, x + y, x.len(), 0);
}

/// In the tokens read from any offset, only the last is `Eof`.
pub proof fn lemma_eof_last(s: Seq<char>, i: nat)
    ensures
        stream(s, i).len() >= 1,
        forall|k: int|
            0 <= k < stream(s, i).len() - 1 ==> #[trigger] stream(s, i)[k].1.lexeme != Lexeme::Fixed(TokenType::Eof),
    decreases s.len() + 2 - i,
{
    let tk = token_from(s, i);
    if tk.1.lexeme == Lexeme::Fixed(TokenType::Eof) || tk.1.end <= i || tk.1.end > s.len() + 1 {
    } else {
        lemma_eof_last(s, tk.1.end);
        let r = stream(s, tk.1.end);
        assert(stream(s, i) == seq![tk] + r);
        assert forall|k: int| 0 <= k < stream(s, i).len() - 1 implies #[trigger] stream(s, i)[k].1.lexeme
            != Lexeme::Fixed(TokenType::Eof) by {
            if k > 0 {
                assert(stream(s, i)[k] == r[k - 1]);
            }
        }
    }
}

/// Where the token read is `Eof`, reading on from where it ends gives only `Eof`.
pub proof fn lemma_eof_stays(s: Seq<char>, i: nat)
    requires
        token_from(s, i).1.lexeme == Lexeme::Fixed(TokenType::Eof),
    ensures
        stream(s, token_from(s, i).1.end) == seq![token_from(s, token_from(s, i).1.end)],
        token_from(s, token_from(s, i).1.end).1.lexeme == Lexeme::Fixed(TokenType::Eof),
{
    let p = trivia(s, i, 0).0;
    lemma_trivia_grows(s, i, 0);
    lemma_trivia_stop(s, i, 0);
    assert(p >= s.len());
    assert(lex(s, p).end == p);
    assert(trivia(s, p, 0) == (p, Seq::<crate::lexical::Diag>::empty()));
}

proof fn lemma_trivia_stop(s: Seq<char>, i: nat, mode: nat)
    ensures
        ({
            let p = trivia(s, i, mode).0;
            p >= s.len() || (!blank(char_at(s, p)) && !(char_at(s, p) == '/' && (char_at(s, p + 1) == '/'
                || char_at(s, p + 1) == '*')))
        }),
    decreases (if i <= s.len() { s.len() - i } else { 0 }), mode,
{
    let c = char_at(s, i);
    if mode == 1 {
        if c == '\n' {
            lemma_trivia_stop(s, i + 1, 0);
        } else if i >= s.len() {
            lemma_trivia_stop(s, i, 0);
        } else {
            lemma_trivia_stop(s, i + 1, 1);
        }
    } else if mode == 2 {
        if i >= s.len() {
        } else if c == '*' && char_at(s, i + 1) == '/' {
            lemma_trivia_stop(s, i + 2, 0);
        } else {
            lemma_trivia_stop(s, i + 1, 2);
        }
    } else if blank(c) {
        lemma_trivia_stop(s, i + 1, 0);
    } else if c == '/' && char_at(s, i + 1) == '/' {
        lemma_trivia_stop(s, i + 2, 1);
    } else if c == '/' && char_at(s, i + 1) == '*' {
        lemma_trivia_stop(s, i + 2, 2);
    }
}

/// The tokens read from `r` are the one read there, then those read from
/// where it ends; after `Eof` only `Eof` follows.
pub proof fn lemma_stream_step(s: Seq<char>, r: nat)
    requires
        token_from(s, r).1.end <= s.len() + 1,
    ensures
        lx_at(stream(s, r), 0) == token_from(s, r).1.lexeme,
        forall|k: int| k >= 0 ==> #[trigger] lx_at(stream(s, r), k + 1) == lx_at(stream(s, token_from(s, r).1.end), k),
{
    let tk = token_from(s, r);
    lemma_trivia_grows(s, r, 0);
    lemma_lex_moves(s, trivia(s, r, 0).0);
    if tk.1.lexeme == Lexeme::Fixed(TokenType::Eof) {
        lemma_eof_stays(s, r);
        assert(stream(s, r) == seq![tk]);
        assert forall|k: int| k >= 0 implies #[trigger] lx_at(stream(s, r), k + 1) == lx_at(
            stream(s, tk.1.end),
            k,
        ) by {}
    } else {
        let rest = stream(s, tk.1.end);
        assert(stream(s, r) == seq![tk] + rest);
        assert forall|k: int| k >= 0 implies #[trigger] lx_at(stream(s, r), k + 1) == lx_at(rest, k) by {
            if k < rest.len() {
                assert((seq![tk] + rest)[k + 1] == rest[k]);
            }
        }
    }
}

proof fn lemma_int_prefix(t: Seq<(nat, Step)>, i: int, e: Expression, m: int)
    requires
        lx_at(t, i) is Int,
        prefix_rel(t, i, e, m),
    ensures
        m == i,
        e is Integer,
        e->Integer_0@ == lx_at(t, i)->Int_0,
{
    if atom_rel(t, i, e) {
        let k = choose|kind: TokenType| kind_of(kind, lx_at(t, i)) && #[trigger] atom_of(kind) == Some(e);
        assert(kind_of(k, lx_at(t, i)));
    }
}

proof fn lemma_int_expr(t: Seq<(nat, Step)>, i: int, p: Precedence, e: Expression, j: int)
    requires
        lx_at(t, i) is Int,
        rank(prec_at(t, i + 1)) <= rank(p),
        expr_rel(t, i, p, e, j),
    ensures
        j == i,
        e is Integer,
        e->Integer_0@ == lx_at(t, i)->Int_0,
{
    let w = choose|l: Expression, m: int|
        #[trigger] split(l, m) && i <= m <= t.len() + 1 && prefix_rel(t, i, l, m) && climb_rel(t, m, p, l, e, j);
    lemma_int_prefix(t, i, w.0, w.1);
    assert(climb_rel(t, i, p, w.0, e, j));
}

proof fn lemma_binary_step(t: Seq<(nat, Step)>, m: int, p: Precedence, l: Expression, e: Expression, j: int) -> (r: (
    Expression,
    Expression,
    int,
))
    requires
        0 <= m <= t.len() + 1,
        rank(prec_at(t, m + 1)) > rank(p),
        !is_at(t, m + 1, TokenType::LeftParen),
        !is_at(t, m + 1, TokenType::LeftBracket),
        climb_rel(t, m, p, l, e, j),
    ensures
        r.0 is Infix,
        Some(r.0->Infix_0.operator) == fixed_kind(lx_at(t, m + 1)),
        r.0->Infix_0.lhs == l,
        r.0->Infix_0.rhs == r.1,
        expr_rel(t, m + 2, prec_at(t, m + 1), r.1, r.2),
        m + 1 <= r.2 <= t.len() + 1,
        climb_rel(t, r.2, p, r.0, e, j),
{
    let w = choose|l2: Expression, m2: int|
        #[trigger] split(l2, m2) && m + 1 <= m2 <= t.len() + 1 && infix_rel(t, m + 1, l, l2, m2) && climb_rel(
            t,
            m2,
            p,
            l2,
            e,
            j,
        );
    assert(infix_rel(t, m + 1, l, w.0, w.1));
    (w.0, w.0->Infix_0.rhs, w.1)
}

/// A product binds tighter than a sum: where the tokens read
/// `a + b * c`, with integers `a`, `b`, `c`, and nothing after them that
/// binds tighter than the floor, the only expression the grammar reads
/// is `a + (b * c)`.
pub proof fn product_binds_tighter_than_sum(t: Seq<(nat, Step)>, e: Expression, j: int)
    requires
        lx_at(t, 0) is Int,
        is_at(t, 1, TokenType::Plus),
        lx_at(t, 2) is Int,
        is_at(t, 3, TokenType::Asterisk),
        lx_at(t, 4) is Int,
        rank(prec_at(t, 5)) == 0,
        expr_rel(t, 0, Precedence::Lowest, e, j),
    ensures
        j == 4,
        e is Infix,
        e->Infix_0.operator == TokenType::Plus,
        e->Infix_0.lhs is Integer && e->Infix_0.lhs->Integer_0@ == lx_at(t, 0)->Int_0,
        e->Infix_0.rhs is Infix,
        e->Infix_0.rhs->Infix_0.operator == TokenType::Asterisk,
        e->Infix_0.rhs->Infix_0.lhs is Integer && e->Infix_0.rhs->Infix_0.lhs->Integer_0@ == lx_at(t, 2)->Int_0,
        e->Infix_0.rhs->Infix_0.rhs is Integer && e->Infix_0.rhs->Infix_0.rhs->Integer_0@ == lx_at(t, 4)->Int_0,
{
    let w = choose|l: Expression, m: int|
        #[trigger] split(l, m) && 0 <= m <= t.len() + 1 && prefix_rel(t, 0, l, m) && climb_rel(
            t,
            m,
            Precedence::Lowest,
            l,
            e,
            j,
        );
    lemma_int_prefix(t, 0, w.0, w.1);
    let outer = lemma_binary_step(t, 0, Precedence::Lowest, w.0, e, j);
    let v = choose|l: Expression, m: int|
        #[trigger] split(l, m) && 2 <= m <= t.len() + 1 && prefix_rel(t, 2, l, m) && climb_rel(
            t,
            m,
            Precedence::Sum,
            l,
            outer.1,
            outer.2,
        );
    assert(prec_at(t, 1) == Precedence::Sum);
    lemma_int_prefix(t, 2, v.0, v.1);
    assert(prec_at(t, 3) == Precedence::Product);
    let inner = lemma_binary_step(t, 2, Precedence::Sum, v.0, outer.1, outer.2);
    lemma_int_expr(t, 4, Precedence::Product, inner.1, inner.2);
    assert(climb_rel(t, 4, Precedence::Sum, inner.0, outer.1, outer.2));
    assert(climb_rel(t, 4, Precedence::Lowest, outer.0, e, j));
}

} // verus!
