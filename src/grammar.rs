//! The grammar of the language, as relations between the tokens of a
//! unit and the trees they make. Each relation fixes where its part ends.
//! The parser is proved to build what these relations allow, and to
//! succeed wherever they allow something.

use vstd::prelude::*;

use crate::ast::{Case, Expression, Node};
use crate::lexical::{kind_of, Lexeme, Step};
use crate::parser::{atom_of, precedence_of, rank, Precedence};
use crate::token::{keyword_of, mode_of, Keyword, TokenType};

verus! {

/// What the `k`-th token of `t` holds; `Eof` past the end, since the
/// scanner gives `Eof` for ever once the text is read.
pub open spec fn lx_at(t: Seq<(nat, Step)>, k: int) -> Lexeme {
    if 0 <= k < t.len() {
        t[k].1.lexeme
    } else {
        Lexeme::Fixed(TokenType::Eof)
    }
}

/// The kind of a token that holds `x`, where that kind carries no text:
/// operators, punctuation, keywords and modes.
pub open spec fn fixed_kind(x: Lexeme) -> Option<TokenType> {
    match x {
        Lexeme::Fixed(k) => Some(k),
        Lexeme::Word(w) => match keyword_of(w) {
            Some(kw) => Some(TokenType::Keyword(kw)),
            None => match mode_of(w) {
                Some(m) => Some(TokenType::Mode(m)),
                None => None,
            },
        },
        _ => None,
    }
}

/// Whether the `k`-th token of `t` is of kind `kind`, one that carries no text.
pub open spec fn is_at(t: Seq<(nat, Step)>, k: int, kind: TokenType) -> bool {
    fixed_kind(lx_at(t, k)) == Some(kind)
}

/// The precedence of the `k`-th token of `t` as an infix operator.
pub open spec fn prec_at(t: Seq<(nat, Step)>, k: int) -> Precedence {
    match fixed_kind(lx_at(t, k)) {
        Some(kind) => precedence_of(kind),
        None => Precedence::Lowest,
    }
}

/// Whether `e` is the expression that the `k`-th token of `t` makes on its
/// own: a name, a literal, `true` or `false`.
pub open spec fn atom_rel(t: Seq<(nat, Step)>, k: int, e: Expression) -> bool {
    exists|kind: TokenType| kind_of(kind, lx_at(t, k)) && #[trigger] atom_of(kind) == Some(e)
}

/// Whether the tokens of `t` from `i` to `j` make the expression `e`, read
/// with operators that bind tighter than `prec`: a prefix rule picked by
/// the token at `i`, then infix rules while the token after binds tighter.
pub open spec fn expr_rel(t: Seq<(nat, Step)>, i: int, prec: Precedence, e: Expression, j: int) -> bool
    decreases t.len() + 2 - i, 2nat,
{
    &&& 0 <= i <= t.len() + 1
    &&& exists|l: Expression, m: int|
        #[trigger] split(l, m) && i <= m <= t.len() + 1 && prefix_rel(t, i, l, m) && climb_rel(t, m, prec, l, e, j)
}

/// A marker for an expression and the offset where it ends. The markers
/// stand in the existentials of this grammar so that a proof can name
/// the witnesses; they hold of every value.
pub open spec fn split(l: Expression, m: int) -> bool {
    true
}

/// A marker for the offset where a part ends.
pub open spec fn mark(k: int) -> bool {
    true
}

/// A marker for the offsets where parts end.
pub open spec fn marks(b: Seq<int>) -> bool {
    true
}

/// Whether the tokens of `t` from `i` to `m` make `e` by the prefix rule of
/// the token at `i`.
pub open spec fn prefix_rel(t: Seq<(nat, Step)>, i: int, e: Expression, m: int) -> bool
    decreases t.len() + 2 - i, 1nat,
{
    if !(0 <= i <= t.len() + 1) {
        false
    } else if atom_rel(t, i, e) {
        m == i
    } else if is_at(t, i, TokenType::Bang) || is_at(t, i, TokenType::Minus) || is_at(t, i, TokenType::Asterisk)
        || is_at(t, i, TokenType::Ampersand) {
        &&& e is Prefix
        &&& Some(e->Prefix_0.operator) == fixed_kind(lx_at(t, i))
        &&& expr_rel(t, i + 1, Precedence::Prefix, e->Prefix_0.value, m)
    } else if is_at(t, i, TokenType::LeftParen) {
        if is_at(t, i + 1, TokenType::RightParen) {
            e == Expression::Unit && m == i + 1
        } else {
            &&& expr_rel(t, i + 1, Precedence::Lowest, e, m - 1)
            &&& is_at(t, m, TokenType::RightParen)
        }
    } else if is_at(t, i, TokenType::Keyword(Keyword::Do)) || is_at(t, i, TokenType::LeftSquirly) {
        e is Block && stmts_list(t, i + 1, closer(t, i), e->Block_0.statements@, m)
    } else if is_at(t, i, TokenType::Keyword(Keyword::If)) {
        &&& e is If
        &&& exists|k1: int, k2: int|
            #[trigger] split2(k1, k2) && i + 1 <= k1 && k1 + 1 <= k2 && expr_rel(
                t,
                i + 1,
                Precedence::Lowest,
                e->If_0.condition,
                k1,
            ) && opens_block(t, k1 + 1) && prefix_rel(t, k1 + 1, e->If_0.consequence, k2) && if is_at(
                t,
                k2 + 1,
                TokenType::Keyword(Keyword::Else),
            ) {
                expr_rel(t, k2 + 2, Precedence::Lowest, e->If_0.alternative, m)
            } else {
                e->If_0.alternative == Expression::Unit && m == k2
            }
    } else if is_at(t, i, TokenType::Keyword(Keyword::Match)) {
        &&& e is Match
        &&& exists|k1: int|
            #[trigger] mark(k1) && i + 1 <= k1 && expr_rel(t, i + 1, Precedence::Lowest, e->Match_0.value, k1)
                && opens_block(t, k1 + 1) && cases_list(t, k1 + 2, closer(t, k1 + 1), e->Match_0.cases@, m)
    } else {
        false
    }
}

/// Whether, from the expression `l` that ends at `m`, infix rules make
/// `e`, ending at `j`, while the token after binds tighter than `prec`.
pub open spec fn climb_rel(t: Seq<(nat, Step)>, m: int, prec: Precedence, l: Expression, e: Expression, j: int) -> bool
    decreases t.len() + 2 - m, 0nat,
{
    if !(0 <= m <= t.len() + 1) {
        false
    } else if rank(prec_at(t, m + 1)) <= rank(prec) {
        e == l && j == m
    } else {
        exists|l2: Expression, m2: int|
            #[trigger] split(l2, m2) && m + 1 <= m2 <= t.len() + 1 && infix_rel(t, m + 1, l, l2, m2) && climb_rel(
                t,
                m2,
                prec,
                l2,
                e,
                j,
            )
    }
}

/// Whether the infix rule of the token at `o`, applied to `l`, makes `e`
/// ending at `m`: a call, an index, or a binary operator.
pub open spec fn infix_rel(t: Seq<(nat, Step)>, o: int, l: Expression, e: Expression, m: int) -> bool
    decreases t.len() + 2 - o, 3nat,
{
    if !(0 <= o <= t.len() + 1) {
        false
    } else if is_at(t, o, TokenType::LeftParen) {
        &&& e is FnCall
        &&& e->FnCall_0.func == l
        &&& args_rel(t, o, e->FnCall_0.args@, m)
    } else if is_at(t, o, TokenType::LeftBracket) {
        &&& e is Infix
        &&& e->Infix_0.operator == TokenType::LeftBracket
        &&& e->Infix_0.lhs == l
        &&& expr_rel(t, o + 1, Precedence::Lowest, e->Infix_0.rhs, m - 1)
        &&& is_at(t, m, TokenType::RightBracket)
    } else {
        &&& e is Infix
        &&& Some(e->Infix_0.operator) == fixed_kind(lx_at(t, o))
        &&& e->Infix_0.lhs == l
        &&& expr_rel(t, o + 1, prec_at(t, o), e->Infix_0.rhs, m)
    }
}

/// Whether the tokens from the `(` at `o` to the `)` at `m` are the
/// arguments `args`, separated by commas.
pub open spec fn args_rel(t: Seq<(nat, Step)>, o: int, args: Seq<Expression>, m: int) -> bool
    decreases t.len() + 2 - o, 2nat,
{
    if !(0 <= o <= t.len() + 1) {
        false
    } else if is_at(t, o + 1, TokenType::RightParen) {
        args.len() == 0 && m == o + 1
    } else {
        args_list(t, o + 1, args, m)
    }
}

/// Whether the tokens from `i` on are the arguments `args`, separated by
/// commas, up to the `)` at `m`.
pub open spec fn args_list(t: Seq<(nat, Step)>, i: int, args: Seq<Expression>, m: int) -> bool
    decreases t.len() + 2 - i, 3nat,
{
    if !(0 <= i <= t.len() + 1) || args.len() == 0 {
        false
    } else {
        exists|k: int|
            #[trigger] mark(k) && i <= k <= t.len() + 1 && expr_rel(t, i, Precedence::Lowest, args[0], k) && if args.len()
                == 1 {
                is_at(t, k + 1, TokenType::RightParen) && m == k + 1
            } else {
                is_at(t, k + 1, TokenType::Comma) && args_list(t, k + 2, args.drop_first(), m)
            }
    }
}

/// The first offset at or after `i` whose token separates no statements:
/// neither a newline nor a `;`.
pub open spec fn skip_sep(t: Seq<(nat, Step)>, i: int) -> int
    decreases t.len() + 1 - i,
{
    if 0 <= i < t.len() && (is_at(t, i, TokenType::Newline) || is_at(t, i, TokenType::Semicolon)) {
        skip_sep(t, i + 1)
    } else {
        i
    }
}

/// Whether the tokens of `t` from `i` to `m` make the statement `n`: `let`
/// or `const`, a name, `=`, a value, and an optional separator.
pub open spec fn stmt_rel(t: Seq<(nat, Step)>, i: int, n: Node, m: int) -> bool
    decreases t.len() + 2 - i, 4nat,
{
    &&& 0 <= i <= t.len() + 1
    &&& is_at(t, i, TokenType::Keyword(Keyword::Let)) || is_at(t, i, TokenType::Keyword(Keyword::Const))
    &&& n is Binding
    &&& Some(n->Binding_0.kind) == fixed_kind(lx_at(t, i))
    &&& n->Binding_0.expl_type is None
    &&& kind_of(TokenType::Tag(n->Binding_0.name), lx_at(t, i + 1))
    &&& is_at(t, i + 2, TokenType::Assign)
    &&& exists|k: int|
        #[trigger] mark(k) && expr_rel(t, i + 3, Precedence::Lowest, n->Binding_0.value, k) && m == (if is_at(
            t,
            k + 1,
            TokenType::Newline,
        ) || is_at(t, k + 1, TokenType::Semicolon) {
            k + 1
        } else {
            k
        })
}

/// Where the `q`-th statement starts, the statements before it ending at
/// the offsets `b`, and the first at or after `i`.
pub open spec fn stmt_start(t: Seq<(nat, Step)>, i: int, b: Seq<int>, q: int) -> int {
    skip_sep(t, if q == 0 { i } else { b[q - 1] + 1 })
}

/// Whether the tokens of `t` from `i` to the end make the statements
/// `nodes`: each starts past the separators after the one before, and only
/// separators stand between the last and the end.
pub open spec fn program_rel(t: Seq<(nat, Step)>, i: int, nodes: Seq<Node>) -> bool {
    exists|b: Seq<int>|
        {
            &&& #[trigger] marks(b)
            &&& b.len() == nodes.len()
            &&& forall|q: int| 0 <= q < b.len() ==> #[trigger] stmt_rel(t, stmt_start(t, i, b, q), nodes[q], b[q])
            &&& is_at(t, skip_sep(t, if b.len() == 0 { i } else { b.last() + 1 }), TokenType::Eof)
        }
}

/// An expression with no infix rule after it is complete.
pub proof fn lemma_climb_base(t: Seq<(nat, Step)>, m: int, prec: Precedence, l: Expression)
    requires
        0 <= m <= t.len() + 1,
        rank(prec_at(t, m + 1)) <= rank(prec),
    ensures
        climb_rel(t, m, prec, l, l, m),
{
}

/// An infix rule applied where the token after binds tighter than `prec`
/// continues the climb.
pub proof fn lemma_climb_step(
    t: Seq<(nat, Step)>,
    m: int,
    prec: Precedence,
    l: Expression,
    l2: Expression,
    m2: int,
    e: Expression,
    j: int,
)
    requires
        0 <= m <= t.len() + 1,
        rank(prec_at(t, m + 1)) > rank(prec),
        m + 1 <= m2 <= t.len() + 1,
        infix_rel(t, m + 1, l, l2, m2),
        climb_rel(t, m2, prec, l2, e, j),
    ensures
        climb_rel(t, m, prec, l, e, j),
{
    reveal_with_fuel(climb_rel, 2);
    assert(split(l2, m2));
}

/// A prefix rule followed by a climb makes an expression.
pub proof fn lemma_expr_intro(t: Seq<(nat, Step)>, i: int, prec: Precedence, l: Expression, m: int, e: Expression, j: int)
    requires
        0 <= i <= m <= t.len() + 1,
        prefix_rel(t, i, l, m),
        climb_rel(t, m, prec, l, e, j),
    ensures
        expr_rel(t, i, prec, e, j),
{
    reveal_with_fuel(expr_rel, 2);
    assert(split(l, m));
}

/// Whether the token at `k` opens a block: `do` or `{`.
pub open spec fn opens_block(t: Seq<(nat, Step)>, k: int) -> bool {
    is_at(t, k, TokenType::Keyword(Keyword::Do)) || is_at(t, k, TokenType::LeftSquirly)
}

/// The token that closes the block opened at `k`: `}` after `{`, else `end`.
pub open spec fn closer(t: Seq<(nat, Step)>, k: int) -> TokenType {
    if is_at(t, k, TokenType::LeftSquirly) {
        TokenType::RightSquirly
    } else {
        TokenType::Keyword(Keyword::End)
    }
}

/// Whether the tokens from `p` on are the statements `nodes`, each past
/// the separators after the one before, up to `close` at `m`.
pub open spec fn stmts_list(t: Seq<(nat, Step)>, p: int, close: TokenType, nodes: Seq<Node>, m: int) -> bool
    decreases t.len() + 2 - p, 5nat,
{
    let k = skip_sep(t, p);
    if !(0 <= p <= k <= t.len() + 1) {
        false
    } else if nodes.len() == 0 {
        is_at(t, k, close) && m == k
    } else {
        &&& !is_at(t, k, close)
        &&& exists|e: int|
            #[trigger] mark(e) && k <= e <= t.len() && stmt_rel(t, k, nodes[0], e) && stmts_list(
                t,
                e + 1,
                close,
                nodes.drop_first(),
                m,
            )
    }
}

/// Where the cases of a match go on from `p`: past separators, and past
/// one comma and the separators after it.
pub open spec fn case_start(t: Seq<(nat, Step)>, p: int) -> int {
    let k = skip_sep(t, p);
    if is_at(t, k, TokenType::Comma) {
        skip_sep(t, k + 1)
    } else {
        k
    }
}

/// Whether the tokens from `p` on are the cases `cases`, each a condition,
/// `=>` and a consequence, up to `close` at `m`.
pub open spec fn cases_list(t: Seq<(nat, Step)>, p: int, close: TokenType, cases: Seq<Case>, m: int) -> bool
    decreases t.len() + 2 - p, 5nat,
{
    let k = case_start(t, p);
    if !(0 <= p <= k <= t.len() + 1) {
        false
    } else if cases.len() == 0 {
        is_at(t, k, close) && m == k
    } else {
        &&& !is_at(t, k, close)
        &&& exists|c: int, d: int|
            #[trigger] split2(c, d) && k <= c && c + 2 <= d <= t.len() && expr_rel(
                t,
                k,
                Precedence::Lowest,
                cases[0].condition,
                c,
            ) && is_at(t, c + 1, TokenType::WideArrow) && expr_rel(t, c + 2, Precedence::Lowest, cases[0].consequence, d)
                && cases_list(t, d + 1, close, cases.drop_first(), m)
    }
}

/// A marker for two offsets where parts end.
pub open spec fn split2(a: int, b: int) -> bool {
    true
}

/// The last argument, and its `)`, end an argument list.
pub proof fn lemma_args_last(t: Seq<(nat, Step)>, i: int, a: Expression, k: int)
    requires
        0 <= i <= k <= t.len() + 1,
        expr_rel(t, i, Precedence::Lowest, a, k),
        is_at(t, k + 1, TokenType::RightParen),
    ensures
        args_list(t, i, seq![a], k + 1),
{
    reveal_with_fuel(args_list, 2);
    assert(mark(k));
}

/// An argument and a comma before an argument list make a longer one.
pub proof fn lemma_args_more(t: Seq<(nat, Step)>, i: int, a: Expression, k: int, rest: Seq<Expression>, m: int)
    requires
        0 <= i <= k <= t.len() + 1,
        expr_rel(t, i, Precedence::Lowest, a, k),
        is_at(t, k + 1, TokenType::Comma),
        rest.len() > 0,
        args_list(t, k + 2, rest, m),
    ensures
        args_list(t, i, seq![a] + rest, m),
{
    reveal_with_fuel(args_list, 2);
    assert((seq![a] + rest).drop_first() =~= rest);
    assert(mark(k));
}

/// Skipping separators stops at or after where it starts, on a token that
/// is no separator.
pub proof fn lemma_skip_sep(t: Seq<(nat, Step)>, p: int)
    requires
        0 <= p,
    ensures
        p <= skip_sep(t, p),
        p <= t.len() ==> skip_sep(t, p) <= t.len(),
        !(is_at(t, skip_sep(t, p), TokenType::Newline) && skip_sep(t, p) < t.len()),
        !(is_at(t, skip_sep(t, p), TokenType::Semicolon) && skip_sep(t, p) < t.len()),
    decreases t.len() + 1 - p,
{
    if 0 <= p < t.len() && (is_at(t, p, TokenType::Newline) || is_at(t, p, TokenType::Semicolon)) {
        lemma_skip_sep(t, p + 1);
    }
}

/// The closing token ends a statement list.
pub proof fn lemma_stmts_end(t: Seq<(nat, Step)>, p: int, close: TokenType, k: int)
    requires
        k == skip_sep(t, p),
        0 <= p <= k <= t.len() + 1,
        is_at(t, k, close),
    ensures
        stmts_list(t, p, close, seq![], k),
{
}

/// A statement before a statement list makes a longer one.
pub proof fn lemma_stmts_more(
    t: Seq<(nat, Step)>,
    p: int,
    close: TokenType,
    n: Node,
    e: int,
    rest: Seq<Node>,
    m: int,
)
    requires
        0 <= p <= skip_sep(t, p) <= e <= t.len(),
        !is_at(t, skip_sep(t, p), close),
        stmt_rel(t, skip_sep(t, p), n, e),
        stmts_list(t, e + 1, close, rest, m),
    ensures
        stmts_list(t, p, close, seq![n] + rest, m),
{
    reveal_with_fuel(stmts_list, 2);
    assert((seq![n] + rest).drop_first() =~= rest);
    assert(mark(e));
}

/// The closing token ends a list of cases.
pub proof fn lemma_cases_end(t: Seq<(nat, Step)>, p: int, close: TokenType, k: int)
    requires
        k == case_start(t, p),
        0 <= p <= k <= t.len() + 1,
        is_at(t, k, close),
    ensures
        cases_list(t, p, close, seq![], k),
{
}

/// A case before a list of cases makes a longer one.
pub proof fn lemma_cases_more(
    t: Seq<(nat, Step)>,
    p: int,
    close: TokenType,
    a: Case,
    c: int,
    d: int,
    rest: Seq<Case>,
    m: int,
)
    requires
        0 <= p <= case_start(t, p) <= c,
        c + 2 <= d <= t.len(),
        !is_at(t, case_start(t, p), close),
        expr_rel(t, case_start(t, p), Precedence::Lowest, a.condition, c),
        is_at(t, c + 1, TokenType::WideArrow),
        expr_rel(t, c + 2, Precedence::Lowest, a.consequence, d),
        cases_list(t, d + 1, close, rest, m),
    ensures
        cases_list(t, p, close, seq![a] + rest, m),
{
    reveal_with_fuel(cases_list, 2);
    assert((seq![a] + rest).drop_first() =~= rest);
    assert(split2(c, d));
}

/// A conditional: its condition, its block, and what follows the block.
pub proof fn lemma_if_intro(t: Seq<(nat, Step)>, i: int, e: Expression, k1: int, k2: int, m: int)
    requires
        0 <= i <= t.len(),
        is_at(t, i, TokenType::Keyword(Keyword::If)),
        e is If,
        i + 1 <= k1,
        k1 + 1 <= k2,
        expr_rel(t, i + 1, Precedence::Lowest, e->If_0.condition, k1),
        opens_block(t, k1 + 1),
        prefix_rel(t, k1 + 1, e->If_0.consequence, k2),
        if is_at(t, k2 + 1, TokenType::Keyword(Keyword::Else)) {
            expr_rel(t, k2 + 2, Precedence::Lowest, e->If_0.alternative, m)
        } else {
            e->If_0.alternative == Expression::Unit && m == k2
        },
    ensures
        prefix_rel(t, i, e, m),
{
    reveal_with_fuel(prefix_rel, 2);
    assert(split2(k1, k2));
}

/// A match: its value, then its cases in a block.
pub proof fn lemma_match_intro(t: Seq<(nat, Step)>, i: int, e: Expression, k1: int, m: int)
    requires
        0 <= i <= t.len(),
        is_at(t, i, TokenType::Keyword(Keyword::Match)),
        e is Match,
        i + 1 <= k1,
        expr_rel(t, i + 1, Precedence::Lowest, e->Match_0.value, k1),
        opens_block(t, k1 + 1),
        cases_list(t, k1 + 2, closer(t, k1 + 1), e->Match_0.cases@, m),
    ensures
        prefix_rel(t, i, e, m),
{
    reveal_with_fuel(prefix_rel, 2);
    assert(mark(k1));
}

/// An expression read from `i` ends at one offset only.
pub proof fn lemma_expr_unique(t: Seq<(nat, Step)>, i: int, p: Precedence, e1: Expression, j1: int, e2: Expression, j2: int)
    requires
        expr_rel(t, i, p, e1, j1),
        expr_rel(t, i, p, e2, j2),
    ensures
        j1 == j2,
    decreases t.len() + 2 - i, 2nat,
{
    let w1 = choose|l: Expression, m: int|
        #[trigger] split(l, m) && i <= m <= t.len() + 1 && prefix_rel(t, i, l, m) && climb_rel(t, m, p, l, e1, j1);
    let w2 = choose|l: Expression, m: int|
        #[trigger] split(l, m) && i <= m <= t.len() + 1 && prefix_rel(t, i, l, m) && climb_rel(t, m, p, l, e2, j2);
    lemma_prefix_unique(t, i, w1.0, w1.1, w2.0, w2.1);
    lemma_climb_unique(t, w1.1, p, w1.0, e1, j1, w2.0, e2, j2);
}

/// A prefix rule at `i` ends at one offset only.
pub proof fn lemma_prefix_unique(t: Seq<(nat, Step)>, i: int, e1: Expression, m1: int, e2: Expression, m2: int)
    requires
        prefix_rel(t, i, e1, m1),
        prefix_rel(t, i, e2, m2),
    ensures
        m1 == m2,
    decreases t.len() + 2 - i, 1nat,
{
    if atom_rel(t, i, e1) || atom_rel(t, i, e2) {
        lemma_atom_token(t, i, e1);
        lemma_atom_token(t, i, e2);
    } else if is_at(t, i, TokenType::Bang) || is_at(t, i, TokenType::Minus) || is_at(t, i, TokenType::Asterisk)
        || is_at(t, i, TokenType::Ampersand) {
        lemma_expr_unique(t, i + 1, Precedence::Prefix, e1->Prefix_0.value, m1, e2->Prefix_0.value, m2);
    } else if is_at(t, i, TokenType::LeftParen) {
        if !is_at(t, i + 1, TokenType::RightParen) {
            lemma_expr_unique(t, i + 1, Precedence::Lowest, e1, m1 - 1, e2, m2 - 1);
        }
    } else if is_at(t, i, TokenType::Keyword(Keyword::Do)) || is_at(t, i, TokenType::LeftSquirly) {
        lemma_stmts_unique(t, i + 1, closer(t, i), e1->Block_0.statements@, m1, e2->Block_0.statements@, m2);
    } else if is_at(t, i, TokenType::Keyword(Keyword::If)) {
        let a = choose|k1: int, k2: int|
            #[trigger] split2(k1, k2) && i + 1 <= k1 && k1 + 1 <= k2 && expr_rel(
                t,
                i + 1,
                Precedence::Lowest,
                e1->If_0.condition,
                k1,
            ) && opens_block(t, k1 + 1) && prefix_rel(t, k1 + 1, e1->If_0.consequence, k2) && if is_at(
                t,
                k2 + 1,
                TokenType::Keyword(Keyword::Else),
            ) {
                expr_rel(t, k2 + 2, Precedence::Lowest, e1->If_0.alternative, m1)
            } else {
                e1->If_0.alternative == Expression::Unit && m1 == k2
            };
        let b = choose|k1: int, k2: int|
            #[trigger] split2(k1, k2) && i + 1 <= k1 && k1 + 1 <= k2 && expr_rel(
                t,
                i + 1,
                Precedence::Lowest,
                e2->If_0.condition,
                k1,
            ) && opens_block(t, k1 + 1) && prefix_rel(t, k1 + 1, e2->If_0.consequence, k2) && if is_at(
                t,
                k2 + 1,
                TokenType::Keyword(Keyword::Else),
            ) {
                expr_rel(t, k2 + 2, Precedence::Lowest, e2->If_0.alternative, m2)
            } else {
                e2->If_0.alternative == Expression::Unit && m2 == k2
            };
        lemma_expr_unique(t, i + 1, Precedence::Lowest, e1->If_0.condition, a.0, e2->If_0.condition, b.0);
        lemma_prefix_unique(t, a.0 + 1, e1->If_0.consequence, a.1, e2->If_0.consequence, b.1);
        if is_at(t, a.1 + 1, TokenType::Keyword(Keyword::Else)) {
            lemma_expr_unique(t, a.1 + 2, Precedence::Lowest, e1->If_0.alternative, m1, e2->If_0.alternative, m2);
        }
    } else if is_at(t, i, TokenType::Keyword(Keyword::Match)) {
        let a = choose|k1: int|
            #[trigger] mark(k1) && i + 1 <= k1 && expr_rel(t, i + 1, Precedence::Lowest, e1->Match_0.value, k1)
                && opens_block(t, k1 + 1) && cases_list(t, k1 + 2, closer(t, k1 + 1), e1->Match_0.cases@, m1);
        let b = choose|k1: int|
            #[trigger] mark(k1) && i + 1 <= k1 && expr_rel(t, i + 1, Precedence::Lowest, e2->Match_0.value, k1)
                && opens_block(t, k1 + 1) && cases_list(t, k1 + 2, closer(t, k1 + 1), e2->Match_0.cases@, m2);
        lemma_expr_unique(t, i + 1, Precedence::Lowest, e1->Match_0.value, a, e2->Match_0.value, b);
        lemma_cases_unique(t, a + 2, closer(t, a + 1), e1->Match_0.cases@, m1, e2->Match_0.cases@, m2);
    }
}

/// A token that makes an expression on its own starts no other rule.
pub proof fn lemma_atom_token(t: Seq<(nat, Step)>, i: int, e: Expression)
    ensures
        atom_rel(t, i, e) ==> {
            &&& !is_at(t, i, TokenType::Bang)
            &&& !is_at(t, i, TokenType::Minus)
            &&& !is_at(t, i, TokenType::Asterisk)
            &&& !is_at(t, i, TokenType::Ampersand)
            &&& !is_at(t, i, TokenType::LeftParen)
            &&& !is_at(t, i, TokenType::LeftSquirly)
            &&& !is_at(t, i, TokenType::Keyword(Keyword::Do))
            &&& !is_at(t, i, TokenType::Keyword(Keyword::If))
            &&& !is_at(t, i, TokenType::Keyword(Keyword::Match))
        },
{
    if atom_rel(t, i, e) {
        let k = choose|kind: TokenType| kind_of(kind, lx_at(t, i)) && #[trigger] atom_of(kind) == Some(e);
        assert(kind_of(k, lx_at(t, i)));
    }
}

/// The climb from an expression ending at `m` ends at one offset only,
/// whatever that expression is.
pub proof fn lemma_climb_unique(
    t: Seq<(nat, Step)>,
    m: int,
    p: Precedence,
    la: Expression,
    ea: Expression,
    ja: int,
    lb: Expression,
    eb: Expression,
    jb: int,
)
    requires
        climb_rel(t, m, p, la, ea, ja),
        climb_rel(t, m, p, lb, eb, jb),
    ensures
        ja == jb,
    decreases t.len() + 2 - m, 0nat,
{
    if rank(prec_at(t, m + 1)) > rank(p) {
        let a = choose|l2: Expression, m2: int|
            #[trigger] split(l2, m2) && m + 1 <= m2 <= t.len() + 1 && infix_rel(t, m + 1, la, l2, m2) && climb_rel(
                t,
                m2,
                p,
                l2,
                ea,
                ja,
            );
        let b = choose|l2: Expression, m2: int|
            #[trigger] split(l2, m2) && m + 1 <= m2 <= t.len() + 1 && infix_rel(t, m + 1, lb, l2, m2) && climb_rel(
                t,
                m2,
                p,
                l2,
                eb,
                jb,
            );
        lemma_infix_unique(t, m + 1, la, a.0, a.1, lb, b.0, b.1);
        lemma_climb_unique(t, a.1, p, a.0, ea, ja, b.0, eb, jb);
    }
}

/// An infix rule at `o` ends at one offset only, whatever its left operand.
pub proof fn lemma_infix_unique(
    t: Seq<(nat, Step)>,
    o: int,
    la: Expression,
    ea: Expression,
    ma: int,
    lb: Expression,
    eb: Expression,
    mb: int,
)
    requires
        infix_rel(t, o, la, ea, ma),
        infix_rel(t, o, lb, eb, mb),
    ensures
        ma == mb,
    decreases t.len() + 2 - o, 3nat,
{
    if is_at(t, o, TokenType::LeftParen) {
        lemma_args_rel_unique(t, o, ea->FnCall_0.args@, ma, eb->FnCall_0.args@, mb);
    } else if is_at(t, o, TokenType::LeftBracket) {
        lemma_expr_unique(t, o + 1, Precedence::Lowest, ea->Infix_0.rhs, ma - 1, eb->Infix_0.rhs, mb - 1);
    } else {
        lemma_expr_unique(t, o + 1, prec_at(t, o), ea->Infix_0.rhs, ma, eb->Infix_0.rhs, mb);
    }
}

/// The arguments after the `(` at `o` end at one offset only.
pub proof fn lemma_args_rel_unique(t: Seq<(nat, Step)>, o: int, a1: Seq<Expression>, m1: int, a2: Seq<Expression>, m2: int)
    requires
        args_rel(t, o, a1, m1),
        args_rel(t, o, a2, m2),
    ensures
        m1 == m2,
    decreases t.len() + 2 - o, 2nat,
{
    if !is_at(t, o + 1, TokenType::RightParen) {
        lemma_args_list_unique(t, o + 1, a1, m1, a2, m2);
    }
}

/// An argument list from `i` ends at one offset only.
pub proof fn lemma_args_list_unique(t: Seq<(nat, Step)>, i: int, a1: Seq<Expression>, m1: int, a2: Seq<Expression>, m2: int)
    requires
        args_list(t, i, a1, m1),
        args_list(t, i, a2, m2),
    ensures
        m1 == m2,
    decreases t.len() + 2 - i, 3nat,
{
    let k1 = choose|k: int|
        #[trigger] mark(k) && i <= k <= t.len() + 1 && expr_rel(t, i, Precedence::Lowest, a1[0], k) && if a1.len()
            == 1 {
            is_at(t, k + 1, TokenType::RightParen) && m1 == k + 1
        } else {
            is_at(t, k + 1, TokenType::Comma) && args_list(t, k + 2, a1.drop_first(), m1)
        };
    let k2 = choose|k: int|
        #[trigger] mark(k) && i <= k <= t.len() + 1 && expr_rel(t, i, Precedence::Lowest, a2[0], k) && if a2.len()
            == 1 {
            is_at(t, k + 1, TokenType::RightParen) && m2 == k + 1
        } else {
            is_at(t, k + 1, TokenType::Comma) && args_list(t, k + 2, a2.drop_first(), m2)
        };
    lemma_expr_unique(t, i, Precedence::Lowest, a1[0], k1, a2[0], k2);
    if a1.len() > 1 && a2.len() > 1 {
        lemma_args_list_unique(t, k1 + 2, a1.drop_first(), m1, a2.drop_first(), m2);
    }
}

/// A statement read from `i` ends at one offset only.
pub proof fn lemma_stmt_unique(t: Seq<(nat, Step)>, i: int, n1: Node, m1: int, n2: Node, m2: int)
    requires
        stmt_rel(t, i, n1, m1),
        stmt_rel(t, i, n2, m2),
    ensures
        m1 == m2,
    decreases t.len() + 2 - i, 4nat,
{
    let k1 = choose|k: int|
        #[trigger] mark(k) && expr_rel(t, i + 3, Precedence::Lowest, n1->Binding_0.value, k) && m1 == (if is_at(
            t,
            k + 1,
            TokenType::Newline,
        ) || is_at(t, k + 1, TokenType::Semicolon) {
            k + 1
        } else {
            k
        });
    let k2 = choose|k: int|
        #[trigger] mark(k) && expr_rel(t, i + 3, Precedence::Lowest, n2->Binding_0.value, k) && m2 == (if is_at(
            t,
            k + 1,
            TokenType::Newline,
        ) || is_at(t, k + 1, TokenType::Semicolon) {
            k + 1
        } else {
            k
        });
    lemma_expr_unique(t, i + 3, Precedence::Lowest, n1->Binding_0.value, k1, n2->Binding_0.value, k2);
}

/// A statement list from `p` ends at one offset only.
pub proof fn lemma_stmts_unique(t: Seq<(nat, Step)>, p: int, close: TokenType, n1: Seq<Node>, m1: int, n2: Seq<Node>, m2: int)
    requires
        stmts_list(t, p, close, n1, m1),
        stmts_list(t, p, close, n2, m2),
    ensures
        m1 == m2,
    decreases t.len() + 2 - p, 5nat,
{
    let k = skip_sep(t, p);
    if n1.len() > 0 && n2.len() > 0 {
        let e1 = choose|e: int|
            #[trigger] mark(e) && k <= e <= t.len() && stmt_rel(t, k, n1[0], e) && stmts_list(t, e + 1, close, n1.drop_first(), m1);
        let e2 = choose|e: int|
            #[trigger] mark(e) && k <= e <= t.len() && stmt_rel(t, k, n2[0], e) && stmts_list(t, e + 1, close, n2.drop_first(), m2);
        lemma_stmt_unique(t, k, n1[0], e1, n2[0], e2);
        lemma_stmts_unique(t, e1 + 1, close, n1.drop_first(), m1, n2.drop_first(), m2);
    }
}

/// A list of cases from `p` ends at one offset only.
pub proof fn lemma_cases_unique(t: Seq<(nat, Step)>, p: int, close: TokenType, c1: Seq<Case>, m1: int, c2: Seq<Case>, m2: int)
    requires
        cases_list(t, p, close, c1, m1),
        cases_list(t, p, close, c2, m2),
    ensures
        m1 == m2,
    decreases t.len() + 2 - p, 5nat,
{
    let k = case_start(t, p);
    if c1.len() > 0 && c2.len() > 0 {
        let a = choose|c: int, d: int|
            #[trigger] split2(c, d) && k <= c && c + 2 <= d <= t.len() && expr_rel(t, k, Precedence::Lowest, c1[0].condition, c)
                && is_at(t, c + 1, TokenType::WideArrow) && expr_rel(t, c + 2, Precedence::Lowest, c1[0].consequence, d)
                && cases_list(t, d + 1, close, c1.drop_first(), m1);
        let b = choose|c: int, d: int|
            #[trigger] split2(c, d) && k <= c && c + 2 <= d <= t.len() && expr_rel(t, k, Precedence::Lowest, c2[0].condition, c)
                && is_at(t, c + 1, TokenType::WideArrow) && expr_rel(t, c + 2, Precedence::Lowest, c2[0].consequence, d)
                && cases_list(t, d + 1, close, c2.drop_first(), m2);
        lemma_expr_unique(t, k, Precedence::Lowest, c1[0].condition, a.0, c2[0].condition, b.0);
        lemma_expr_unique(t, a.0 + 2, Precedence::Lowest, c1[0].consequence, a.1, c2[0].consequence, b.1);
        lemma_cases_unique(t, a.1 + 1, close, c1.drop_first(), m1, c2.drop_first(), m2);
    }
}

/// A marker for three values that a proof names.
pub open spec fn split3(a: Expression, b: Expression, m: int) -> bool {
    true
}

/// A marker for a statement and where it ends.
pub open spec fn node_mark(n: Node, m: int) -> bool {
    true
}

/// A marker for statements and where they end.
pub open spec fn nodes_mark(n: Seq<Node>, m: int) -> bool {
    true
}

/// A marker for arguments and where they end.
pub open spec fn args_mark(a: Seq<Expression>, m: int) -> bool {
    true
}

/// A marker for cases and where they end.
pub open spec fn cases_mark(c: Seq<Case>, m: int) -> bool {
    true
}

/// Whether the grammar reads an expression from `i` with floor `p`.
pub open spec fn expr_ok(t: Seq<(nat, Step)>, i: int, p: Precedence) -> bool {
    exists|e: Expression, j: int| #[trigger] split(e, j) && expr_rel(t, i, p, e, j)
}

/// Whether a prefix rule reads something from `i`.
pub open spec fn prefix_ok(t: Seq<(nat, Step)>, i: int) -> bool {
    exists|e: Expression, m: int| #[trigger] split(e, m) && prefix_rel(t, i, e, m)
}

/// Whether the infix rule at `o` reads something after some left operand.
pub open spec fn infix_ok(t: Seq<(nat, Step)>, o: int) -> bool {
    exists|l: Expression, e: Expression, m: int| #[trigger] split3(l, e, m) && infix_rel(t, o, l, e, m)
}

/// Whether a climb from an expression ending at `m` reads something.
pub open spec fn climb_ok(t: Seq<(nat, Step)>, m: int, p: Precedence) -> bool {
    exists|l: Expression, e: Expression, j: int| #[trigger] split3(l, e, j) && climb_rel(t, m, p, l, e, j)
}

/// Whether what follows an argument ending at `k` is read: a `)`, or a
/// comma and more arguments.
pub open spec fn args_tail_ok(t: Seq<(nat, Step)>, k: int) -> bool {
    ||| is_at(t, k + 1, TokenType::RightParen)
    ||| is_at(t, k + 1, TokenType::Comma) && exists|a: Seq<Expression>, m: int|
        #[trigger] args_mark(a, m) && args_list(t, k + 2, a, m)
}

/// Whether the statement at `i` is read.
pub open spec fn stmt_ok(t: Seq<(nat, Step)>, i: int) -> bool {
    exists|n: Node, m: int| #[trigger] node_mark(n, m) && stmt_rel(t, i, n, m)
}

/// Whether statements are read from `p` up to `close`.
pub open spec fn stmts_ok(t: Seq<(nat, Step)>, p: int, close: TokenType) -> bool {
    exists|n: Seq<Node>, m: int| #[trigger] nodes_mark(n, m) && stmts_list(t, p, close, n, m)
}

/// Whether cases are read from `p` up to `close`.
pub open spec fn cases_ok(t: Seq<(nat, Step)>, p: int, close: TokenType) -> bool {
    exists|c: Seq<Case>, m: int| #[trigger] cases_mark(c, m) && cases_list(t, p, close, c, m)
}

/// Whether the tokens from `i` to the end are read as statements.
pub open spec fn program_ok(t: Seq<(nat, Step)>, i: int) -> bool {
    exists|n: Seq<Node>| #[trigger] nodes_mark(n, 0) && program_rel(t, i, n)
}

/// Two kinds of one token start the same rules.
pub proof fn lemma_prefix_rule_kind(t: Seq<(nat, Step)>, i: int, e: Expression, m: int, k: TokenType)
    requires
        prefix_rel(t, i, e, m),
        kind_of(k, lx_at(t, i)),
    ensures
        crate::parser::has_prefix_rule(k),
{
    if atom_rel(t, i, e) {
        let a = choose|kind: TokenType| kind_of(kind, lx_at(t, i)) && #[trigger] atom_of(kind) == Some(e);
        assert(kind_of(a, lx_at(t, i)));
    }
}

/// What follows the first statement of a program is a program too.
pub proof fn lemma_program_tail(t: Seq<(nat, Step)>, i: int, n: Seq<Node>, b: Seq<int>)
    requires
        n.len() > 0,
        b.len() == n.len(),
        forall|q: int| 0 <= q < b.len() ==> #[trigger] stmt_rel(t, stmt_start(t, i, b, q), n[q], b[q]),
        is_at(t, skip_sep(t, if b.len() == 0 { i } else { b.last() + 1 }), TokenType::Eof),
    ensures
        program_rel(t, b[0] + 1, n.drop_first()),
{
    let b2 = b.drop_first();
    let n2 = n.drop_first();
    assert forall|q: int| 0 <= q < b2.len() implies #[trigger] stmt_rel(t, stmt_start(t, b[0] + 1, b2, q), n2[q], b2[q]) by {
        assert(stmt_start(t, b[0] + 1, b2, q) == stmt_start(t, i, b, q + 1));
        assert(stmt_rel(t, stmt_start(t, i, b, q + 1), n[q + 1], b[q + 1]));
    }
    assert(marks(b2));
}

} // verus!
