//! The concrete syntax of programs: which stretch of a token list spells a
//! given piece of syntax tree. A stretch is given by its first index and
//! the index just past its end. Expressions are spelled at precedence
//! levels, so that operators bind and associate as the parser reads them.
use vstd::prelude::*;
use crate::ast::{block_like, BinaryOp, Binding, Block, ElseBranch, Expr, FunctionDecl, Program, Statement, TypeNode, UnaryOp};
use crate::lexer::{Keyword, Token, TokenKind};
use crate::text::parse_unsigned;

verus! {

/// Token `i` of `ts` exists and has kind `k`.
pub open spec fn kind_at(ts: Seq<Token>, i: int, k: TokenKind) -> bool {
    0 <= i < ts.len() && ts[i].kind == k
}

/// Token `i` of `ts` is the keyword `kw`.
pub open spec fn keyword_at(ts: Seq<Token>, i: int, kw: Keyword) -> bool {
    kind_at(ts, i, TokenKind::Keyword(kw))
}

/// Token `i` of `ts` has kind `k` and the text `text`.
pub open spec fn text_at(ts: Seq<Token>, i: int, k: TokenKind, text: Seq<char>) -> bool {
    kind_at(ts, i, k) && ts[i].lexeme@ == text
}

/// A position between tokens (or at either end) of `ts`; it marks where one
/// part of a construct ends and the next begins.
pub open spec fn boundary(ts: Seq<Token>, i: int) -> bool {
    0 <= i <= ts.len()
}

/// The token that spells a binary operator.
pub open spec fn op_token(op: BinaryOp) -> TokenKind {
    match op {
        BinaryOp::Add => TokenKind::Plus,
        BinaryOp::Sub => TokenKind::Minus,
        BinaryOp::Mul => TokenKind::Star,
        BinaryOp::Div => TokenKind::Slash,
        BinaryOp::Lt => TokenKind::Less,
        BinaryOp::Le => TokenKind::LessEqual,
        BinaryOp::Gt => TokenKind::Greater,
        BinaryOp::Ge => TokenKind::GreaterEqual,
        BinaryOp::Eq => TokenKind::EqualEqual,
        BinaryOp::Ne => TokenKind::NotEqual,
        BinaryOp::Range => TokenKind::DotDot,
    }
}

/// Tokens `a..c` are `n >= 1` non-empty items separated by commas, item
/// `i` spanning `starts[i]..ends[i]`; with `trailing`, one more comma
/// closes the list.
pub open spec fn comma_list(
    ts: Seq<Token>,
    a: int,
    c: int,
    starts: Seq<int>,
    ends: Seq<int>,
    n: nat,
    trailing: bool,
) -> bool {
    &&& n >= 1
    &&& starts.len() == n
    &&& ends.len() == n
    &&& starts[0] == a
    &&& forall|i: int| 0 <= i < n ==> #[trigger] starts[i] < ends[i]
    &&& forall|i: int|
        0 <= i < n - 1 ==> kind_at(ts, #[trigger] ends[i], TokenKind::Comma) && starts[i + 1] == ends[i] + 1
    &&& if trailing {
        ends[n - 1] + 1 == c && kind_at(ts, ends[n - 1], TokenKind::Comma)
    } else {
        ends[n - 1] == c
    }
}

/// Tokens `a..c` spell the type `t`.
pub open spec fn spells_type(t: TypeNode, ts: Seq<Token>, a: int, c: int) -> bool
    decreases t,
{
    match t {
        TypeNode::Named { name } => c == a + 1 && keyword_at(ts, a, Keyword::I32) && name@ == "i32"@,
        TypeNode::Reference { mutable, ty } => kind_at(ts, a, TokenKind::Ampersand) && if mutable {
            keyword_at(ts, a + 1, Keyword::Mut) && spells_type(*ty, ts, a + 2, c)
        } else {
            spells_type(*ty, ts, a + 1, c)
        },
        TypeNode::Array { element, length } => {
            &&& kind_at(ts, a, TokenKind::LBracket)
            &&& spells_type(*element, ts, a + 1, c - 3)
            &&& kind_at(ts, c - 3, TokenKind::Semicolon)
            &&& kind_at(ts, c - 2, TokenKind::Number)
            &&& parse_unsigned(ts[c - 2].lexeme@, usize::MAX as nat) == Some(length as nat)
            &&& kind_at(ts, c - 1, TokenKind::RBracket)
        },
        TypeNode::Tuple { elements } => {
            &&& kind_at(ts, a, TokenKind::LParen)
            &&& kind_at(ts, c - 1, TokenKind::RParen)
            &&& {
                ||| (elements@.len() == 1 && spells_type(elements@[0], ts, a + 1, c - 2) && kind_at(
                    ts,
                    c - 2,
                    TokenKind::Comma,
                ))
                ||| (elements@.len() >= 2 && exists|ss: Seq<int>, es: Seq<int>, tr: bool|
                    #[trigger] comma_list(ts, a + 1, c - 1, ss, es, elements@.len(), tr) && forall|i: int|
                        0 <= i < elements@.len() ==> spells_type(#[trigger] elements@[i], ts, ss[i], es[i]))
            }
        },
        TypeNode::Unit => c == a + 2 && kind_at(ts, a, TokenKind::LParen) && kind_at(ts, a + 1, TokenKind::RParen),
    }
}

/// Tokens `a..c` spell the binding `b`: `mut`, the name, then `: type`.
pub open spec fn spells_binding(b: Binding, ts: Seq<Token>, a: int, c: int) -> bool {
    let m: int = if b.mutable { 1 } else { 0 };
    &&& b.mutable ==> keyword_at(ts, a, Keyword::Mut)
    &&& text_at(ts, a + m, TokenKind::Identifier, b.name@)
    &&& match b.ty {
        None => c == a + m + 1,
        Some(t) => kind_at(ts, a + m + 1, TokenKind::Colon) && spells_type(t, ts, a + m + 2, c),
    }
}

/// The boundaries of the statements of a block: `n + 1` positions from
/// `start` on.
pub open spec fn block_bounds(bs: Seq<int>, n: nat, start: int) -> bool {
    bs.len() == n + 1 && bs[0] == start
}

/// The precedence level of a binary operator: comparisons bind loosest
/// (level 0), then `+ -` (1), then `* /` (2). A range has no level: it
/// only appears as the iterable of a `for` loop.
pub open spec fn op_level(op: BinaryOp) -> int {
    match op {
        BinaryOp::Lt | BinaryOp::Le | BinaryOp::Gt | BinaryOp::Ge | BinaryOp::Eq | BinaryOp::Ne => 0,
        BinaryOp::Add | BinaryOp::Sub => 1,
        BinaryOp::Mul | BinaryOp::Div => 2,
        BinaryOp::Range => -1,
    }
}

/// Tokens `a..c` spell the expression `e` at precedence level `lvl`:
/// 0 comparisons, 1 sums, 2 products, 3 prefix operators, 4 calls, indexing
/// and field accesses, 5 primary expressions. An expression of a level may
/// stand wherever a lower level is expected; binary operators associate to
/// the left; parentheses bring any expression back to the primary level.
pub open spec fn spells_expr(e: Expr, ts: Seq<Token>, a: int, c: int, lvl: int) -> bool
    decreases e, c - a, 5 - lvl,
{
    if lvl < 5 {
        ||| spells_expr(e, ts, a, c, lvl + 1)
        ||| match e {
            Expr::Binary { left, op, right } => 0 <= lvl <= 2 && op_level(op) == lvl && exists|b: int|
                #[trigger] boundary(ts, b) && spells_expr(*left, ts, a, b, lvl) && kind_at(ts, b, op_token(op))
                    && spells_expr(*right, ts, b + 1, c, lvl + 1),
            Expr::Unary { op, expr } => lvl == 3 && match op {
                UnaryOp::Ref => kind_at(ts, a, TokenKind::Ampersand) && spells_expr(*expr, ts, a + 1, c, 3),
                UnaryOp::RefMut => kind_at(ts, a, TokenKind::Ampersand) && keyword_at(ts, a + 1, Keyword::Mut)
                    && spells_expr(*expr, ts, a + 2, c, 3),
                UnaryOp::Deref => kind_at(ts, a, TokenKind::Star) && spells_expr(*expr, ts, a + 1, c, 3),
                UnaryOp::Neg => kind_at(ts, a, TokenKind::Minus) && spells_expr(*expr, ts, a + 1, c, 4),
            },
            Expr::Call { callee, args } => lvl == 4 && exists|b: int|
                #[trigger] boundary(ts, b) && spells_expr(*callee, ts, a, b, 4) && kind_at(ts, b, TokenKind::LParen)
                    && kind_at(ts, c - 1, TokenKind::RParen) && {
                    ||| (args@.len() == 0 && b + 1 == c - 1)
                    ||| (args@.len() >= 1 && exists|ss: Seq<int>, es: Seq<int>, tr: bool|
                        #[trigger] comma_list(ts, b + 1, c - 1, ss, es, args@.len(), tr) && forall|i: int|
                            0 <= i < args@.len() ==> spells_expr(#[trigger] args@[i], ts, ss[i], es[i], 0))
                },
            Expr::Index { base, index } => lvl == 4 && exists|b: int|
                #[trigger] boundary(ts, b) && spells_expr(*base, ts, a, b, 4) && kind_at(ts, b, TokenKind::LBracket)
                    && spells_expr(*index, ts, b + 1, c - 1, 0) && kind_at(ts, c - 1, TokenKind::RBracket),
            Expr::Field { base, field } => lvl == 4 && spells_expr(*base, ts, a, c - 2, 4) && kind_at(
                ts,
                c - 2,
                TokenKind::Dot,
            ) && text_at(ts, c - 1, TokenKind::Number, field@),
            _ => false,
        }
    } else {
        ||| (kind_at(ts, a, TokenKind::LParen) && kind_at(ts, c - 1, TokenKind::RParen) && a + 1 < c - 1
            && spells_expr(e, ts, a + 1, c - 1, 0))
        ||| match e {
            Expr::Identifier { name } => c == a + 1 && text_at(ts, a, TokenKind::Identifier, name@),
            Expr::Number { value } => c == a + 1 && text_at(ts, a, TokenKind::Number, value@),
            Expr::Array { elements } => kind_at(ts, a, TokenKind::LBracket) && kind_at(ts, c - 1, TokenKind::RBracket)
                && {
                ||| (elements@.len() == 0 && a + 1 == c - 1)
                ||| (elements@.len() >= 1 && exists|ss: Seq<int>, es: Seq<int>, tr: bool|
                    #[trigger] comma_list(ts, a + 1, c - 1, ss, es, elements@.len(), tr) && forall|i: int|
                        0 <= i < elements@.len() ==> spells_expr(#[trigger] elements@[i], ts, ss[i], es[i], 0))
            },
            Expr::Tuple { elements } => kind_at(ts, a, TokenKind::LParen) && kind_at(ts, c - 1, TokenKind::RParen)
                && {
                ||| (elements@.len() == 0 && c == a + 2)
                ||| (elements@.len() == 1 && spells_expr(elements@[0], ts, a + 1, c - 2, 0) && kind_at(
                    ts,
                    c - 2,
                    TokenKind::Comma,
                ))
                ||| (elements@.len() >= 2 && exists|ss: Seq<int>, es: Seq<int>, tr: bool|
                    #[trigger] comma_list(ts, a + 1, c - 1, ss, es, elements@.len(), tr) && forall|i: int|
                        0 <= i < elements@.len() ==> spells_expr(#[trigger] elements@[i], ts, ss[i], es[i], 0))
            },
            Expr::Block { block } => spells_block(block, ts, a, c),
            Expr::If { condition, then_branch, else_branch } => keyword_at(ts, a, Keyword::If) && exists|
                b1: int,
                b2: int,
            |
                #![trigger boundary(ts, b1), boundary(ts, b2)]
                boundary(ts, b1) && boundary(ts, b2) && spells_expr(*condition, ts, a + 1, b1, 0) && spells_block(
                    then_branch,
                    ts,
                    b1,
                    b2,
                ) && spells_else(else_branch, ts, b2, c),
            Expr::Loop { body } => keyword_at(ts, a, Keyword::Loop) && spells_block(body, ts, a + 1, c),
            _ => false,
        }
    }
}

/// Tokens `a..c` spell the `else` part of an `if` (nothing when absent).
pub open spec fn spells_else(e: ElseBranch, ts: Seq<Token>, a: int, c: int) -> bool
    decreases e, c - a, 0int,
{
    match e {
        ElseBranch::NoElse => a == c,
        ElseBranch::Block { block } => keyword_at(ts, a, Keyword::Else) && spells_block(block, ts, a + 1, c),
        ElseBranch::ElseIf { expr } => keyword_at(ts, a, Keyword::Else) && spells_expr(*expr, ts, a + 1, c, 5),
    }
}

/// Tokens `a..c` spell the block `b`: braces around its statements and its
/// optional tail expression.
pub open spec fn spells_block(b: Block, ts: Seq<Token>, a: int, c: int) -> bool
    decreases b, c - a, 0int,
{
    &&& kind_at(ts, a, TokenKind::LBrace)
    &&& kind_at(ts, c - 1, TokenKind::RBrace)
    &&& exists|bs: Seq<int>|
        #[trigger] block_bounds(bs, b.statements@.len(), a + 1) && (forall|i: int|
            0 <= i < b.statements@.len() ==> spells_stmt(#[trigger] b.statements@[i], ts, bs[i], bs[i + 1]))
            && match b.tail {
            None => bs[b.statements@.len() as int] == c - 1,
            Some(t) => spells_expr(*t, ts, bs[b.statements@.len() as int], c - 1, 0),
        }
}

/// Tokens `a..c` spell the statement `s`.
pub open spec fn spells_stmt(s: Statement, ts: Seq<Token>, a: int, c: int) -> bool
    decreases s, c - a, 0int,
{
    match s {
        Statement::Empty => c == a + 1 && kind_at(ts, a, TokenKind::Semicolon),
        Statement::Let { binding, init } => keyword_at(ts, a, Keyword::Let) && kind_at(ts, c - 1, TokenKind::Semicolon)
            && exists|b: int|
            #[trigger] boundary(ts, b) && spells_binding(binding, ts, a + 1, b) && match init {
                None => b == c - 1,
                Some(x) => kind_at(ts, b, TokenKind::Assign) && spells_expr(*x, ts, b + 1, c - 1, 0),
            },
        Statement::Assign { target, value } => kind_at(ts, c - 1, TokenKind::Semicolon) && exists|b: int|
            #[trigger] boundary(ts, b) && spells_expr(*target, ts, a, b, 0) && kind_at(ts, b, TokenKind::Assign)
                && spells_expr(*value, ts, b + 1, c - 1, 0),
        Statement::Expr { expr } => {
            ||| (kind_at(ts, c - 1, TokenKind::Semicolon) && spells_expr(*expr, ts, a, c - 1, 0))
            ||| (block_like(*expr) && spells_expr(*expr, ts, a, c, 0) && !kind_at(ts, c, TokenKind::Semicolon)
                && !kind_at(ts, c, TokenKind::RBrace))
        },
        Statement::Return { value } => keyword_at(ts, a, Keyword::Return) && kind_at(ts, c - 1, TokenKind::Semicolon)
            && match value {
            None => c == a + 2,
            Some(x) => spells_expr(*x, ts, a + 1, c - 1, 0),
        },
        Statement::While { condition, body } => keyword_at(ts, a, Keyword::While) && exists|b: int|
            #[trigger] boundary(ts, b) && spells_expr(*condition, ts, a + 1, b, 0) && spells_block(body, ts, b, c),
        Statement::For { binding, iterable, body } => keyword_at(ts, a, Keyword::For) && exists|b1: int, b2: int|
            #![trigger boundary(ts, b1), boundary(ts, b2)]
            boundary(ts, b1) && boundary(ts, b2) && spells_binding(binding, ts, a + 1, b1) && keyword_at(ts, b1, Keyword::In) && spells_block(body, ts, b2, c)
                && match *iterable {
                Expr::Binary { left, op: BinaryOp::Range, right } => exists|m: int|
                    #[trigger] boundary(ts, m) && spells_expr(*left, ts, b1 + 1, m, 0) && kind_at(ts, m, TokenKind::DotDot)
                        && spells_expr(*right, ts, m + 1, b2, 0),
                _ => spells_expr(*iterable, ts, b1 + 1, b2, 0),
            },
        Statement::Break { value } => keyword_at(ts, a, Keyword::Break) && kind_at(ts, c - 1, TokenKind::Semicolon)
            && match value {
            None => c == a + 2,
            Some(x) => spells_expr(*x, ts, a + 1, c - 1, 0),
        },
        Statement::Continue => c == a + 2 && keyword_at(ts, a, Keyword::Continue) && kind_at(
            ts,
            a + 1,
            TokenKind::Semicolon,
        ),
    }
}

/// Tokens `a..c` spell the iterable of a `for` loop: a range `x..y` or an
/// expression.
pub open spec fn spells_iterable(e: Expr, ts: Seq<Token>, a: int, c: int) -> bool {
    match e {
        Expr::Binary { left, op: BinaryOp::Range, right } => exists|m: int|
            #[trigger] boundary(ts, m) && spells_expr(*left, ts, a, m, 0) && kind_at(ts, m, TokenKind::DotDot) && spells_expr(*right, ts, m + 1, c, 0),
        _ => spells_expr(e, ts, a, c, 0),
    }
}

/// Tokens `a..c` spell the parameter list (without its parentheses).
pub open spec fn spells_params(ps: Seq<Binding>, ts: Seq<Token>, a: int, c: int) -> bool {
    ||| (ps.len() == 0 && a == c)
    ||| (ps.len() >= 1 && exists|ss: Seq<int>, es: Seq<int>|
        #[trigger] comma_list(ts, a, c, ss, es, ps.len(), false) && forall|i: int|
            0 <= i < ps.len() ==> spells_binding(#[trigger] ps[i], ts, ss[i], es[i]))
}

/// Tokens `a..c` spell the function `f`.
pub open spec fn spells_function(f: FunctionDecl, ts: Seq<Token>, a: int, c: int) -> bool {
    &&& keyword_at(ts, a, Keyword::Fn)
    &&& text_at(ts, a + 1, TokenKind::Identifier, f.name@)
    &&& kind_at(ts, a + 2, TokenKind::LParen)
    &&& exists|p: int, b: int|
        #![trigger boundary(ts, p), boundary(ts, b)]
        boundary(ts, p) && boundary(ts, b) && spells_params(f.params@, ts, a + 3, p) && kind_at(ts, p, TokenKind::RParen) && spells_block(f.body, ts, b, c)
            && match f.return_type {
            None => b == p + 1,
            Some(t) => kind_at(ts, p + 1, TokenKind::Arrow) && spells_type(t, ts, p + 2, b),
        }
}

/// The whole token list spells the program `p`: its functions one after
/// the other, optionally followed by the end marker `#`.
pub open spec fn spells_program(p: Program, ts: Seq<Token>) -> bool {
    exists|bs: Seq<int>|
        #[trigger] block_bounds(bs, p.functions@.len(), 0) && (forall|i: int|
            0 <= i < p.functions@.len() ==> spells_function(#[trigger] p.functions@[i], ts, bs[i], bs[i + 1])) && (
        bs[p.functions@.len() as int] == ts.len() || (bs[p.functions@.len() as int] + 1 == ts.len() && kind_at(
            ts,
            bs[p.functions@.len() as int],
            TokenKind::EndMarker,
        )))
}

/// Tokens `a..c` spell the expressions `xs` separated by commas, with an
/// optional trailing comma (nothing when `xs` is empty).
pub open spec fn spells_expr_list(xs: Seq<Expr>, ts: Seq<Token>, a: int, c: int) -> bool {
    ||| (xs.len() == 0 && a == c)
    ||| (xs.len() >= 1 && exists|ss: Seq<int>, es: Seq<int>, tr: bool|
        #[trigger] comma_list(ts, a, c, ss, es, xs.len(), tr) && forall|i: int|
            0 <= i < xs.len() ==> spells_expr(#[trigger] xs[i], ts, ss[i], es[i], 0))
}

} // verus!

verus! {

/// Some type is spelled from token `a` on.
pub open spec fn type_at(ts: Seq<Token>, a: int) -> bool {
    exists|t: TypeNode, c: int| #[trigger] spells_type(t, ts, a, c)
}

/// A type starts with `i32`, `&`, `[` or `(`, and spans at least one token.
pub proof fn lemma_type_first(t: TypeNode, ts: Seq<Token>, a: int, c: int)
    requires
        spells_type(t, ts, a, c),
    ensures
        a < c,
        keyword_at(ts, a, Keyword::I32) || kind_at(ts, a, TokenKind::Ampersand) || kind_at(ts, a, TokenKind::LBracket)
            || kind_at(ts, a, TokenKind::LParen),
    decreases t,
{
    match t {
        TypeNode::Reference { mutable, ty } => {
            if mutable {
                lemma_type_first(*ty, ts, a + 2, c);
            } else {
                lemma_type_first(*ty, ts, a + 1, c);
            }
        },
        TypeNode::Array { element, .. } => {
            lemma_type_first(*element, ts, a + 1, c - 3);
        },
        TypeNode::Tuple { elements } => {
            if elements@.len() == 1 {
                lemma_type_first(elements@[0], ts, a + 1, c - 2);
            } else {
                let (ss, es, tr) = choose|ss: Seq<int>, es: Seq<int>, tr: bool|
                    #[trigger] comma_list(ts, a + 1, c - 1, ss, es, elements@.len(), tr) && forall|i: int|
                        0 <= i < elements@.len() ==> spells_type(#[trigger] elements@[i], ts, ss[i], es[i]);
                lemma_list_ends_grow(ts, a + 1, c - 1, ss, es, elements@.len(), tr, elements@.len() - 1);
            }
        },
        _ => {},
    }
}

/// The items of a comma list end further and further on.
proof fn lemma_list_ends_grow(ts: Seq<Token>, a: int, c: int, ss: Seq<int>, es: Seq<int>, n: nat, tr: bool, k: int)
    requires
        comma_list(ts, a, c, ss, es, n, tr),
        0 <= k < n,
    ensures
        a < es[k],
    decreases k,
{
    if k > 0 {
        lemma_list_ends_grow(ts, a, c, ss, es, n, tr, k - 1);
    }
}

/// Where a type is spelled from `a` on, its end is fixed: the type syntax
/// is unambiguous.
pub proof fn lemma_type_end_unique(t1: TypeNode, t2: TypeNode, ts: Seq<Token>, a: int, c1: int, c2: int)
    requires
        spells_type(t1, ts, a, c1),
        spells_type(t2, ts, a, c2),
    ensures
        c1 == c2,
    decreases t1, 1int, 0int,
{
    match t1 {
        TypeNode::Named { .. } => {
            lemma_type_first(t2, ts, a, c2);
        },
        TypeNode::Reference { mutable: m1, ty: ty1 } => {
            match t2 {
                TypeNode::Reference { mutable: m2, ty: ty2 } => {
                    if m1 && !m2 {
                        lemma_type_first(*ty2, ts, a + 1, c2);
                    } else if !m1 && m2 {
                        lemma_type_first(*ty1, ts, a + 1, c1);
                    } else if m1 {
                        lemma_type_end_unique(*ty1, *ty2, ts, a + 2, c1, c2);
                    } else {
                        lemma_type_end_unique(*ty1, *ty2, ts, a + 1, c1, c2);
                    }
                },
                _ => {},
            }
        },
        TypeNode::Array { element: e1, .. } => {
            match t2 {
                TypeNode::Array { element: e2, .. } => {
                    lemma_type_end_unique(*e1, *e2, ts, a + 1, c1 - 3, c2 - 3);
                },
                _ => {},
            }
        },
        TypeNode::Unit => {
            match t2 {
                TypeNode::Tuple { elements } => {
                    if elements@.len() == 1 {
                        lemma_type_first(elements@[0], ts, a + 1, c2 - 2);
                    } else {
                        let (ss, es, tr) = choose|ss: Seq<int>, es: Seq<int>, tr: bool|
                            #[trigger] comma_list(ts, a + 1, c2 - 1, ss, es, elements@.len(), tr) && forall|i: int|
                                0 <= i < elements@.len() ==> spells_type(#[trigger] elements@[i], ts, ss[i], es[i]);
                        lemma_type_first(elements@[0], ts, a + 1, es[0]);
                    }
                },
                _ => {},
            }
        },
        TypeNode::Tuple { elements: x1 } => {
            match t2 {
                TypeNode::Unit => {
                    if x1@.len() == 1 {
                        lemma_type_first(x1@[0], ts, a + 1, c1 - 2);
                    } else {
                        let (ss, es, tr) = choose|ss: Seq<int>, es: Seq<int>, tr: bool|
                            #[trigger] comma_list(ts, a + 1, c1 - 1, ss, es, x1@.len(), tr) && forall|i: int|
                                0 <= i < x1@.len() ==> spells_type(#[trigger] x1@[i], ts, ss[i], es[i]);
                        lemma_type_first(x1@[0], ts, a + 1, es[0]);
                    }
                },
                TypeNode::Tuple { elements: x2 } => {
                    lemma_tuple_end_unique(t1, t2, ts, a, c1, c2);
                },
                _ => {},
            }
        },
    }
}

/// Where a tuple type is spelled from `a` on, its end is fixed.
proof fn lemma_tuple_end_unique(t1: TypeNode, t2: TypeNode, ts: Seq<Token>, a: int, c1: int, c2: int)
    requires
        t1 is Tuple,
        t2 is Tuple,
        spells_type(t1, ts, a, c1),
        spells_type(t2, ts, a, c2),
    ensures
        c1 == c2,
    decreases t1, 0int, t1->Tuple_elements@.len() + 1,
{
    let x1 = t1->Tuple_elements@;
    let x2 = t2->Tuple_elements@;
    let one1 = x1.len() == 1 && spells_type(x1[0], ts, a + 1, c1 - 2) && kind_at(ts, c1 - 2, TokenKind::Comma);
    let one2 = x2.len() == 1 && spells_type(x2[0], ts, a + 1, c2 - 2) && kind_at(ts, c2 - 2, TokenKind::Comma);
    if one1 && one2 {
        assert(decreases_to!(t1 => x1[0]));
        lemma_type_end_unique(x1[0], x2[0], ts, a + 1, c1 - 2, c2 - 2);
    } else if one1 {
        let (ss, es, tr) = choose|ss: Seq<int>, es: Seq<int>, tr: bool|
            #[trigger] comma_list(ts, a + 1, c2 - 1, ss, es, x2.len(), tr) && forall|i: int|
                0 <= i < x2.len() ==> spells_type(#[trigger] x2[i], ts, ss[i], es[i]);
        assert(decreases_to!(t1 => x1[0]));
        lemma_type_end_unique(x1[0], x2[0], ts, a + 1, c1 - 2, es[0]);
        lemma_type_first(x2[1], ts, ss[1], es[1]);
    } else if one2 {
        let (ss, es, tr) = choose|ss: Seq<int>, es: Seq<int>, tr: bool|
            #[trigger] comma_list(ts, a + 1, c1 - 1, ss, es, x1.len(), tr) && forall|i: int|
                0 <= i < x1.len() ==> spells_type(#[trigger] x1[i], ts, ss[i], es[i]);
        assert(decreases_to!(t1 => x1[0]));
        lemma_type_end_unique(x1[0], x2[0], ts, a + 1, es[0], c2 - 2);
        lemma_type_first(x1[1], ts, ss[1], es[1]);
    } else {
        let (ss1, es1, tr1) = choose|ss: Seq<int>, es: Seq<int>, tr: bool|
            #[trigger] comma_list(ts, a + 1, c1 - 1, ss, es, x1.len(), tr) && forall|i: int|
                0 <= i < x1.len() ==> spells_type(#[trigger] x1[i], ts, ss[i], es[i]);
        let (ss2, es2, tr2) = choose|ss: Seq<int>, es: Seq<int>, tr: bool|
            #[trigger] comma_list(ts, a + 1, c2 - 1, ss, es, x2.len(), tr) && forall|i: int|
                0 <= i < x2.len() ==> spells_type(#[trigger] x2[i], ts, ss[i], es[i]);
        lemma_items_end_unique(t1, x2, ts, ss1, es1, tr1, c1 - 1, ss2, es2, tr2, c2 - 1, 0);
    }
}

/// Two comma lists of types from the same start, each closed by `)`, whose
/// items agree up to item `k`, have the same items' ends and the same end.
proof fn lemma_items_end_unique(
    t1: TypeNode,
    x2: Seq<TypeNode>,
    ts: Seq<Token>,
    ss1: Seq<int>,
    es1: Seq<int>,
    tr1: bool,
    l1: int,
    ss2: Seq<int>,
    es2: Seq<int>,
    tr2: bool,
    l2: int,
    k: int,
)
    requires
        t1 is Tuple,
        comma_list(ts, ss1[0], l1, ss1, es1, t1->Tuple_elements@.len(), tr1),
        comma_list(ts, ss2[0], l2, ss2, es2, x2.len(), tr2),
        forall|i: int| 0 <= i < t1->Tuple_elements@.len() ==> spells_type(#[trigger] t1->Tuple_elements@[i], ts, ss1[i], es1[i]),
        forall|i: int| 0 <= i < x2.len() ==> spells_type(#[trigger] x2[i], ts, ss2[i], es2[i]),
        kind_at(ts, l1, TokenKind::RParen),
        kind_at(ts, l2, TokenKind::RParen),
        0 <= k < t1->Tuple_elements@.len(),
        k < x2.len(),
        ss1[k] == ss2[k],
    ensures
        l1 == l2,
    decreases t1, 0int, t1->Tuple_elements@.len() - k,
{
    let x1 = t1->Tuple_elements@;
    assert(decreases_to!(t1 => x1[k]));
    lemma_type_end_unique(x1[k], x2[k], ts, ss1[k], es1[k], es2[k]);
    let n1 = x1.len() as int;
    let n2 = x2.len() as int;
    if k < n1 - 1 && k < n2 - 1 {
        lemma_items_end_unique(t1, x2, ts, ss1, es1, tr1, l1, ss2, es2, tr2, l2, k + 1);
    } else if k < n2 - 1 {
        lemma_type_first(x2[k + 1], ts, ss2[k + 1], es2[k + 1]);
    } else if k < n1 - 1 {
        lemma_type_first(x1[k + 1], ts, ss1[k + 1], es1[k + 1]);
    }
}

} // verus!
