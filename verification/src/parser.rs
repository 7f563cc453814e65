//! Recursive-descent parser: tokens to an abstract syntax tree.
use vstd::prelude::*;
use crate::ast::{
    block_like, block_wf, callable, else_wf, expr_wf, function_wf, iterable_wf, program_wf, stmt_wf, BinaryOp, Binding,
    Block, ElseBranch, Expr, FunctionDecl, Program, Statement, TypeNode, UnaryOp,
};
use crate::lexer::{Keyword, Position, Token, TokenKind};
use crate::syntax::{
    block_bounds, boundary, comma_list, kind_at, keyword_at, op_level, op_token, spells_binding, spells_block, spells_else, spells_expr,
    spells_expr_list, spells_function, spells_iterable, spells_params, spells_program, spells_stmt, spells_type, text_at, type_at, lemma_type_first, lemma_type_end_unique,
};
use crate::text::parse_bounded;

verus! {

/// A syntax error: a message and the position of the offending token.
#[derive(Debug, Clone, PartialEq, Eq)]
pub struct ParseError {
    pub message: String,
    pub position: Position,
}

/// Where a syntax error found at token index `cur` is reported: at that
/// token, at the last token when the input ran out, or at 1:1 for an empty
/// token list.
pub open spec fn error_position(ts: Seq<Token>, cur: int) -> Position {
    if 0 <= cur < ts.len() {
        ts[cur].position
    } else if ts.len() > 0 {
        ts.last().position
    } else {
        Position { line: 1, column: 1 }
    }
}

/// Tokens `i..i + 6` are a function without parameters, return type or
/// body: `fn name ( ) { }`.
pub open spec fn empty_function_at(ts: Seq<Token>, i: int) -> bool {
    &&& keyword_at(ts, i, Keyword::Fn)
    &&& kind_at(ts, i + 1, TokenKind::Identifier)
    &&& kind_at(ts, i + 2, TokenKind::LParen)
    &&& kind_at(ts, i + 3, TokenKind::RParen)
    &&& kind_at(ts, i + 4, TokenKind::LBrace)
    &&& kind_at(ts, i + 5, TokenKind::RBrace)
}

/// The tokens are `n` functions `fn name ( ) { }` one after the other,
/// with or without a closing `#`.
pub open spec fn empty_functions(ts: Seq<Token>, n: nat) -> bool {
    &&& (ts.len() == 6 * n || (ts.len() == 6 * n + 1 && ts.last().kind == TokenKind::EndMarker))
    &&& forall|k: int| 0 <= k < n ==> #[trigger] empty_function_at(ts, 6 * k)
}

/// Token `i` is a name or an integer literal.
pub open spec fn atom_at(ts: Seq<Token>, i: int) -> bool {
    kind_at(ts, i, TokenKind::Number) || kind_at(ts, i, TokenKind::Identifier)
}

/// How tightly a binary operator token binds: comparisons 0, `+ -` 1,
/// `* /` 2; other tokens are no binary operator.
pub open spec fn operator_level(k: TokenKind) -> Option<int> {
    match k {
        TokenKind::Less | TokenKind::LessEqual | TokenKind::Greater | TokenKind::GreaterEqual | TokenKind::EqualEqual
        | TokenKind::NotEqual => Some(0),
        TokenKind::Plus | TokenKind::Minus => Some(1),
        TokenKind::Star | TokenKind::Slash => Some(2),
        _ => None,
    }
}

/// Token `i` is a binary operator.
pub open spec fn operator_at(ts: Seq<Token>, i: int) -> bool {
    0 <= i < ts.len() && operator_level(ts[i].kind) is Some
}

/// No expression continues at token `i`: the input ends there, or the
/// token is no binary operator and opens no call, index or field.
pub open spec fn stops_at(ts: Seq<Token>, i: int) -> bool {
    !(0 <= i < ts.len()) || !(operator_level(ts[i].kind) is Some || ts[i].kind == TokenKind::LParen || ts[i].kind
        == TokenKind::LBracket || ts[i].kind == TokenKind::Dot)
}

/// How many tokens the simple operand at `i` spans: a name or literal,
/// possibly after `-`, `*`, `&` or `&mut`; 0 where none starts.
pub open spec fn operand_len(ts: Seq<Token>, i: int) -> int {
    if atom_at(ts, i) {
        1
    } else if (kind_at(ts, i, TokenKind::Minus) || kind_at(ts, i, TokenKind::Star)) && atom_at(ts, i + 1) {
        2
    } else if kind_at(ts, i, TokenKind::Ampersand) && atom_at(ts, i + 1) {
        2
    } else if kind_at(ts, i, TokenKind::Ampersand) && keyword_at(ts, i + 1, Keyword::Mut) && atom_at(ts, i + 2) {
        3
    } else {
        0
    }
}

/// Tokens `a..c` are simple operands joined by binary operators, and no
/// expression continues at `c`.
pub open spec fn flat_chain(ts: Seq<Token>, a: int, c: int) -> bool
    decreases c - a,
{
    let n = operand_len(ts, a);
    if a < c && n > 0 && !kind_at(ts, a + n, TokenKind::LParen) && !kind_at(ts, a + n, TokenKind::LBracket)
        && !kind_at(ts, a + n, TokenKind::Dot) {
        if c == a + n {
            stops_at(ts, c)
        } else if a + n < c {
            operator_at(ts, a + n) && flat_chain(ts, a + n + 1, c)
        } else {
            false
        }
    } else {
        false
    }
}

/// No call, index or field continues after the token at `i`.
pub open spec fn stops_after_atom(ts: Seq<Token>, i: int) -> bool {
    !kind_at(ts, i + 1, TokenKind::LParen) && !kind_at(ts, i + 1, TokenKind::LBracket) && !kind_at(
        ts,
        i + 1,
        TokenKind::Dot,
    )
}

/// From token `j` on, a flat chain ending at `c` goes on with an operator
/// binding less tightly than `level`, or has ended.
pub open spec fn flat_rest(ts: Seq<Token>, j: int, c: int, level: int) -> bool {
    (j == c && stops_at(ts, c)) || (operator_at(ts, j) && operator_level(ts[j].kind)->0 < level && flat_chain(
        ts,
        j + 1,
        c,
    ))
}

/// Tokens `i..c + 2` are `if e {}` with `e` a flat chain ending at `c`, not
/// followed by `else`, and no expression continues after it.
pub open spec fn if_form(ts: Seq<Token>, i: int, c: int) -> bool {
    &&& keyword_at(ts, i, Keyword::If)
    &&& flat_chain(ts, i + 1, c)
    &&& kind_at(ts, c, TokenKind::LBrace)
    &&& kind_at(ts, c + 1, TokenKind::RBrace)
    &&& !keyword_at(ts, c + 2, Keyword::Else)
    &&& stops_at(ts, c + 2)
}

/// Tokens `i..j` are a binding `x`, `mut x`, `x: i32` or `mut x: i32`.
pub open spec fn simple_binding(ts: Seq<Token>, i: int, j: int) -> bool {
    let n: int = if keyword_at(ts, i, Keyword::Mut) { 1 } else { 0 };
    &&& kind_at(ts, i + n, TokenKind::Identifier)
    &&& {
        ||| (j == i + n + 1 && !kind_at(ts, j, TokenKind::Colon))
        ||| (kind_at(ts, i + n + 1, TokenKind::Colon) && keyword_at(ts, i + n + 2, Keyword::I32) && j == i + n + 3)
    }
}

/// Tokens `s..e` are an iterable `e1..e2` or `e1`, each a flat chain.
pub open spec fn simple_iterable(ts: Seq<Token>, s: int, e: int) -> bool {
    ||| (flat_chain(ts, s, e) && !kind_at(ts, e, TokenKind::DotDot))
    ||| exists|d: int| #[trigger] flat_chain(ts, s, d) && kind_at(ts, d, TokenKind::DotDot) && flat_chain(ts, d + 1, e)
}

/// Tokens `i..j` are an empty statement `;`, `let b = e;`, `return e;`,
/// `while e {}` or `for b in r {}`, with `b` a simple binding, `e` a flat
/// chain of simple operands and `r` a simple iterable.
pub open spec fn simple_stmt(ts: Seq<Token>, i: int, j: int) -> bool {
    ||| (kind_at(ts, i, TokenKind::Semicolon) && j == i + 1)
    ||| (keyword_at(ts, i, Keyword::For) && exists|m: int| #[trigger] simple_binding(ts, i + 1, m) && keyword_at(
        ts,
        m,
        Keyword::In,
    ) && simple_iterable(ts, m + 1, j - 2) && kind_at(ts, j - 2, TokenKind::LBrace) && kind_at(ts, j - 1, TokenKind::RBrace))
    ||| (keyword_at(ts, i, Keyword::Let) && exists|m: int| #[trigger] simple_binding(ts, i + 1, m) && kind_at(
        ts,
        m,
        TokenKind::Assign,
    ) && flat_chain(ts, m + 1, j - 1) && kind_at(ts, j - 1, TokenKind::Semicolon))
    ||| (keyword_at(ts, i, Keyword::Return) && flat_chain(ts, i + 1, j - 1) && kind_at(ts, j - 1, TokenKind::Semicolon))
    ||| (keyword_at(ts, i, Keyword::While) && flat_chain(ts, i + 1, j - 2) && kind_at(ts, j - 2, TokenKind::LBrace)
        && kind_at(ts, j - 1, TokenKind::RBrace))
}

/// Tokens `i..j` are a statement inside a simple block: a simple statement,
/// or `if e {}` that neither ends the block nor is followed by `;` or `=`.
pub open spec fn block_item(ts: Seq<Token>, i: int, j: int) -> bool {
    ||| simple_stmt(ts, i, j)
    ||| (if_form(ts, i, j - 2) && !kind_at(ts, j, TokenKind::RBrace) && !kind_at(ts, j, TokenKind::Semicolon)
        && !kind_at(ts, j, TokenKind::Assign))
}

/// Tokens `a..c` are a block `{ s1 s2 ... }` of simple statements, statement
/// `k` spanning `bs[k]..bs[k + 1]`, possibly ending in an `if e {}` that
/// gives the block its value.
pub open spec fn simple_block(ts: Seq<Token>, a: int, c: int, bs: Seq<int>) -> bool {
    &&& kind_at(ts, a, TokenKind::LBrace)
    &&& bs.len() >= 1
    &&& bs[0] == a + 1
    &&& (bs.last() == c - 1 || if_form(ts, bs.last(), c - 3))
    &&& kind_at(ts, c - 1, TokenKind::RBrace)
    &&& forall|k: int| 0 <= k < bs.len() - 1 ==> #[trigger] block_item(ts, bs[k], bs[k + 1])
}

/// Tokens `i..j` are a function `fn name() { ... }` or
/// `fn name() -> i32 { ... }` whose body is a block of simple statements.
pub open spec fn simple_function(ts: Seq<Token>, i: int, j: int, bs: Seq<int>) -> bool {
    &&& keyword_at(ts, i, Keyword::Fn)
    &&& kind_at(ts, i + 1, TokenKind::Identifier)
    &&& kind_at(ts, i + 2, TokenKind::LParen)
    &&& kind_at(ts, i + 3, TokenKind::RParen)
    &&& {
        ||| simple_block(ts, i + 4, j, bs)
        ||| (kind_at(ts, i + 4, TokenKind::Arrow) && keyword_at(ts, i + 5, Keyword::I32) && simple_block(ts, i + 6, j, bs))
    }
}

/// The tokens are functions of simple statements one after the other,
/// function `k` spanning `fs[k]..fs[k + 1]` with statement bounds `bss[k]`,
/// with or without a closing `#`.
pub open spec fn simple_program(ts: Seq<Token>, fs: Seq<int>, bss: Seq<Seq<int>>) -> bool {
    &&& fs.len() >= 1
    &&& fs[0] == 0
    &&& bss.len() == fs.len() - 1
    &&& (ts.len() == fs.last() || (ts.len() == fs.last() + 1 && ts.last().kind == TokenKind::EndMarker))
    &&& forall|k: int| 0 <= k < fs.len() - 1 ==> #[trigger] simple_function(ts, fs[k], fs[k + 1], bss[k])
}

/// The full text of a syntax error found at token index `cur`.
pub open spec fn error_text(message: Seq<char>, ts: Seq<Token>, cur: int) -> Seq<char> {
    if 0 <= cur < ts.len() {
        message + ", found `"@ + ts[cur].lexeme@ + "`"@
    } else if ts.len() > 0 {
        message + ", found end of input"@
    } else {
        message + ", found empty input"@
    }
}

impl ParseError {
    /// The error as shown to users: `syntax error at LINE:COLUMN: MESSAGE`.
    pub fn to_display_string(&self) -> (s: String)
        ensures
            s@ == "syntax error at "@ + crate::text::decimal(self.position.line as nat) + ":"@
                + crate::text::decimal(self.position.column as nat) + ": "@ + self.message@,
    {
        let mut s = String::new();
        s.append("syntax error at ");
        let l = crate::text::usize_to_string(self.position.line);
        s.append(l.as_str());
        s.append(":");
        let c = crate::text::usize_to_string(self.position.column);
        s.append(c.as_str());
        s.append(": ");
        s.append(self.message.as_str());
        s
    }
}

/// Parses a token list as a program and keeps only whether it succeeded.
///
/// An empty token list succeeds; a list that does not start with `fn` or
/// `#` is refused at its first token.
pub fn parse_tokens(tokens: &[Token]) -> (r: Result<(), ParseError>)
    ensures
        r is Ok ==> exists|p: Program| program_wf(p) && #[trigger] spells_program(p, tokens@),
        r matches Err(e) ==> exists|k: int| 0 <= k <= tokens@.len() && e.position == error_position(tokens@, k),
        tokens@.len() == 0 ==> r is Ok,
        tokens@.len() > 0 && tokens@[0].kind != TokenKind::Keyword(Keyword::Fn) && tokens@[0].kind != TokenKind::EndMarker
            ==> (r matches Err(e) && e.position == tokens@[0].position),
        forall|n: nat| #[trigger] empty_functions(tokens@, n) ==> r is Ok,
        forall|fs: Seq<int>, bss: Seq<Seq<int>>| #[trigger] simple_program(tokens@, fs, bss) ==> r is Ok,
{
    match parse_program_ast(tokens) {
        Ok(_) => Ok(()),
        Err(e) => Err(e),
    }
}

/// Parses a token list as a program.
///
/// On success every function parameter carries a type, every assignment
/// target is assignable, every callee is callable and ranges appear only as
/// `for` iterables. An empty token list is the empty program. A list that
/// does not start with `fn` or `#` is refused at its first token.
pub fn parse_program_ast(tokens: &[Token]) -> (r: Result<Program, ParseError>)
    ensures
        r matches Ok(p) ==> program_wf(p) && spells_program(p, tokens@),
        r matches Err(e) ==> exists|k: int| 0 <= k <= tokens@.len() && e.position == error_position(tokens@, k),
        tokens@.len() == 0 ==> (r matches Ok(p) && p.functions@.len() == 0),
        tokens@.len() > 0 && tokens@[0].kind != TokenKind::Keyword(Keyword::Fn) && tokens@[0].kind != TokenKind::EndMarker
            ==> (r matches Err(e) && e.position == tokens@[0].position),
        forall|n: nat| #[trigger] empty_functions(tokens@, n) ==> (r matches Ok(p) && p.functions@.len() == n),
        forall|fs: Seq<int>, bss: Seq<Seq<int>>| #[trigger] simple_program(tokens@, fs, bss) ==> (r matches Ok(p)
            && p.functions@.len() == fs.len() - 1),
{
    let mut p = Parser::new(tokens);
    p.parse_program()
}

struct Parser<'a> {
    tokens: &'a [Token],
    current: usize,
}

#[derive(Debug, Clone, Copy, PartialEq, Eq, Structural)]
enum SimpleTokenKind {
    Identifier,
    Number,
    Assign,
    Plus,
    Minus,
    Star,
    Slash,
    EqualEqual,
    Greater,
    GreaterEqual,
    Less,
    LessEqual,
    NotEqual,
    Ampersand,
    LParen,
    RParen,
    LBrace,
    RBrace,
    LBracket,
    RBracket,
    Semicolon,
    Colon,
    Comma,
    Arrow,
    Dot,
    DotDot,
    EndMarker,
}

/// The simple kind of a token kind; keywords have none.
spec fn simple_of(k: TokenKind) -> Option<SimpleTokenKind> {
    match k {
        TokenKind::Keyword(_) => None,
        TokenKind::Identifier => Some(SimpleTokenKind::Identifier),
        TokenKind::Number => Some(SimpleTokenKind::Number),
        TokenKind::Assign => Some(SimpleTokenKind::Assign),
        TokenKind::Plus => Some(SimpleTokenKind::Plus),
        TokenKind::Minus => Some(SimpleTokenKind::Minus),
        TokenKind::Star => Some(SimpleTokenKind::Star),
        TokenKind::Slash => Some(SimpleTokenKind::Slash),
        TokenKind::EqualEqual => Some(SimpleTokenKind::EqualEqual),
        TokenKind::Greater => Some(SimpleTokenKind::Greater),
        TokenKind::GreaterEqual => Some(SimpleTokenKind::GreaterEqual),
        TokenKind::Less => Some(SimpleTokenKind::Less),
        TokenKind::LessEqual => Some(SimpleTokenKind::LessEqual),
        TokenKind::NotEqual => Some(SimpleTokenKind::NotEqual),
        TokenKind::Ampersand => Some(SimpleTokenKind::Ampersand),
        TokenKind::LParen => Some(SimpleTokenKind::LParen),
        TokenKind::RParen => Some(SimpleTokenKind::RParen),
        TokenKind::LBrace => Some(SimpleTokenKind::LBrace),
        TokenKind::RBrace => Some(SimpleTokenKind::RBrace),
        TokenKind::LBracket => Some(SimpleTokenKind::LBracket),
        TokenKind::RBracket => Some(SimpleTokenKind::RBracket),
        TokenKind::Semicolon => Some(SimpleTokenKind::Semicolon),
        TokenKind::Colon => Some(SimpleTokenKind::Colon),
        TokenKind::Comma => Some(SimpleTokenKind::Comma),
        TokenKind::Arrow => Some(SimpleTokenKind::Arrow),
        TokenKind::Dot => Some(SimpleTokenKind::Dot),
        TokenKind::DotDot => Some(SimpleTokenKind::DotDot),
        TokenKind::EndMarker => Some(SimpleTokenKind::EndMarker),
    }
}

/// The token kind of a simple kind.
spec fn simple_kind(s: SimpleTokenKind) -> TokenKind {
    match s {
        SimpleTokenKind::Identifier => TokenKind::Identifier,
        SimpleTokenKind::Number => TokenKind::Number,
        SimpleTokenKind::Assign => TokenKind::Assign,
        SimpleTokenKind::Plus => TokenKind::Plus,
        SimpleTokenKind::Minus => TokenKind::Minus,
        SimpleTokenKind::Star => TokenKind::Star,
        SimpleTokenKind::Slash => TokenKind::Slash,
        SimpleTokenKind::EqualEqual => TokenKind::EqualEqual,
        SimpleTokenKind::Greater => TokenKind::Greater,
        SimpleTokenKind::GreaterEqual => TokenKind::GreaterEqual,
        SimpleTokenKind::Less => TokenKind::Less,
        SimpleTokenKind::LessEqual => TokenKind::LessEqual,
        SimpleTokenKind::NotEqual => TokenKind::NotEqual,
        SimpleTokenKind::Ampersand => TokenKind::Ampersand,
        SimpleTokenKind::LParen => TokenKind::LParen,
        SimpleTokenKind::RParen => TokenKind::RParen,
        SimpleTokenKind::LBrace => TokenKind::LBrace,
        SimpleTokenKind::RBrace => TokenKind::RBrace,
        SimpleTokenKind::LBracket => TokenKind::LBracket,
        SimpleTokenKind::RBracket => TokenKind::RBracket,
        SimpleTokenKind::Semicolon => TokenKind::Semicolon,
        SimpleTokenKind::Colon => TokenKind::Colon,
        SimpleTokenKind::Comma => TokenKind::Comma,
        SimpleTokenKind::Arrow => TokenKind::Arrow,
        SimpleTokenKind::Dot => TokenKind::Dot,
        SimpleTokenKind::DotDot => TokenKind::DotDot,
        SimpleTokenKind::EndMarker => TokenKind::EndMarker,
    }
}

/// A token kind has the simple kind `s` exactly when it is `s`'s kind.
proof fn lemma_simple_kind(k: TokenKind, s: SimpleTokenKind)
    ensures
        (simple_of(k) == Some(s)) == (k == simple_kind(s)),
{
}

/// Whether an (optional) token kind is the given simple kind.
fn matches_simple(kind: Option<TokenKind>, expected: SimpleTokenKind) -> (r: bool)
    ensures
        r == (kind matches Some(k) && simple_of(k) == Some(expected)),
{
    match kind {
        None => false,
        Some(k) => match (k, expected) {
            (TokenKind::Identifier, SimpleTokenKind::Identifier) => true,
            (TokenKind::Number, SimpleTokenKind::Number) => true,
            (TokenKind::Assign, SimpleTokenKind::Assign) => true,
            (TokenKind::Plus, SimpleTokenKind::Plus) => true,
            (TokenKind::Minus, SimpleTokenKind::Minus) => true,
            (TokenKind::Star, SimpleTokenKind::Star) => true,
            (TokenKind::Slash, SimpleTokenKind::Slash) => true,
            (TokenKind::EqualEqual, SimpleTokenKind::EqualEqual) => true,
            (TokenKind::Greater, SimpleTokenKind::Greater) => true,
            (TokenKind::GreaterEqual, SimpleTokenKind::GreaterEqual) => true,
            (TokenKind::Less, SimpleTokenKind::Less) => true,
            (TokenKind::LessEqual, SimpleTokenKind::LessEqual) => true,
            (TokenKind::NotEqual, SimpleTokenKind::NotEqual) => true,
            (TokenKind::Ampersand, SimpleTokenKind::Ampersand) => true,
            (TokenKind::LParen, SimpleTokenKind::LParen) => true,
            (TokenKind::RParen, SimpleTokenKind::RParen) => true,
            (TokenKind::LBrace, SimpleTokenKind::LBrace) => true,
            (TokenKind::RBrace, SimpleTokenKind::RBrace) => true,
            (TokenKind::LBracket, SimpleTokenKind::LBracket) => true,
            (TokenKind::RBracket, SimpleTokenKind::RBracket) => true,
            (TokenKind::Semicolon, SimpleTokenKind::Semicolon) => true,
            (TokenKind::Colon, SimpleTokenKind::Colon) => true,
            (TokenKind::Comma, SimpleTokenKind::Comma) => true,
            (TokenKind::Arrow, SimpleTokenKind::Arrow) => true,
            (TokenKind::Dot, SimpleTokenKind::Dot) => true,
            (TokenKind::DotDot, SimpleTokenKind::DotDot) => true,
            (TokenKind::EndMarker, SimpleTokenKind::EndMarker) => true,
            _ => false,
        },
    }
}

impl<'a> Parser<'a> {
    spec fn wf(self) -> bool {
        self.current <= self.tokens@.len()
    }

    /// `self` is a later state of the parser `old`: same tokens, never
    /// moved back.
    spec fn moved_from(self, old: Parser<'a>) -> bool {
        &&& self.wf()
        &&& self.tokens == old.tokens
        &&& old.current <= self.current
    }

    /// `e` is an error reported at the parser's current token.
    spec fn fails_here(self, e: ParseError) -> bool {
        e.position == error_position(self.tokens@, self.current as int)
    }

    spec fn at(self, k: TokenKind) -> bool {
        self.current < self.tokens@.len() && self.tokens@[self.current as int].kind == k
    }

    spec fn at_simple(self, k: SimpleTokenKind) -> bool {
        self.current < self.tokens@.len() && simple_of(self.tokens@[self.current as int].kind) == Some(k)
    }

    fn new(tokens: &'a [Token]) -> (p: Self)
        ensures
            p.tokens == tokens,
            p.current == 0,
            p.wf(),
    {
        Parser { tokens, current: 0 }
    }

    fn parse_program(&mut self) -> (r: Result<Program, ParseError>)
        requires
            old(self).wf(),
            old(self).current == 0,
        ensures
            final(self).moved_from(*old(self)),
            r matches Ok(p) ==> program_wf(p),
            r matches Ok(p) ==> spells_program(p, old(self).tokens@),
            r matches Err(e) ==> final(self).fails_here(e),
            old(self).tokens@.len() == 0 ==> (r matches Ok(p) && p.functions@.len() == 0),
            old(self).tokens@.len() > 0 && !old(self).at(TokenKind::Keyword(Keyword::Fn))
                && !old(self).at(TokenKind::EndMarker) ==> r is Err && final(self).current == 0,
            forall|n: nat| #[trigger] empty_functions(old(self).tokens@, n) ==> (r matches Ok(p) && p.functions@.len() == n),
            forall|fs: Seq<int>, bss: Seq<Seq<int>>| #[trigger] simple_program(old(self).tokens@, fs, bss) ==> (r matches Ok(
                p,
            ) && p.functions@.len() == fs.len() - 1),
    {
        let ghost ts = self.tokens@;
        let mut functions: Vec<FunctionDecl> = Vec::new();
        let ghost mut bs: Seq<int> = seq![0int];
        while !self.is_at_end() && !self.check_simple(SimpleTokenKind::EndMarker)
            invariant
                self.moved_from(*old(self)),
                self.tokens@ == ts,
                ts == old(self).tokens@,
                forall|n: nat| #[trigger] empty_functions(ts, n) ==> self.current == 6 * functions@.len() && functions@.len() <= n,
                forall|fs: Seq<int>, bss: Seq<Seq<int>>| #[trigger] simple_program(ts, fs, bss) ==> functions@.len() < fs.len()
                    && self.current == fs[functions@.len() as int],
                forall|i: int| 0 <= i < functions@.len() ==> function_wf(#[trigger] functions@[i]),
                self.current == 0 ==> functions@.len() == 0,
                self.current > 0 ==> old(self).at(TokenKind::Keyword(Keyword::Fn)),
                block_bounds(bs, functions@.len(), 0),
                bs.last() == self.current as int,
                forall|i: int|
                    0 <= i < functions@.len() ==> spells_function(#[trigger] functions@[i], ts, bs[i], bs[i + 1]),
            decreases self.tokens@.len() - self.current,
        {
            proof {
                assert forall|n: nat| #[trigger] empty_functions(ts, n) implies functions@.len() < n
                    && empty_function_at(ts, self.current as int) by {
                    let k = functions@.len() as int;
                    if k >= n {
                        assert(ts[6 * n as int].kind == TokenKind::EndMarker);
                    }
                    assert(empty_function_at(ts, 6 * k));
                }
            }
            proof {
                assert forall|fs: Seq<int>, bss: Seq<Seq<int>>| #[trigger] simple_program(ts, fs, bss) implies functions@.len()
                    < fs.len() - 1 && simple_function(ts, self.current as int, fs[functions@.len() as int + 1], bss[functions@.len() as int]) by {
                    let k = functions@.len() as int;
                    if k == fs.len() - 1 {
                        if ts.len() == fs.last() + 1 {
                            assert(ts[fs.last()].kind == TokenKind::EndMarker);
                        }
                    }
                    assert(simple_function(ts, fs[k], fs[k + 1], bss[k]));
                }
            }
            let f = self.parse_function_decl()?;
            functions.push(f);
            proof {
                bs = bs.push(self.current as int);
            }
        }
        proof {
            assert forall|n: nat| #[trigger] empty_functions(ts, n) implies functions@.len() == n
                && self.current == 6 * n by {
                let k = functions@.len() as int;
                if k < n {
                    assert(empty_function_at(ts, 6 * k));
                }
            }
        }
        proof {
            assert forall|fs: Seq<int>, bss: Seq<Seq<int>>| #[trigger] simple_program(ts, fs, bss) implies functions@.len()
                == fs.len() - 1 && self.current == fs.last() by {
                let k = functions@.len() as int;
                if k < fs.len() - 1 {
                    assert(simple_function(ts, fs[k], fs[k + 1], bss[k]));
                }
            }
        }
        if self.match_simple(SimpleTokenKind::EndMarker) && !self.is_at_end() {
            return Err(self.error_here("unexpected tokens after `#`"));
        }
        if !self.is_at_end() {
            return Err(self.error_here("unexpected trailing tokens"));
        }
        let p = Program::new(functions);
        assert(spells_program(p, ts)) by {
            assert(block_bounds(bs, p.functions@.len(), 0));
        }
        Ok(p)
    }

    fn parse_function_decl(&mut self) -> (r: Result<FunctionDecl, ParseError>)
        requires
            old(self).wf(),
        ensures
            final(self).moved_from(*old(self)),
            r matches Ok(f) ==> old(self).current < final(self).current && function_wf(f),
            r matches Ok(f) ==> spells_function(f, old(self).tokens@, old(self).current as int, final(self).current as int),
            r matches Err(e) ==> final(self).fails_here(e),
            !old(self).at(TokenKind::Keyword(Keyword::Fn)) ==> r is Err && final(self).current == old(self).current,
            empty_function_at(old(self).tokens@, old(self).current as int) ==> r is Ok && final(self).current == old(
                self,
            ).current + 6,
            forall|j: int, bs: Seq<int>| #[trigger] simple_function(old(self).tokens@, old(self).current as int, j, bs)
                ==> r is Ok && final(self).current == j,
    {
        let ghost ts = self.tokens@;
        let ghost a = self.current as int;
        self.expect_keyword(Keyword::Fn)?;
        let name = self.expect_identifier("expected function name after `fn`")?;
        self.expect_simple(SimpleTokenKind::LParen, "expected `(` after function name")?;
        let params = self.parse_parameter_list()?;
        let ghost p = self.current as int;
        self.expect_simple(SimpleTokenKind::RParen, "expected `)` after function parameter list")?;
        let return_type = if self.match_simple(SimpleTokenKind::Arrow) {
            Some(self.parse_type()?)
        } else {
            None
        };
        let ghost b = self.current as int;
        proof {
            assert forall|j: int, bs: Seq<int>| #[trigger] simple_function(ts, a, j, bs) implies simple_block(ts, b, j, bs) by {
                if simple_block(ts, a + 4, j, bs) {
                    assert(b == a + 4);
                } else {
                    assert(b == a + 6);
                }
            }
        }
        let body = self.parse_block()?;
        let f = FunctionDecl::new(name, params, return_type, body);
        assert(spells_function(f, ts, a, self.current as int)) by {
            assert(boundary(ts, p));
            assert(boundary(ts, b));
        }
        Ok(f)
    }

    fn parse_parameter_list(&mut self) -> (r: Result<Vec<Binding>, ParseError>)
        requires
            old(self).wf(),
        ensures
            final(self).moved_from(*old(self)),
            r matches Ok(ps) ==> forall|i: int| 0 <= i < ps@.len() ==> (#[trigger] ps@[i]).ty is Some,
            r matches Ok(ps) ==> spells_params(ps@, old(self).tokens@, old(self).current as int, final(self).current as int),
            r matches Err(e) ==> final(self).fails_here(e),
            old(self).at(TokenKind::RParen) ==> (r matches Ok(ps) && ps@.len() == 0),
            r matches Ok(ps) ==> (ps@.len() == 0 <==> old(self).at(TokenKind::RParen)),
            r matches Ok(ps) && ps@.len() > 0 ==> !final(self).at(TokenKind::Comma),
    {
        let ghost ts = self.tokens@;
        let ghost a = self.current as int;
        let mut params: Vec<Binding> = Vec::new();
        if self.check_simple(SimpleTokenKind::RParen) {
            return Ok(params);
        }
        let ghost mut ss: Seq<int> = Seq::empty();
        let ghost mut es: Seq<int> = Seq::empty();
        loop
            invariant_except_break
                params@.len() == 0 ==> self.current as int == a,
                params@.len() > 0 ==> self.current as int == es.last() + 1 && kind_at(ts, es.last(), TokenKind::Comma),
            invariant
                self.moved_from(*old(self)),
                self.tokens@ == ts,
                a == old(self).current,
                !old(self).at(TokenKind::RParen),
                forall|i: int| 0 <= i < params@.len() ==> (#[trigger] params@[i]).ty is Some,
                ss.len() == params@.len(),
                es.len() == params@.len(),
                params@.len() > 0 ==> ss[0] == a,
                forall|i: int| 0 <= i < params@.len() ==> #[trigger] ss[i] < es[i],
                forall|i: int| 0 <= i < params@.len() ==> spells_binding(#[trigger] params@[i], ts, ss[i], es[i]),
                forall|i: int|
                    0 <= i < params@.len() - 1 ==> kind_at(ts, #[trigger] es[i], TokenKind::Comma) && ss[i + 1] == es[i]
                        + 1,
            ensures
                comma_list(ts, a, self.current as int, ss, es, params@.len(), false),
                !self.at(TokenKind::Comma),
            decreases self.tokens@.len() - self.current,
        {
            let ghost s0 = self.current as int;
            let binding = self.parse_binding(true)?;
            if binding.ty.is_none() {
                return Err(self.error_here("expected `:` after parameter name"));
            }
            params.push(binding);
            proof {
                ss = ss.push(s0);
                es = es.push(self.current as int);
            }
            if !self.match_simple(SimpleTokenKind::Comma) {
                break;
            }
        }
        Ok(params)
    }

    fn parse_type(&mut self) -> (r: Result<TypeNode, ParseError>)
        requires
            old(self).wf(),
        ensures
            final(self).moved_from(*old(self)),
            r is Ok ==> old(self).current < final(self).current,
            r matches Ok(t) ==> spells_type(t, old(self).tokens@, old(self).current as int, final(self).current as int),
            r matches Err(e) ==> final(self).fails_here(e),
            type_at(old(self).tokens@, old(self).current as int) ==> r is Ok,
            old(self).at(TokenKind::Keyword(Keyword::I32)) ==> r is Ok && final(self).current == old(self).current + 1,
        decreases old(self).tokens@.len() - old(self).current,
    {
        let ghost ts = self.tokens@;
        let ghost a = self.current as int;
        let ghost wit = type_at(ts, a);
        let ghost (tw, cw) = choose|t: TypeNode, c: int| #[trigger] spells_type(t, ts, a, c);
        if self.match_keyword(Keyword::I32) {
            return Ok(TypeNode::Named { name: String::from_str("i32") });
        }
        if self.match_simple(SimpleTokenKind::Ampersand) {
            let mutable = self.match_keyword(Keyword::Mut);
            proof {
                if wit {
                    match tw {
                        TypeNode::Reference { mutable: m, ty } => {
                            if m {
                                assert(spells_type(*ty, ts, a + 2, cw));
                            } else {
                                assert(spells_type(*ty, ts, a + 1, cw));
                                if mutable {
                                    lemma_type_first(*ty, ts, a + 1, cw);
                                }
                            }
                            assert(mutable == m);
                            assert(type_at(ts, self.current as int));
                        },
                        _ => {},
                    }
                }
            }
            let ty = self.parse_type()?;
            return Ok(TypeNode::Reference { mutable, ty: Box::new(ty) });
        }
        if self.match_simple(SimpleTokenKind::LBracket) {
            proof {
                if wit {
                    match tw {
                        TypeNode::Array { element, .. } => {
                            assert(spells_type(*element, ts, a + 1, cw - 3));
                            assert(type_at(ts, a + 1));
                        },
                        _ => {},
                    }
                }
            }
            let element = self.parse_type()?;
            let ghost e1 = self.current as int;
            proof {
                if wit {
                    match tw {
                        TypeNode::Array { element: ew, .. } => {
                            lemma_type_end_unique(element, *ew, ts, a + 1, e1, cw - 3);
                        },
                        _ => {},
                    }
                }
            }
            self.expect_simple(SimpleTokenKind::Semicolon, "expected `;` in array type declaration")?;
            let text = self.expect_number_text("expected array length in array type")?;
            let length: usize = match parse_bounded(text.as_str(), usize::MAX as u128) {
                Some(v) => v as usize,
                None => {
                    return Err(self.error_here("expected numeric literal"));
                },
            };
            self.expect_simple(SimpleTokenKind::RBracket, "expected `]` after array type")?;
            let t = TypeNode::Array { element: Box::new(element), length };
            assert(spells_type(t, ts, a, self.current as int)) by {
                assert(self.current as int - 3 == e1);
            }
            return Ok(t);
        }
        if self.match_simple(SimpleTokenKind::LParen) {
            if self.match_simple(SimpleTokenKind::RParen) {
                return Ok(TypeNode::Unit);
            }
            // A witness list: (items, starts, ends, trailing comma), one
            // item for `(T,)`.
            let ghost xw: Seq<TypeNode> = if tw is Tuple { tw->Tuple_elements@ } else { Seq::empty() };
            let ghost one = xw.len() == 1 && spells_type(xw[0], ts, a + 1, cw - 2) && kind_at(ts, cw - 2, TokenKind::Comma);
            let ghost (ssw, esw, trw) = if one {
                (seq![a + 1], seq![cw - 2], true)
            } else {
                choose|ss: Seq<int>, es: Seq<int>, tr: bool|
                    #[trigger] comma_list(ts, a + 1, cw - 1, ss, es, xw.len(), tr) && forall|i: int|
                        0 <= i < xw.len() ==> spells_type(#[trigger] xw[i], ts, ss[i], es[i])
            };
            proof {
                if wit {
                    match tw {
                        TypeNode::Unit => {},
                        TypeNode::Tuple { .. } => {},
                        _ => {
                            lemma_type_first(tw, ts, a, cw);
                        },
                    }
                    assert(tw is Tuple);
                    if one {
                        lemma_type_first(xw[0], ts, a + 1, cw - 2);
                        assert(ssw[0] == a + 1 && esw[0] == cw - 2);
                    }
                    assert(comma_list(ts, a + 1, cw - 1, ssw, esw, xw.len(), trw));
                    assert(forall|i: int| 0 <= i < xw.len() ==> spells_type(#[trigger] xw[i], ts, ssw[i], esw[i]));
                    assert(spells_type(xw[0], ts, a + 1, esw[0]));
                    assert(type_at(ts, a + 1));
                }
            }
            let first = self.parse_type()?;
            let ghost e0 = self.current as int;
            proof {
                if wit {
                    lemma_type_end_unique(first, xw[0], ts, a + 1, e0, esw[0]);
                }
            }
            let mut elements: Vec<TypeNode> = Vec::new();
            elements.push(first);
            self.expect_simple(SimpleTokenKind::Comma, "tuple type requires `,` after the first element type")?;
            let ghost mut ss: Seq<int> = seq![a + 1];
            let ghost mut es: Seq<int> = seq![e0];
            let ghost mut tr: bool = true;
            proof {
                if wit && xw.len() >= 2 {
                    lemma_type_first(xw[1], ts, ssw[1], esw[1]);
                }
            }
            if !self.check_simple(SimpleTokenKind::RParen) {
                loop
                    invariant_except_break
                        self.current as int == es.last() + 1,
                        kind_at(ts, es.last(), TokenKind::Comma),
                        wit ==> elements@.len() < xw.len() && self.current as int == ssw[elements@.len() as int],
                    invariant
                        self.moved_from(*old(self)),
                        self.tokens@ == ts,
                        old(self).current < self.current,
                        elements@.len() >= 1,
                        a == old(self).current,
                        ts == old(self).tokens@,
                        wit == type_at(ts, a),
                        old(self).at(TokenKind::LParen),
                        wit ==> comma_list(ts, a + 1, cw - 1, ssw, esw, xw.len(), trw),
                        wit ==> forall|i: int| 0 <= i < xw.len() ==> spells_type(#[trigger] xw[i], ts, ssw[i], esw[i]),
                        wit ==> kind_at(ts, cw - 1, TokenKind::RParen),
                        wit ==> elements@.len() <= xw.len(),
                        wit ==> forall|i: int| 0 <= i < elements@.len() ==> #[trigger] es[i] == esw[i],
                        ss.len() == elements@.len(),
                        es.len() == elements@.len(),
                        ss[0] == a + 1,
                        forall|i: int| 0 <= i < elements@.len() ==> #[trigger] ss[i] < es[i],
                        forall|i: int|
                            0 <= i < elements@.len() ==> spells_type(#[trigger] elements@[i], ts, ss[i], es[i]),
                        forall|i: int|
                            0 <= i < elements@.len() - 1 ==> kind_at(ts, #[trigger] es[i], TokenKind::Comma) && ss[i
                                + 1] == es[i] + 1,
                    ensures
                        elements@.len() >= 2,
                        comma_list(ts, a + 1, self.current as int, ss, es, elements@.len(), tr),
                        wit ==> self.current as int == cw - 1,
                    decreases self.tokens@.len() - self.current,
                {
                    let ghost s0 = self.current as int;
                    let ghost k = elements@.len() as int;
                    proof {
                        if wit {
                            assert(spells_type(xw[k], ts, ssw[k], esw[k]));
                            assert(type_at(ts, s0));
                        }
                    }
                    let t = self.parse_type()?;
                    proof {
                        if wit {
                            lemma_type_end_unique(t, xw[k], ts, s0, self.current as int, esw[k]);
                            if k + 1 < xw.len() {
                                lemma_type_first(xw[k + 1], ts, ssw[k + 1], esw[k + 1]);
                            }
                        }
                    }
                    elements.push(t);
                    proof {
                        ss = ss.push(s0);
                        es = es.push(self.current as int);
                    }
                    if !self.match_simple(SimpleTokenKind::Comma) {
                        proof {
                            tr = false;
                        }
                        break;
                    }
                    if self.check_simple(SimpleTokenKind::RParen) {
                        proof {
                            tr = true;
                        }
                        break;
                    }
                }
            }
            let ghost close = self.current as int;
            self.expect_simple(SimpleTokenKind::RParen, "expected `)` after tuple type")?;
            let t = TypeNode::Tuple { elements };
            assert(spells_type(t, ts, a, self.current as int)) by {
                if elements@.len() == 1 {
                    assert(close == e0 + 1);
                } else {
                    assert(comma_list(ts, a + 1, close, ss, es, elements@.len(), tr));
                }
            }
            return Ok(t);
        }
        Err(self.error_here("expected a type"))
    }

    fn parse_block(&mut self) -> (r: Result<Block, ParseError>)
        requires
            old(self).wf(),
        ensures
            final(self).moved_from(*old(self)),
            r matches Ok(b) ==> old(self).current < final(self).current && block_wf(b),
            r matches Ok(b) ==> spells_block(b, old(self).tokens@, old(self).current as int, final(self).current as int),
            r matches Err(e) ==> final(self).fails_here(e),
            old(self).at(TokenKind::LBrace) && kind_at(old(self).tokens@, old(self).current + 1, TokenKind::RBrace) ==> (
            r matches Ok(b) && b.statements@.len() == 0 && b.tail is None) && final(self).current == old(self).current + 2,
            !old(self).at(TokenKind::LBrace) ==> (r matches Err(e) && e.message@ == error_text(
                "expected `{` to start a block"@,
                old(self).tokens@,
                old(self).current as int,
            )) && final(self).current == old(self).current,
            forall|c: int, bs: Seq<int>| #[trigger] simple_block(old(self).tokens@, old(self).current as int, c, bs) ==> (
            r matches Ok(b) && b.statements@.len() == bs.len() - 1) && final(self).current == c,
        decreases old(self).tokens@.len() - old(self).current, 2int,
    {
        let ghost ts = self.tokens@;
        let ghost a = self.current as int;
        self.expect_simple(SimpleTokenKind::LBrace, "expected `{` to start a block")?;
        let mut statements: Vec<Statement> = Vec::new();
        let mut tail: Option<Box<Expr>> = None;
        let ghost mut bs: Seq<int> = seq![a + 1];
        while !self.check_simple(SimpleTokenKind::RBrace)
            invariant_except_break
                tail is None,
                bs.last() == self.current as int,
            invariant
                self.moved_from(*old(self)),
                self.tokens@ == ts,
                a == old(self).current,
                old(self).at(TokenKind::LBrace),
                kind_at(ts, a + 1, TokenKind::RBrace) ==> self.current == a + 1 && statements@.len() == 0 && tail is None,
                ts == old(self).tokens@,
                forall|c: int, bs: Seq<int>| #[trigger] simple_block(ts, a, c, bs) ==> statements@.len() < bs.len() && (
                tail is None ==> self.current == bs[statements@.len() as int]) && (tail is Some ==> statements@.len()
                    == bs.len() - 1 && self.current == c - 1),
                old(self).current < self.current,
                forall|i: int| 0 <= i < statements@.len() ==> stmt_wf(#[trigger] statements@[i]),
                tail matches Some(t) ==> expr_wf(*t),
                block_bounds(bs, statements@.len(), a + 1),
                forall|i: int|
                    0 <= i < statements@.len() ==> spells_stmt(#[trigger] statements@[i], ts, bs[i], bs[i + 1]),
            ensures
                tail is None ==> bs.last() == self.current as int,
                tail is None ==> kind_at(ts, self.current as int, TokenKind::RBrace),
                tail matches Some(t) ==> spells_expr(*t, ts, bs.last(), self.current as int, 0),
            decreases self.tokens@.len() - self.current,
        {
            let ghost s0 = self.current as int;
            proof {
                assert forall|c: int, bs: Seq<int>| #[trigger] simple_block(ts, a, c, bs) implies (statements@.len()
                    < bs.len() - 1 && block_item(ts, s0, bs[statements@.len() as int + 1])) || (statements@.len()
                    == bs.len() - 1 && if_form(ts, s0, c - 3)) by {
                    let k = statements@.len() as int;
                    if k == bs.len() - 1 {
                        if bs.last() == c - 1 {
                            assert(kind_at(ts, s0, TokenKind::RBrace));
                        }
                    } else {
                        assert(block_item(ts, bs[k], bs[k + 1]));
                    }
                }
            }
            if self.is_at_end() {
                return Err(self.error_here("expected `}` to close the block"));
            }
            if self.starts_forced_statement() {
                let st = self.parse_statement()?;
                statements.push(st);
                proof {
                    bs = bs.push(self.current as int);
                }
                continue;
            }
            let expr = self.parse_expression()?;
            let ghost e1 = self.current as int;
            if self.match_simple(SimpleTokenKind::Assign) {
                if !expr.is_assignable() {
                    return Err(self.error_here("left side of assignment is not assignable"));
                }
                let value = self.parse_expression()?;
                self.expect_simple(SimpleTokenKind::Semicolon, "expected `;` after assignment statement")?;
                let st = Statement::Assign { target: Box::new(expr), value: Box::new(value) };
                assert(spells_stmt(st, ts, s0, self.current as int)) by {
                    assert(boundary(ts, e1));
                    assert(spells_expr(expr, ts, s0, e1, 0));
                }
                statements.push(st);
                proof {
                    bs = bs.push(self.current as int);
                }
                continue;
            }
            if self.match_simple(SimpleTokenKind::Semicolon) {
                statements.push(Statement::Expr { expr: Box::new(expr) });
                proof {
                    bs = bs.push(self.current as int);
                }
                continue;
            }
            if expr.can_stand_without_semicolon() && !self.check_simple(SimpleTokenKind::RBrace) {
                statements.push(Statement::Expr { expr: Box::new(expr) });
                proof {
                    bs = bs.push(self.current as int);
                }
                continue;
            }
            tail = Some(Box::new(expr));
            break;
        }
        let ghost close = self.current as int;
        proof {
            assert forall|c: int, bs: Seq<int>| #[trigger] simple_block(ts, a, c, bs) implies statements@.len() == bs.len()
                - 1 && close == c - 1 by {
                let k = statements@.len() as int;
                if tail is None && k < bs.len() - 1 {
                    assert(block_item(ts, bs[k], bs[k + 1]));
                }
            }
        }
        self.expect_simple(SimpleTokenKind::RBrace, "expected `}` to close the block")?;
        let b = Block::new(statements, tail);
        assert(spells_block(b, ts, a, self.current as int)) by {
            assert(close == self.current - 1);
            assert(block_bounds(bs, b.statements@.len(), a + 1));
        }
        Ok(b)
    }

    fn parse_statement(&mut self) -> (r: Result<Statement, ParseError>)
        requires
            old(self).wf(),
        ensures
            final(self).moved_from(*old(self)),
            r matches Ok(s) ==> old(self).current < final(self).current && stmt_wf(s),
            r matches Ok(s) ==> spells_stmt(s, old(self).tokens@, old(self).current as int, final(self).current as int),
            r matches Err(e) ==> final(self).fails_here(e),
            old(self).at(TokenKind::Semicolon) ==> (r matches Ok(s) && s is Empty) && final(self).current == old(
                self,
            ).current + 1,
            old(self).at(TokenKind::Keyword(Keyword::Continue)) ==> if kind_at(
                old(self).tokens@,
                old(self).current + 1,
                TokenKind::Semicolon,
            ) {
                (r matches Ok(s) && s is Continue) && final(self).current == old(self).current + 2
            } else {
                r matches Err(e) && e.message@ == error_text(
                    "expected `;` after continue"@,
                    old(self).tokens@,
                    old(self).current + 1,
                )
            },
            old(self).at(TokenKind::Keyword(Keyword::Break)) && kind_at(old(self).tokens@, old(self).current + 1, TokenKind::Semicolon)
                ==> (r matches Ok(Statement::Break { value }) && value is None) && final(self).current == old(self).current + 2,
            old(self).at(TokenKind::Keyword(Keyword::Return)) && kind_at(old(self).tokens@, old(self).current + 1, TokenKind::Semicolon)
                ==> (r matches Ok(Statement::Return { value }) && value is None) && final(self).current == old(self).current + 2,
            forall|j: int| #[trigger] simple_stmt(old(self).tokens@, old(self).current as int, j) ==> r is Ok
                && final(self).current == j,
            forall|c: int|
                old(self).at(TokenKind::Keyword(Keyword::Return)) && #[trigger] flat_chain(
                    old(self).tokens@,
                    old(self).current + 1,
                    c,
                ) && kind_at(old(self).tokens@, c, TokenKind::Semicolon) ==> (r matches Ok(Statement::Return { value })
                    && value is Some) && final(self).current == c + 1,
            forall|c: int|
                old(self).at(TokenKind::Keyword(Keyword::While)) && #[trigger] flat_chain(
                    old(self).tokens@,
                    old(self).current + 1,
                    c,
                ) && kind_at(old(self).tokens@, c, TokenKind::LBrace) && kind_at(old(self).tokens@, c + 1, TokenKind::RBrace)
                    ==> (r matches Ok(Statement::While { .. })) && final(self).current == c + 2,
            !(old(self).at(TokenKind::Semicolon) || old(self).at(TokenKind::Keyword(Keyword::Let)) || old(self).at(
                TokenKind::Keyword(Keyword::Return),
            ) || old(self).at(TokenKind::Keyword(Keyword::While)) || old(self).at(TokenKind::Keyword(Keyword::For))
                || old(self).at(TokenKind::Keyword(Keyword::Break)) || old(self).at(TokenKind::Keyword(Keyword::Continue)))
                ==> (r matches Err(e) && e.message@ == error_text("expected a statement"@, old(self).tokens@, old(self).current as int)),
        decreases old(self).tokens@.len() - old(self).current, 1int,
    {
        let ghost ts = self.tokens@;
        let ghost a = self.current as int;
        if self.match_simple(SimpleTokenKind::Semicolon) {
            return Ok(Statement::Empty);
        }
        if self.match_keyword(Keyword::Let) {
            let binding = self.parse_binding(false)?;
            let ghost b = self.current as int;
            proof {
                assert forall|j: int| #[trigger] simple_stmt(ts, a, j) implies simple_binding(ts, a + 1, b) && kind_at(
                    ts,
                    b,
                    TokenKind::Assign,
                ) && flat_chain(ts, b + 1, j - 1) && kind_at(ts, j - 1, TokenKind::Semicolon) by {
                    let m = choose|m: int| #[trigger] simple_binding(ts, a + 1, m) && kind_at(ts, m, TokenKind::Assign)
                        && flat_chain(ts, m + 1, j - 1) && kind_at(ts, j - 1, TokenKind::Semicolon);
                    assert(m == b);
                }
            }
            let init = if self.match_simple(SimpleTokenKind::Assign) {
                Some(Box::new(self.parse_expression()?))
            } else {
                None
            };
            self.expect_simple(SimpleTokenKind::Semicolon, "expected `;` after variable declaration")?;
            let st = Statement::Let { binding, init };
            assert(spells_stmt(st, ts, a, self.current as int)) by {
                assert(boundary(ts, b));
            }
            return Ok(st);
        }
        if self.match_keyword(Keyword::Return) {
            let value = if self.check_simple(SimpleTokenKind::Semicolon) {
                None
            } else {
                Some(Box::new(self.parse_expression()?))
            };
            self.expect_simple(SimpleTokenKind::Semicolon, "expected `;` after return")?;
            return Ok(Statement::Return { value });
        }
        if self.match_keyword(Keyword::While) {
            let condition = self.parse_expression()?;
            let ghost b = self.current as int;
            let body = self.parse_block()?;
            let st = Statement::While { condition: Box::new(condition), body };
            assert(spells_stmt(st, ts, a, self.current as int)) by {
                assert(boundary(ts, b));
            }
            return Ok(st);
        }
        if self.match_keyword(Keyword::For) {
            let binding = self.parse_binding(false)?;
            let ghost b1 = self.current as int;
            proof {
                assert forall|j: int| #[trigger] simple_stmt(ts, a, j) implies keyword_at(ts, b1, Keyword::In)
                    && simple_iterable(ts, b1 + 1, j - 2) && kind_at(ts, j - 2, TokenKind::LBrace) && kind_at(
                    ts,
                    j - 1,
                    TokenKind::RBrace,
                ) by {
                    let m = choose|m: int| #[trigger] simple_binding(ts, a + 1, m) && keyword_at(ts, m, Keyword::In)
                        && simple_iterable(ts, m + 1, j - 2) && kind_at(ts, j - 2, TokenKind::LBrace) && kind_at(
                        ts,
                        j - 1,
                        TokenKind::RBrace,
                    );
                    assert(m == b1);
                }
            }
            self.expect_keyword(Keyword::In)?;
            let iterable = self.parse_iterable()?;
            let ghost b2 = self.current as int;
            let body = self.parse_block()?;
            let st = Statement::For { binding, iterable: Box::new(iterable), body };
            assert(spells_stmt(st, ts, a, self.current as int)) by {
                assert(boundary(ts, b1));
                assert(boundary(ts, b2));
                assert(spells_iterable(iterable, ts, b1 + 1, b2));
            }
            return Ok(st);
        }
        if self.match_keyword(Keyword::Break) {
            let value = if self.check_simple(SimpleTokenKind::Semicolon) {
                None
            } else {
                Some(Box::new(self.parse_expression()?))
            };
            self.expect_simple(SimpleTokenKind::Semicolon, "expected `;` after break")?;
            return Ok(Statement::Break { value });
        }
        if self.match_keyword(Keyword::Continue) {
            self.expect_simple(SimpleTokenKind::Semicolon, "expected `;` after continue")?;
            return Ok(Statement::Continue);
        }
        Err(self.error_here("expected a statement"))
    }

    fn parse_binding(&mut self, require_type: bool) -> (r: Result<Binding, ParseError>)
        requires
            old(self).wf(),
        ensures
            final(self).moved_from(*old(self)),
            r matches Ok(b) ==> old(self).current < final(self).current && (require_type ==> b.ty is Some),
            r matches Ok(b) ==> spells_binding(b, old(self).tokens@, old(self).current as int, final(self).current as int),
            r matches Err(e) ==> final(self).fails_here(e),
            forall|j: int| #[trigger] simple_binding(old(self).tokens@, old(self).current as int, j) && !require_type
                ==> r is Ok && final(self).current == j,
    {
        let mutable = self.match_keyword(Keyword::Mut);
        let name = self.expect_identifier("expected variable name")?;
        let ty = if self.match_simple(SimpleTokenKind::Colon) {
            Some(self.parse_type()?)
        } else {
            None
        };
        if require_type && ty.is_none() {
            return Err(self.error_here("expected `:` after parameter name"));
        }
        Ok(Binding::new(name, mutable, ty))
    }

    fn parse_iterable(&mut self) -> (r: Result<Expr, ParseError>)
        requires
            old(self).wf(),
        ensures
            final(self).moved_from(*old(self)),
            r matches Ok(x) ==> old(self).current < final(self).current && iterable_wf(x),
            r matches Ok(x) ==> spells_iterable(x, old(self).tokens@, old(self).current as int, final(self).current as int),
            r matches Err(e) ==> final(self).fails_here(e),
            forall|e: int| #[trigger] simple_iterable(old(self).tokens@, old(self).current as int, e) ==> r is Ok
                && final(self).current == e,
        decreases old(self).tokens@.len() - old(self).current, 9int,
    {
        let ghost ts = self.tokens@;
        let ghost a = self.current as int;
        let left = self.parse_expression()?;
        let ghost m = self.current as int;
        proof {
            assert forall|e: int| #[trigger] simple_iterable(ts, a, e) implies (m == e && !kind_at(ts, m, TokenKind::DotDot))
                || (kind_at(ts, m, TokenKind::DotDot) && flat_chain(ts, m + 1, e)) by {
                if !(flat_chain(ts, a, e) && !kind_at(ts, e, TokenKind::DotDot)) {
                    let d = choose|d: int| #[trigger] flat_chain(ts, a, d) && kind_at(ts, d, TokenKind::DotDot)
                        && flat_chain(ts, d + 1, e);
                    assert(flat_chain(ts, a, d));
                }
            }
        }
        if self.match_simple(SimpleTokenKind::DotDot) {
            let right = self.parse_expression()?;
            let x = Expr::Binary { left: Box::new(left), op: BinaryOp::Range, right: Box::new(right) };
            assert(spells_iterable(x, ts, a, self.current as int)) by {
                assert(boundary(ts, m));
                assert(spells_expr(left, ts, a, m, 0));
            }
            return Ok(x);
        }
        Ok(left)
    }

    fn parse_expression(&mut self) -> (r: Result<Expr, ParseError>)
        requires
            old(self).wf(),
        ensures
            final(self).moved_from(*old(self)),
            r matches Ok(x) ==> old(self).current < final(self).current && expr_wf(x),
            r matches Ok(x) ==> spells_expr(x, old(self).tokens@, old(self).current as int, final(self).current as int, 0),
            r matches Err(e) ==> final(self).fails_here(e),
            forall|c: int| #[trigger] flat_chain(old(self).tokens@, old(self).current as int, c) ==> r is Ok
                && final(self).current == c,
            forall|c: int| #[trigger] if_form(old(self).tokens@, old(self).current as int, c) ==> (r matches Ok(x) && x is If)
                && final(self).current == c + 2,
        decreases old(self).tokens@.len() - old(self).current, 8int,
    {
        let ghost ts = self.tokens@;
        let ghost a = self.current as int;
        let mut expr = self.parse_additive()?;
        loop
            invariant
                self.moved_from(*old(self)),
                self.tokens@ == ts,
                a == old(self).current,
                ts == old(self).tokens@,
                old(self).current < self.current,
                expr_wf(expr),
                spells_expr(expr, ts, a, self.current as int, 0),
                forall|c: int| #[trigger] if_form(ts, a, c) ==> self.current == c + 2 && expr is If,
                forall|c: int| #[trigger] flat_chain(ts, a, c) ==> flat_rest(ts, self.current as int, c, 1),
            ensures
                forall|c: int| #[trigger] if_form(ts, a, c) ==> self.current == c + 2 && expr is If,
                forall|c: int| #[trigger] flat_chain(ts, a, c) ==> self.current == c,
            decreases self.tokens@.len() - self.current,
        {
            let ghost p = self.current as int;
            let op = match self.match_comparison_op() {
                Some(op) => op,
                None => break,
            };
            let right = self.parse_additive()?;
            let ghost left = expr;
            expr = Expr::Binary { left: Box::new(expr), op, right: Box::new(right) };
            assert(spells_expr(expr, ts, a, self.current as int, 0)) by {
                assert(boundary(ts, p));
                assert(spells_expr(left, ts, a, p, 0));
                assert(kind_at(ts, p, op_token(op)));
            }
        }
        Ok(expr)
    }

    fn parse_additive(&mut self) -> (r: Result<Expr, ParseError>)
        requires
            old(self).wf(),
        ensures
            final(self).moved_from(*old(self)),
            r matches Ok(x) ==> old(self).current < final(self).current && expr_wf(x),
            r matches Ok(x) ==> spells_expr(x, old(self).tokens@, old(self).current as int, final(self).current as int, 1),
            r matches Err(e) ==> final(self).fails_here(e),
            forall|c: int| #[trigger] flat_chain(old(self).tokens@, old(self).current as int, c) ==> r is Ok && flat_rest(
                old(self).tokens@,
                final(self).current as int,
                c,
                1,
            ),
            forall|c: int| #[trigger] if_form(old(self).tokens@, old(self).current as int, c) ==> (r matches Ok(x) && x is If)
                && final(self).current == c + 2,
        decreases old(self).tokens@.len() - old(self).current, 7int,
    {
        let ghost ts = self.tokens@;
        let ghost a = self.current as int;
        let mut expr = self.parse_multiplicative()?;
        loop
            invariant
                self.moved_from(*old(self)),
                self.tokens@ == ts,
                a == old(self).current,
                ts == old(self).tokens@,
                old(self).current < self.current,
                expr_wf(expr),
                spells_expr(expr, ts, a, self.current as int, 1),
                forall|c: int| #[trigger] if_form(ts, a, c) ==> self.current == c + 2 && expr is If,
                forall|c: int| #[trigger] flat_chain(ts, a, c) ==> flat_rest(ts, self.current as int, c, 2),
            ensures
                forall|c: int| #[trigger] if_form(ts, a, c) ==> self.current == c + 2 && expr is If,
                forall|c: int| #[trigger] flat_chain(ts, a, c) ==> flat_rest(ts, self.current as int, c, 1),
            decreases self.tokens@.len() - self.current,
        {
            let ghost p = self.current as int;
            let op = if self.match_simple(SimpleTokenKind::Plus) {
                BinaryOp::Add
            } else if self.match_simple(SimpleTokenKind::Minus) {
                BinaryOp::Sub
            } else {
                break;
            };
            let right = self.parse_multiplicative()?;
            let ghost left = expr;
            expr = Expr::Binary { left: Box::new(expr), op, right: Box::new(right) };
            assert(spells_expr(expr, ts, a, self.current as int, 1)) by {
                assert(boundary(ts, p));
                assert(spells_expr(left, ts, a, p, 1));
                assert(kind_at(ts, p, op_token(op)));
            }
        }
        Ok(expr)
    }

    fn parse_multiplicative(&mut self) -> (r: Result<Expr, ParseError>)
        requires
            old(self).wf(),
        ensures
            final(self).moved_from(*old(self)),
            r matches Ok(x) ==> old(self).current < final(self).current && expr_wf(x),
            r matches Ok(x) ==> spells_expr(x, old(self).tokens@, old(self).current as int, final(self).current as int, 2),
            r matches Err(e) ==> final(self).fails_here(e),
            forall|c: int| #[trigger] flat_chain(old(self).tokens@, old(self).current as int, c) ==> r is Ok && flat_rest(
                old(self).tokens@,
                final(self).current as int,
                c,
                2,
            ),
            forall|c: int| #[trigger] if_form(old(self).tokens@, old(self).current as int, c) ==> (r matches Ok(x) && x is If)
                && final(self).current == c + 2,
        decreases old(self).tokens@.len() - old(self).current, 6int,
    {
        let ghost ts = self.tokens@;
        let ghost a = self.current as int;
        let mut expr = self.parse_unary()?;
        loop
            invariant
                self.moved_from(*old(self)),
                self.tokens@ == ts,
                a == old(self).current,
                ts == old(self).tokens@,
                old(self).current < self.current,
                expr_wf(expr),
                spells_expr(expr, ts, a, self.current as int, 2),
                forall|c: int| #[trigger] if_form(ts, a, c) ==> self.current == c + 2 && expr is If,
                forall|c: int| #[trigger] flat_chain(ts, a, c) ==> flat_rest(ts, self.current as int, c, 3),
            ensures
                forall|c: int| #[trigger] if_form(ts, a, c) ==> self.current == c + 2 && expr is If,
                forall|c: int| #[trigger] flat_chain(ts, a, c) ==> flat_rest(ts, self.current as int, c, 2),
            decreases self.tokens@.len() - self.current,
        {
            let ghost p = self.current as int;
            let op = if self.match_simple(SimpleTokenKind::Star) {
                BinaryOp::Mul
            } else if self.match_simple(SimpleTokenKind::Slash) {
                BinaryOp::Div
            } else {
                break;
            };
            let right = self.parse_unary()?;
            let ghost left = expr;
            expr = Expr::Binary { left: Box::new(expr), op, right: Box::new(right) };
            assert(spells_expr(expr, ts, a, self.current as int, 2)) by {
                assert(boundary(ts, p));
                assert(spells_expr(left, ts, a, p, 2));
                assert(kind_at(ts, p, op_token(op)));
            }
        }
        Ok(expr)
    }

    fn parse_unary(&mut self) -> (r: Result<Expr, ParseError>)
        requires
            old(self).wf(),
        ensures
            final(self).moved_from(*old(self)),
            r matches Ok(x) ==> old(self).current < final(self).current && expr_wf(x),
            r matches Ok(x) ==> spells_expr(x, old(self).tokens@, old(self).current as int, final(self).current as int, 3),
            r matches Err(e) ==> final(self).fails_here(e),
            operand_len(old(self).tokens@, old(self).current as int) > 0 && stops_after_atom(
                old(self).tokens@,
                old(self).current + operand_len(old(self).tokens@, old(self).current as int) - 1,
            ) ==> r is Ok && final(self).current == old(self).current + operand_len(
                old(self).tokens@,
                old(self).current as int,
            ),
            forall|c: int| #[trigger] if_form(old(self).tokens@, old(self).current as int, c) ==> (r matches Ok(x) && x is If)
                && final(self).current == c + 2,
        decreases old(self).tokens@.len() - old(self).current, 5int,
    {
        let ghost ts = self.tokens@;
        let ghost a = self.current as int;
        if self.match_simple(SimpleTokenKind::Ampersand) {
            let op = if self.match_keyword(Keyword::Mut) {
                UnaryOp::RefMut
            } else {
                UnaryOp::Ref
            };
            let expr = self.parse_unary()?;
            return Ok(Expr::Unary { op, expr: Box::new(expr) });
        }
        if self.match_simple(SimpleTokenKind::Star) {
            let expr = self.parse_unary()?;
            return Ok(Expr::Unary { op: UnaryOp::Deref, expr: Box::new(expr) });
        }
        if self.match_simple(SimpleTokenKind::Minus) {
            let expr = self.parse_postfix()?;
            return Ok(Expr::Unary { op: UnaryOp::Neg, expr: Box::new(expr) });
        }
        self.parse_postfix()
    }

    fn parse_postfix(&mut self) -> (r: Result<Expr, ParseError>)
        requires
            old(self).wf(),
        ensures
            final(self).moved_from(*old(self)),
            r matches Ok(x) ==> old(self).current < final(self).current && expr_wf(x),
            r matches Ok(x) ==> spells_expr(x, old(self).tokens@, old(self).current as int, final(self).current as int, 4),
            r matches Err(e) ==> final(self).fails_here(e),
            atom_at(old(self).tokens@, old(self).current as int) && stops_after_atom(old(self).tokens@, old(self).current as int)
                ==> r is Ok && final(self).current == old(self).current + 1,
            forall|c: int| #[trigger] if_form(old(self).tokens@, old(self).current as int, c) ==> (r matches Ok(x) && x is If)
                && final(self).current == c + 2,
        decreases old(self).tokens@.len() - old(self).current, 4int,
    {
        let ghost ts = self.tokens@;
        let ghost a = self.current as int;
        let ghost simple = atom_at(ts, a) && stops_after_atom(ts, a);
        let mut expr = self.parse_primary()?;
        loop
            invariant
                self.moved_from(*old(self)),
                self.tokens@ == ts,
                a == old(self).current,
                ts == old(self).tokens@,
                old(self).current < self.current,
                expr_wf(expr),
                spells_expr(expr, ts, a, self.current as int, 4),
                forall|c: int| #[trigger] if_form(ts, a, c) ==> self.current == c + 2 && expr is If,
                simple == (atom_at(ts, a) && stops_after_atom(ts, a)),
                simple ==> self.current == a + 1,
            decreases self.tokens@.len() - self.current,
        {
            let ghost p = self.current as int;
            let ghost base = expr;
            if self.check_simple(SimpleTokenKind::LParen) && Self::is_callable(&expr) {
                self.advance();
                let args = self.parse_argument_list()?;
                self.expect_simple(SimpleTokenKind::RParen, "expected `)` after argument list")?;
                expr = Expr::Call { callee: Box::new(expr), args };
                assert(spells_expr(expr, ts, a, self.current as int, 4)) by {
                    let c = self.current as int;
                    assert(boundary(ts, p));
                    assert(spells_expr(base, ts, a, p, 4));
                    assert(kind_at(ts, p, TokenKind::LParen));
                    assert(kind_at(ts, c - 1, TokenKind::RParen));
                    assert(spells_expr_list(args@, ts, p + 1, c - 1));
                    if args@.len() >= 1 {
                        let (ss, es, tr) = choose|ss: Seq<int>, es: Seq<int>, tr: bool|
                            #[trigger] comma_list(ts, p + 1, c - 1, ss, es, args@.len(), tr) && forall|i: int|
                                0 <= i < args@.len() ==> spells_expr(#[trigger] args@[i], ts, ss[i], es[i], 0);
                        assert(comma_list(ts, p + 1, c - 1, ss, es, args@.len(), tr));
                    }
                }
                continue;
            }
            if self.match_simple(SimpleTokenKind::LBracket) {
                let index = self.parse_expression()?;
                self.expect_simple(SimpleTokenKind::RBracket, "expected `]` after index")?;
                expr = Expr::Index { base: Box::new(expr), index: Box::new(index) };
                assert(spells_expr(expr, ts, a, self.current as int, 4)) by {
                    assert(boundary(ts, p));
                    assert(spells_expr(base, ts, a, p, 4));
                }
                continue;
            }
            if self.match_simple(SimpleTokenKind::Dot) {
                let field = self.expect_number_text("expected tuple field index after `.`")?;
                expr = Expr::Field { base: Box::new(expr), field };
                continue;
            }
            break;
        }
        Ok(expr)
    }

    fn parse_primary(&mut self) -> (r: Result<Expr, ParseError>)
        requires
            old(self).wf(),
        ensures
            final(self).moved_from(*old(self)),
            r matches Ok(x) ==> old(self).current < final(self).current && expr_wf(x),
            r matches Ok(x) ==> spells_expr(x, old(self).tokens@, old(self).current as int, final(self).current as int, 5),
            r matches Err(e) ==> final(self).fails_here(e),
            old(self).at(TokenKind::Number) ==> (r matches Ok(Expr::Number { value }) && value
                == old(self).tokens@[old(self).current as int].lexeme) && final(self).current == old(self).current + 1,
            old(self).at(TokenKind::Identifier) ==> (r matches Ok(Expr::Identifier { name }) && name
                == old(self).tokens@[old(self).current as int].lexeme) && final(self).current == old(self).current + 1,
            forall|c: int| #[trigger] if_form(old(self).tokens@, old(self).current as int, c) ==> (r matches Ok(x) && x is If)
                && final(self).current == c + 2,
            old(self).at(TokenKind::LParen) && kind_at(old(self).tokens@, old(self).current + 1, TokenKind::RParen) ==> (
            r matches Ok(Expr::Tuple { elements }) && elements@.len() == 0) && final(self).current == old(self).current + 2,
            old(self).at(TokenKind::LBracket) && kind_at(old(self).tokens@, old(self).current + 1, TokenKind::RBracket)
                ==> (r matches Ok(Expr::Array { elements }) && elements@.len() == 0) && final(self).current == old(
                self,
            ).current + 2,
            !(old(self).at(TokenKind::Number) || old(self).at(TokenKind::Identifier) || old(self).at(TokenKind::LBrace)
                || old(self).at(TokenKind::Keyword(Keyword::If)) || old(self).at(TokenKind::Keyword(Keyword::Loop))
                || old(self).at(TokenKind::LBracket) || old(self).at(TokenKind::LParen)) ==> (r matches Err(e)
                && e.message@ == error_text("expected an expression"@, old(self).tokens@, old(self).current as int)),
        decreases old(self).tokens@.len() - old(self).current, 3int,
    {
        let ghost ts = self.tokens@;
        let ghost a = self.current as int;
        if self.match_simple(SimpleTokenKind::Number) {
            return Ok(Expr::Number { value: self.previous_lexeme() });
        }
        if self.match_simple(SimpleTokenKind::Identifier) {
            return Ok(Expr::Identifier { name: self.previous_lexeme() });
        }
        if self.check_simple(SimpleTokenKind::LBrace) {
            let block = self.parse_block()?;
            return Ok(Expr::Block { block });
        }
        if self.match_keyword(Keyword::If) {
            let ghost mid = self.current as int;
            assert(mid - 1 == a);
            let r = self.parse_if_after_keyword();
            proof {
                assert forall|c: int| #[trigger] if_form(ts, a, c) implies (r matches Ok(x) && x is If)
                    && self.current == c + 2 by {
                    assert(if_form(ts, mid - 1, c));
                }
            }
            return r;
        }
        if self.match_keyword(Keyword::Loop) {
            let body = self.parse_block()?;
            return Ok(Expr::Loop { body });
        }
        if self.match_simple(SimpleTokenKind::LBracket) {
            let elements = self.parse_expression_list(SimpleTokenKind::RBracket)?;
            self.expect_simple(SimpleTokenKind::RBracket, "expected `]` after array literal")?;
            let x = Expr::Array { elements };
            assert(spells_expr(x, ts, a, self.current as int, 5)) by {
                assert(spells_expr_list(elements@, ts, a + 1, self.current - 1));
            }
            return Ok(x);
        }
        if self.match_simple(SimpleTokenKind::LParen) {
            if self.match_simple(SimpleTokenKind::RParen) {
                return Ok(Expr::Tuple { elements: Vec::new() });
            }
            let first = self.parse_expression()?;
            let ghost f = self.current as int;
            if self.match_simple(SimpleTokenKind::Comma) {
                let mut elements: Vec<Expr> = Vec::new();
                elements.push(first);
                let ghost mut ss: Seq<int> = seq![a + 1];
                let ghost mut es: Seq<int> = seq![f];
                let ghost mut tr: bool = true;
                if !self.check_simple(SimpleTokenKind::RParen) {
                    loop
                        invariant_except_break
                            self.current as int == es.last() + 1,
                            kind_at(ts, es.last(), TokenKind::Comma),
                        invariant
                            self.moved_from(*old(self)),
                            self.tokens@ == ts,
                            old(self).at(TokenKind::LParen),
                            !kind_at(ts, old(self).current + 1, TokenKind::RParen),
                            old(self).current < self.current,
                            forall|i: int| 0 <= i < elements@.len() ==> expr_wf(#[trigger] elements@[i]),
                            elements@.len() >= 1,
                            ss.len() == elements@.len(),
                            es.len() == elements@.len(),
                            ss[0] == a + 1,
                            forall|i: int| 0 <= i < elements@.len() ==> #[trigger] ss[i] < es[i],
                            forall|i: int|
                                0 <= i < elements@.len() ==> spells_expr(#[trigger] elements@[i], ts, ss[i], es[i], 0),
                            forall|i: int|
                                0 <= i < elements@.len() - 1 ==> kind_at(ts, #[trigger] es[i], TokenKind::Comma)
                                    && ss[i + 1] == es[i] + 1,
                        ensures
                            elements@.len() >= 2,
                            comma_list(ts, a + 1, self.current as int, ss, es, elements@.len(), tr),
                        decreases self.tokens@.len() - self.current,
                    {
                        let ghost s0 = self.current as int;
                        let e = self.parse_expression()?;
                        elements.push(e);
                        proof {
                            ss = ss.push(s0);
                            es = es.push(self.current as int);
                        }
                        if !self.match_simple(SimpleTokenKind::Comma) {
                            proof {
                                tr = false;
                            }
                            break;
                        }
                        if self.check_simple(SimpleTokenKind::RParen) {
                            proof {
                                tr = true;
                            }
                            break;
                        }
                    }
                }
                let ghost close = self.current as int;
                self.expect_simple(SimpleTokenKind::RParen, "expected `)` after tuple literal")?;
                let x = Expr::Tuple { elements };
                assert(spells_expr(x, ts, a, self.current as int, 5)) by {
                    if elements@.len() == 1 {
                        assert(close == f + 1);
                    } else {
                        assert(comma_list(ts, a + 1, close, ss, es, elements@.len(), tr));
                    }
                }
                return Ok(x);
            }
            self.expect_simple(SimpleTokenKind::RParen, "expected `)` after expression")?;
            return Ok(first);
        }
        Err(self.error_here("expected an expression"))
    }

    fn parse_if_after_keyword(&mut self) -> (r: Result<Expr, ParseError>)
        requires
            old(self).wf(),
            old(self).current > 0,
            keyword_at(old(self).tokens@, old(self).current - 1, Keyword::If),
        ensures
            final(self).moved_from(*old(self)),
            r matches Ok(x) ==> old(self).current < final(self).current && (x is If) && expr_wf(x),
            r matches Ok(x) ==> spells_expr(x, old(self).tokens@, old(self).current - 1, final(self).current as int, 5),
            r matches Err(e) ==> final(self).fails_here(e),
            forall|c: int| #[trigger] if_form(old(self).tokens@, old(self).current - 1, c) ==> r is Ok
                && final(self).current == c + 2,
        decreases old(self).tokens@.len() - old(self).current, 9int,
    {
        let ghost ts = self.tokens@;
        let ghost a = self.current - 1;
        let condition = self.parse_expression()?;
        let ghost b1 = self.current as int;
        let then_branch = self.parse_block()?;
        let ghost b2 = self.current as int;
        let else_branch = if self.match_keyword(Keyword::Else) {
            if self.match_keyword(Keyword::If) {
                let inner = self.parse_if_after_keyword()?;
                let eb = ElseBranch::ElseIf { expr: Box::new(inner) };
                assert(else_wf(eb));
                eb
            } else {
                let block = self.parse_block()?;
                let eb = ElseBranch::Block { block };
                assert(else_wf(eb));
                eb
            }
        } else {
            ElseBranch::NoElse
        };
        assert(else_wf(else_branch));
        assert(spells_else(else_branch, ts, b2, self.current as int));
        let e = Expr::If { condition: Box::new(condition), then_branch, else_branch };
        assert(expr_wf(e));
        assert(spells_expr(e, ts, a, self.current as int, 5)) by {
            assert(boundary(ts, b1) && boundary(ts, b2));
            assert(spells_expr(condition, ts, a + 1, b1, 0));
            assert(spells_block(then_branch, ts, b1, b2));
        }
        Ok(e)
    }

    fn parse_argument_list(&mut self) -> (r: Result<Vec<Expr>, ParseError>)
        requires
            old(self).wf(),
        ensures
            final(self).moved_from(*old(self)),
            r matches Ok(xs) ==> forall|i: int| 0 <= i < xs@.len() ==> expr_wf(#[trigger] xs@[i]),
            r matches Ok(xs) ==> spells_expr_list(xs@, old(self).tokens@, old(self).current as int, final(self).current as int),
            r matches Err(e) ==> final(self).fails_here(e),
            old(self).at(TokenKind::RParen) ==> (r matches Ok(xs) && xs@.len() == 0),
            r matches Ok(xs) ==> (xs@.len() == 0 <==> old(self).at(TokenKind::RParen)),
            r matches Ok(xs) && xs@.len() > 0 ==> final(self).at(TokenKind::RParen) || !final(self).at(TokenKind::Comma),
        decreases old(self).tokens@.len() - old(self).current, 10int,
    {
        self.parse_expression_list(SimpleTokenKind::RParen)
    }

    fn parse_expression_list(&mut self, terminator: SimpleTokenKind) -> (r: Result<Vec<Expr>, ParseError>)
        requires
            old(self).wf(),
        ensures
            final(self).moved_from(*old(self)),
            r matches Ok(xs) ==> forall|i: int| 0 <= i < xs@.len() ==> expr_wf(#[trigger] xs@[i]),
            r matches Ok(xs) ==> spells_expr_list(xs@, old(self).tokens@, old(self).current as int, final(self).current as int),
            r matches Err(e) ==> final(self).fails_here(e),
            old(self).at(simple_kind(terminator)) ==> (r matches Ok(xs) && xs@.len() == 0),
            r matches Ok(xs) ==> (xs@.len() == 0 <==> old(self).at(simple_kind(terminator))),
            r matches Ok(xs) && xs@.len() > 0 ==> final(self).at(simple_kind(terminator)) || !final(self).at(
                TokenKind::Comma,
            ),
        decreases old(self).tokens@.len() - old(self).current, 9int,
    {
        let ghost ts = self.tokens@;
        let ghost a = self.current as int;
        let mut items: Vec<Expr> = Vec::new();
        if self.check_simple(terminator) {
            return Ok(items);
        }
        let ghost mut ss: Seq<int> = Seq::empty();
        let ghost mut es: Seq<int> = Seq::empty();
        let ghost mut tr: bool = false;
        loop
            invariant_except_break
                items@.len() == 0 ==> self.current as int == a,
                items@.len() > 0 ==> self.current as int == es.last() + 1 && kind_at(ts, es.last(), TokenKind::Comma),
            invariant
                self.moved_from(*old(self)),
                self.tokens@ == ts,
                a == old(self).current,
                !old(self).at(simple_kind(terminator)),
                items@.len() > 0 ==> old(self).current < self.current,
                forall|i: int| 0 <= i < items@.len() ==> expr_wf(#[trigger] items@[i]),
                ss.len() == items@.len(),
                es.len() == items@.len(),
                items@.len() > 0 ==> ss[0] == a,
                forall|i: int| 0 <= i < items@.len() ==> #[trigger] ss[i] < es[i],
                forall|i: int| 0 <= i < items@.len() ==> spells_expr(#[trigger] items@[i], ts, ss[i], es[i], 0),
                forall|i: int|
                    0 <= i < items@.len() - 1 ==> kind_at(ts, #[trigger] es[i], TokenKind::Comma) && ss[i + 1] == es[i]
                        + 1,
            ensures
                comma_list(ts, a, self.current as int, ss, es, items@.len(), tr),
                self.at(simple_kind(terminator)) || !self.at(TokenKind::Comma),
            decreases self.tokens@.len() - self.current, if items@.len() == 0 { 1int } else { 0int },
        {
            let ghost s0 = self.current as int;
            let e = self.parse_expression()?;
            items.push(e);
            proof {
                ss = ss.push(s0);
                es = es.push(self.current as int);
            }
            if !self.match_simple(SimpleTokenKind::Comma) {
                proof {
                    tr = false;
                }
                break;
            }
            if self.check_simple(terminator) {
                proof {
                    tr = true;
                }
                break;
            }
        }
        Ok(items)
    }

    fn match_comparison_op(&mut self) -> (r: Option<BinaryOp>)
        requires
            old(self).wf(),
        ensures
            final(self).tokens == old(self).tokens,
            final(self).wf(),
            r matches Some(op) ==> op != BinaryOp::Range && op_level(op) == 0 && final(self).current == old(self).current + 1
                && kind_at(old(self).tokens@, old(self).current as int, op_token(op)),
            r is None ==> final(self).current == old(self).current,
            r is None ==> !(old(self).at(TokenKind::Less) || old(self).at(TokenKind::LessEqual) || old(self).at(
                TokenKind::Greater,
            ) || old(self).at(TokenKind::GreaterEqual) || old(self).at(TokenKind::EqualEqual) || old(self).at(
                TokenKind::NotEqual,
            )),
    {
        if self.match_simple(SimpleTokenKind::Less) {
            Some(BinaryOp::Lt)
        } else if self.match_simple(SimpleTokenKind::LessEqual) {
            Some(BinaryOp::Le)
        } else if self.match_simple(SimpleTokenKind::Greater) {
            Some(BinaryOp::Gt)
        } else if self.match_simple(SimpleTokenKind::GreaterEqual) {
            Some(BinaryOp::Ge)
        } else if self.match_simple(SimpleTokenKind::EqualEqual) {
            Some(BinaryOp::Eq)
        } else if self.match_simple(SimpleTokenKind::NotEqual) {
            Some(BinaryOp::Ne)
        } else {
            None
        }
    }

    /// Whether the current token starts a statement that is never an
    /// expression: `;`, `let`, `return`, `while`, `for`, `break`, `continue`.
    fn starts_forced_statement(&self) -> (r: bool)
        requires
            self.wf(),
        ensures
            r == (self.at(TokenKind::Semicolon) || self.at(TokenKind::Keyword(Keyword::Let))
                || self.at(TokenKind::Keyword(Keyword::Return)) || self.at(TokenKind::Keyword(Keyword::While))
                || self.at(TokenKind::Keyword(Keyword::For)) || self.at(TokenKind::Keyword(Keyword::Break))
                || self.at(TokenKind::Keyword(Keyword::Continue))),
    {
        match self.peek_kind() {
            Some(TokenKind::Semicolon) => true,
            Some(TokenKind::Keyword(Keyword::Let)) => true,
            Some(TokenKind::Keyword(Keyword::Return)) => true,
            Some(TokenKind::Keyword(Keyword::While)) => true,
            Some(TokenKind::Keyword(Keyword::For)) => true,
            Some(TokenKind::Keyword(Keyword::Break)) => true,
            Some(TokenKind::Keyword(Keyword::Continue)) => true,
            _ => false,
        }
    }

    fn is_callable(expr: &Expr) -> (r: bool)
        ensures
            r == callable(*expr),
    {
        match expr {
            Expr::Identifier { .. } => true,
            Expr::Field { .. } => true,
            Expr::Index { .. } => true,
            _ => false,
        }
    }

    fn expect_keyword(&mut self, keyword: Keyword) -> (r: Result<(), ParseError>)
        requires
            old(self).wf(),
        ensures
            final(self).tokens == old(self).tokens,
            final(self).wf(),
            r is Ok == old(self).at(TokenKind::Keyword(keyword)),
            r is Ok ==> final(self).current == old(self).current + 1,
            r matches Err(e) ==> final(self).current == old(self).current && final(self).fails_here(e),
    {
        if self.match_keyword(keyword) {
            Ok(())
        } else {
            let mut m = String::new();
            m.append("expected keyword `");
            m.append(keyword.as_str());
            m.append("`");
            Err(self.error_here(m.as_str()))
        }
    }

    fn match_keyword(&mut self, keyword: Keyword) -> (r: bool)
        requires
            old(self).wf(),
        ensures
            final(self).tokens == old(self).tokens,
            final(self).wf(),
            r == old(self).at(TokenKind::Keyword(keyword)),
            r ==> final(self).current == old(self).current + 1,
            !r ==> final(self).current == old(self).current,
    {
        let is_kw = match self.peek_kind() {
            Some(TokenKind::Keyword(actual)) => actual == keyword,
            _ => false,
        };
        if is_kw {
            self.advance();
            true
        } else {
            false
        }
    }

    fn expect_identifier(&mut self, message: &str) -> (r: Result<String, ParseError>)
        requires
            old(self).wf(),
        ensures
            final(self).tokens == old(self).tokens,
            final(self).wf(),
            r is Ok == old(self).at(TokenKind::Identifier),
            r matches Ok(s) ==> final(self).current == old(self).current + 1
                && s == old(self).tokens@[old(self).current as int].lexeme,
            r matches Err(e) ==> final(self).current == old(self).current && final(self).fails_here(e)
                && e.message@ == error_text(message@, old(self).tokens@, old(self).current as int),
    {
        self.expect_simple_text(SimpleTokenKind::Identifier, message)
    }

    fn expect_number_text(&mut self, message: &str) -> (r: Result<String, ParseError>)
        requires
            old(self).wf(),
        ensures
            final(self).tokens == old(self).tokens,
            final(self).wf(),
            r is Ok == old(self).at(TokenKind::Number),
            r matches Ok(s) ==> final(self).current == old(self).current + 1
                && s == old(self).tokens@[old(self).current as int].lexeme,
            r matches Err(e) ==> final(self).current == old(self).current && final(self).fails_here(e)
                && e.message@ == error_text(message@, old(self).tokens@, old(self).current as int),
    {
        self.expect_simple_text(SimpleTokenKind::Number, message)
    }

    fn expect_simple(&mut self, expected: SimpleTokenKind, message: &str) -> (r: Result<(), ParseError>)
        requires
            old(self).wf(),
        ensures
            final(self).tokens == old(self).tokens,
            final(self).wf(),
            r is Ok == old(self).at_simple(expected),
            r is Ok == old(self).at(simple_kind(expected)),
            r is Ok ==> final(self).current == old(self).current + 1,
            r matches Err(e) ==> final(self).current == old(self).current && final(self).fails_here(e)
                && e.message@ == error_text(message@, old(self).tokens@, old(self).current as int),
    {
        if self.match_simple(expected) {
            Ok(())
        } else {
            Err(self.error_here(message))
        }
    }

    fn expect_simple_text(&mut self, expected: SimpleTokenKind, message: &str) -> (r: Result<String, ParseError>)
        requires
            old(self).wf(),
        ensures
            final(self).tokens == old(self).tokens,
            final(self).wf(),
            r is Ok == old(self).at_simple(expected),
            r matches Ok(s) ==> final(self).current == old(self).current + 1
                && s == old(self).tokens@[old(self).current as int].lexeme,
            r matches Err(e) ==> final(self).current == old(self).current && final(self).fails_here(e)
                && e.message@ == error_text(message@, old(self).tokens@, old(self).current as int),
    {
        if self.check_simple(expected) {
            let lexeme = self.tokens[self.current].lexeme.clone();
            self.advance();
            Ok(lexeme)
        } else {
            Err(self.error_here(message))
        }
    }

    fn match_simple(&mut self, expected: SimpleTokenKind) -> (r: bool)
        requires
            old(self).wf(),
        ensures
            final(self).tokens == old(self).tokens,
            final(self).wf(),
            r == old(self).at_simple(expected),
            r == old(self).at(simple_kind(expected)),
            r ==> final(self).current == old(self).current + 1,
            !r ==> final(self).current == old(self).current,
    {
        proof {
            if self.current < self.tokens@.len() {
                lemma_simple_kind(self.tokens@[self.current as int].kind, expected);
            }
        }
        if self.check_simple(expected) {
            self.advance();
            true
        } else {
            false
        }
    }

    fn check_simple(&self, expected: SimpleTokenKind) -> (r: bool)
        requires
            self.wf(),
        ensures
            r == self.at_simple(expected),
            r == self.at(simple_kind(expected)),
    {
        proof {
            if self.current < self.tokens@.len() {
                lemma_simple_kind(self.tokens@[self.current as int].kind, expected);
            }
        }
        matches_simple(self.peek_kind(), expected)
    }

    fn advance(&mut self)
        requires
            old(self).wf(),
        ensures
            final(self).tokens == old(self).tokens,
            final(self).wf(),
            old(self).current < old(self).tokens@.len() ==> final(self).current == old(self).current + 1,
            old(self).current >= old(self).tokens@.len() ==> final(self).current == old(self).current,
    {
        if self.current < self.tokens.len() {
            self.current = self.current + 1;
        }
    }

    /// The text of the token just consumed (empty at the start).
    fn previous_lexeme(&self) -> (s: String)
        requires
            self.wf(),
        ensures
            0 < self.current ==> s == self.tokens@[self.current - 1].lexeme,
            self.current == 0 ==> s@.len() == 0,
    {
        if self.current > 0 {
            self.tokens[self.current - 1].lexeme.clone()
        } else {
            String::new()
        }
    }

    fn peek_kind(&self) -> (r: Option<TokenKind>)
        requires
            self.wf(),
        ensures
            self.current < self.tokens@.len() ==> r == Some(self.tokens@[self.current as int].kind),
            self.current >= self.tokens@.len() ==> r is None,
    {
        if self.current < self.tokens.len() {
            Some(self.tokens[self.current].kind)
        } else {
            None
        }
    }

    fn is_at_end(&self) -> (r: bool)
        ensures
            r == (self.current >= self.tokens@.len()),
    {
        self.current >= self.tokens.len()
    }

    fn error_here(&self, message: &str) -> (e: ParseError)
        ensures
            self.fails_here(e),
            e.message@ == error_text(message@, self.tokens@, self.current as int),
    {
        let mut m = String::new();
        m.append(message);
        if self.current < self.tokens.len() {
            m.append(", found `");
            m.append(self.tokens[self.current].lexeme.as_str());
            m.append("`");
            ParseError { message: m, position: self.tokens[self.current].position }
        } else if self.tokens.len() > 0 {
            m.append(", found end of input");
            ParseError { message: m, position: self.tokens[self.tokens.len() - 1].position }
        } else {
            m.append(", found empty input");
            ParseError { message: m, position: Position { line: 1, column: 1 } }
        }
    }
}

} // verus!
