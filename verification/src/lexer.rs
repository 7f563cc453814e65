//! Lexical analysis: source text to tokens with line/column positions.
//!
//! The lexer works byte by byte. Recognised are the keywords of the
//! language, identifiers, decimal integers, operators and delimiters, the end
//! marker `#`, line comments `//` and (nestable) block comments `/* */`.
//! Anything else is reported as a lexical error and skipped.
use vstd::prelude::*;
use crate::text::{push_char, str_eq};
use vstd::string::StringSliceAdditionalSpecFns;

verus! {

/// A position in the source text; both line and column start at 1 and the
/// column counts bytes.
#[derive(Debug, Clone, Copy, PartialEq, Eq, Structural)]
pub struct Position {
    pub line: usize,
    pub column: usize,
}

/// The keywords of the language.
#[derive(Debug, Clone, Copy, PartialEq, Eq, Structural)]
pub enum Keyword {
    I32,
    Let,
    If,
    Else,
    While,
    Return,
    Mut,
    Fn,
    For,
    In,
    Loop,
    Break,
    Continue,
}

/// The kinds of tokens.
#[derive(Debug, Clone, Copy, PartialEq, Eq, Structural)]
pub enum TokenKind {
    Keyword(Keyword),
    Identifier,
    Number,
    Assign,
    Plus,
    Minus,
    Star,
    Slash,
    EqualEqual,
    Greater,
    GreaterEqual,
    Less,
    LessEqual,
    NotEqual,
    Ampersand,
    LParen,
    RParen,
    LBrace,
    RBrace,
    LBracket,
    RBracket,
    Semicolon,
    Colon,
    Comma,
    Arrow,
    Dot,
    DotDot,
    EndMarker,
}

/// A token: its kind, its text in the source and where it starts.
#[derive(Debug, Clone)]
pub struct Token {
    pub kind: TokenKind,
    pub lexeme: String,
    pub position: Position,
}

/// A lexical error and where it was found.
#[derive(Debug, Clone)]
pub struct LexError {
    pub message: String,
    pub position: Position,
}

/// The tokens of a source text, and the lexical errors found in it.
#[derive(Debug, Clone)]
pub struct LexResult {
    pub tokens: Vec<Token>,
    pub errors: Vec<LexError>,
}

/// The source text of a keyword.
pub open spec fn keyword_text(k: Keyword) -> Seq<char> {
    match k {
        Keyword::I32 => "i32"@,
        Keyword::Let => "let"@,
        Keyword::If => "if"@,
        Keyword::Else => "else"@,
        Keyword::While => "while"@,
        Keyword::Return => "return"@,
        Keyword::Mut => "mut"@,
        Keyword::Fn => "fn"@,
        Keyword::For => "for"@,
        Keyword::In => "in"@,
        Keyword::Loop => "loop"@,
        Keyword::Break => "break"@,
        Keyword::Continue => "continue"@,
    }
}

/// The keyword spelled by a word, if any.
pub open spec fn keyword_of(w: Seq<char>) -> Option<Keyword> {
    if w == "i32"@ { Some(Keyword::I32) }
    else if w == "let"@ { Some(Keyword::Let) }
    else if w == "if"@ { Some(Keyword::If) }
    else if w == "else"@ { Some(Keyword::Else) }
    else if w == "while"@ { Some(Keyword::While) }
    else if w == "return"@ { Some(Keyword::Return) }
    else if w == "mut"@ { Some(Keyword::Mut) }
    else if w == "fn"@ { Some(Keyword::Fn) }
    else if w == "for"@ { Some(Keyword::For) }
    else if w == "in"@ { Some(Keyword::In) }
    else if w == "loop"@ { Some(Keyword::Loop) }
    else if w == "break"@ { Some(Keyword::Break) }
    else if w == "continue"@ { Some(Keyword::Continue) }
    else { None }
}

/// The fixed text of an operator or delimiter token (empty for the kinds
/// whose text varies: keywords, identifiers and numbers).
pub open spec fn punct_text(k: TokenKind) -> Seq<char> {
    match k {
        TokenKind::Assign => "="@,
        TokenKind::Plus => "+"@,
        TokenKind::Minus => "-"@,
        TokenKind::Star => "*"@,
        TokenKind::Slash => "/"@,
        TokenKind::EqualEqual => "=="@,
        TokenKind::Greater => ">"@,
        TokenKind::GreaterEqual => ">="@,
        TokenKind::Less => "<"@,
        TokenKind::LessEqual => "<="@,
        TokenKind::NotEqual => "!="@,
        TokenKind::Ampersand => "&"@,
        TokenKind::LParen => "("@,
        TokenKind::RParen => ")"@,
        TokenKind::LBrace => "{"@,
        TokenKind::RBrace => "}"@,
        TokenKind::LBracket => "["@,
        TokenKind::RBracket => "]"@,
        TokenKind::Semicolon => ";"@,
        TokenKind::Colon => ":"@,
        TokenKind::Comma => ","@,
        TokenKind::Arrow => "->"@,
        TokenKind::Dot => "."@,
        TokenKind::DotDot => ".."@,
        TokenKind::EndMarker => "#"@,
        _ => Seq::empty(),
    }
}

/// Operators, delimiters and the end marker: the kinds with a fixed text.
pub open spec fn is_punct(k: TokenKind) -> bool {
    !(k is Keyword || k is Identifier || k is Number)
}

pub open spec fn is_alpha_char(c: char) -> bool {
    ('a' <= c && c <= 'z') || ('A' <= c && c <= 'Z') || c == '_'
}

pub open spec fn is_alnum_char(c: char) -> bool {
    is_alpha_char(c) || crate::text::is_digit_char(c)
}

/// A word: a letter or underscore followed by letters, digits or underscores.
pub open spec fn is_word(s: Seq<char>) -> bool {
    &&& s.len() > 0
    &&& is_alpha_char(s[0])
    &&& forall|i: int| 0 <= i < s.len() ==> is_alnum_char(#[trigger] s[i])
}

/// The kind of a token agrees with its text.
pub open spec fn kind_matches_lexeme(k: TokenKind, s: Seq<char>) -> bool {
    match k {
        TokenKind::Keyword(kw) => s == keyword_text(kw),
        TokenKind::Identifier => is_word(s) && keyword_of(s) is None,
        TokenKind::Number => crate::text::all_digits(s),
        _ => s == punct_text(k),
    }
}

pub open spec fn pos_at(line: usize, column: usize) -> Position {
    Position { line, column }
}

pub open spec fn position_valid(p: Position) -> bool {
    p.line >= 1 && p.column >= 1
}

/// `a` comes strictly before `b` in the source.
pub open spec fn position_before(a: Position, b: Position) -> bool {
    a.line < b.line || (a.line == b.line && a.column < b.column)
}

/// What every token produced by the lexer satisfies.
pub open spec fn token_valid(t: Token) -> bool {
    kind_matches_lexeme(t.kind, t.lexeme@) && position_valid(t.position)
}

/// The tokens stand in source order.
pub open spec fn tokens_ordered(ts: Seq<Token>) -> bool {
    forall|i: int, j: int|
        0 <= i < j < ts.len() ==> position_before(#[trigger] ts[i].position, #[trigger] ts[j].position)
}

impl Keyword {
    /// The source text of the keyword, e.g. `fn` for `Keyword::Fn`.
    pub fn as_str(&self) -> (s: &'static str)
        ensures
            s@ == keyword_text(*self),
    {
        match self {
            Keyword::I32 => "i32",
            Keyword::Let => "let",
            Keyword::If => "if",
            Keyword::Else => "else",
            Keyword::While => "while",
            Keyword::Return => "return",
            Keyword::Mut => "mut",
            Keyword::Fn => "fn",
            Keyword::For => "for",
            Keyword::In => "in",
            Keyword::Loop => "loop",
            Keyword::Break => "break",
            Keyword::Continue => "continue",
        }
    }
}

/// The name shown for a token kind, e.g. `Identifier` or `Keyword(fn)`.
pub open spec fn kind_name(k: TokenKind) -> Seq<char> {
    match k {
        TokenKind::Keyword(kw) => "Keyword("@ + keyword_text(kw) + ")"@,
        TokenKind::Identifier => "Identifier"@,
        TokenKind::Number => "Number"@,
        TokenKind::Assign => "Assign"@,
        TokenKind::Plus => "Plus"@,
        TokenKind::Minus => "Minus"@,
        TokenKind::Star => "Star"@,
        TokenKind::Slash => "Slash"@,
        TokenKind::EqualEqual => "EqualEqual"@,
        TokenKind::Greater => "Greater"@,
        TokenKind::GreaterEqual => "GreaterEqual"@,
        TokenKind::Less => "Less"@,
        TokenKind::LessEqual => "LessEqual"@,
        TokenKind::NotEqual => "NotEqual"@,
        TokenKind::Ampersand => "Ampersand"@,
        TokenKind::LParen => "LParen"@,
        TokenKind::RParen => "RParen"@,
        TokenKind::LBrace => "LBrace"@,
        TokenKind::RBrace => "RBrace"@,
        TokenKind::LBracket => "LBracket"@,
        TokenKind::RBracket => "RBracket"@,
        TokenKind::Semicolon => "Semicolon"@,
        TokenKind::Colon => "Colon"@,
        TokenKind::Comma => "Comma"@,
        TokenKind::Arrow => "Arrow"@,
        TokenKind::Dot => "Dot"@,
        TokenKind::DotDot => "DotDot"@,
        TokenKind::EndMarker => "EndMarker"@,
    }
}

impl TokenKind {
    /// The name of the kind, e.g. `Identifier` or `Keyword(fn)`.
    pub fn to_display_string(&self) -> (s: String)
        ensures
            s@ == kind_name(*self),
    {
        match self {
            TokenKind::Keyword(kw) => {
                let mut s = String::from_str("Keyword(");
                s.append(kw.as_str());
                s.append(")");
                s
            },
            TokenKind::Identifier => String::from_str("Identifier"),
            TokenKind::Number => String::from_str("Number"),
            TokenKind::Assign => String::from_str("Assign"),
            TokenKind::Plus => String::from_str("Plus"),
            TokenKind::Minus => String::from_str("Minus"),
            TokenKind::Star => String::from_str("Star"),
            TokenKind::Slash => String::from_str("Slash"),
            TokenKind::EqualEqual => String::from_str("EqualEqual"),
            TokenKind::Greater => String::from_str("Greater"),
            TokenKind::GreaterEqual => String::from_str("GreaterEqual"),
            TokenKind::Less => String::from_str("Less"),
            TokenKind::LessEqual => String::from_str("LessEqual"),
            TokenKind::NotEqual => String::from_str("NotEqual"),
            TokenKind::Ampersand => String::from_str("Ampersand"),
            TokenKind::LParen => String::from_str("LParen"),
            TokenKind::RParen => String::from_str("RParen"),
            TokenKind::LBrace => String::from_str("LBrace"),
            TokenKind::RBrace => String::from_str("RBrace"),
            TokenKind::LBracket => String::from_str("LBracket"),
            TokenKind::RBracket => String::from_str("RBracket"),
            TokenKind::Semicolon => String::from_str("Semicolon"),
            TokenKind::Colon => String::from_str("Colon"),
            TokenKind::Comma => String::from_str("Comma"),
            TokenKind::Arrow => String::from_str("Arrow"),
            TokenKind::Dot => String::from_str("Dot"),
            TokenKind::DotDot => String::from_str("DotDot"),
            TokenKind::EndMarker => String::from_str("EndMarker"),
        }
    }
}

/// Reading a keyword's text back as a word gives that keyword again.
pub proof fn law_keyword_text_round_trip(k: Keyword)
    ensures
        keyword_of(keyword_text(k)) == Some(k),
{
    reveal_strlit("i32");
    reveal_strlit("let");
    reveal_strlit("if");
    reveal_strlit("else");
    reveal_strlit("while");
    reveal_strlit("return");
    reveal_strlit("mut");
    reveal_strlit("fn");
    reveal_strlit("for");
    reveal_strlit("in");
    reveal_strlit("loop");
    reveal_strlit("break");
    reveal_strlit("continue");
    let t = keyword_text(k);
    assert(t.len() >= 2);
    // Words of the same length differ in some character.
    assert("if"@[1] != "fn"@[1] && "if"@[1] != "in"@[1] && "fn"@[0] != "in"@[0]);
    assert("i32"@[0] != "let"@[0] && "i32"@[0] != "mut"@[0] && "i32"@[0] != "for"@[0]);
    assert("let"@[0] != "mut"@[0] && "let"@[0] != "for"@[0] && "mut"@[0] != "for"@[0]);
    assert("else"@[0] != "loop"@[0]);
    assert("while"@[0] != "break"@[0]);
}

/// The category under which a token kind is shown to users: keyword,
/// identifier, number, operator, separator, delimiter, special symbol or
/// end marker.
pub open spec fn token_category(k: TokenKind) -> Seq<char> {
    match k {
        TokenKind::Keyword(_) => "关键字"@,
        TokenKind::Identifier => "标识符"@,
        TokenKind::Number => "数字"@,
        TokenKind::Assign | TokenKind::Plus | TokenKind::Minus | TokenKind::Star | TokenKind::Slash
        | TokenKind::EqualEqual | TokenKind::Greater | TokenKind::GreaterEqual | TokenKind::Less
        | TokenKind::LessEqual | TokenKind::NotEqual | TokenKind::Ampersand => "算符"@,
        TokenKind::Semicolon | TokenKind::Colon | TokenKind::Comma => "分隔符"@,
        TokenKind::LParen | TokenKind::RParen | TokenKind::LBrace | TokenKind::RBrace | TokenKind::LBracket
        | TokenKind::RBracket => "界符"@,
        TokenKind::Arrow | TokenKind::Dot | TokenKind::DotDot => "特殊符号"@,
        TokenKind::EndMarker => "结束符"@,
    }
}

/// The category of a token kind, as shown to users.
pub fn classify_token(kind: &TokenKind) -> (s: String)
    ensures
        s@ == token_category(*kind),
{
    match kind {
        TokenKind::Keyword(_) => String::from_str("关键字"),
        TokenKind::Identifier => String::from_str("标识符"),
        TokenKind::Number => String::from_str("数字"),
        TokenKind::Assign | TokenKind::Plus | TokenKind::Minus | TokenKind::Star | TokenKind::Slash
        | TokenKind::EqualEqual | TokenKind::Greater | TokenKind::GreaterEqual | TokenKind::Less
        | TokenKind::LessEqual | TokenKind::NotEqual | TokenKind::Ampersand => String::from_str("算符"),
        TokenKind::Semicolon | TokenKind::Colon | TokenKind::Comma => String::from_str("分隔符"),
        TokenKind::LParen | TokenKind::RParen | TokenKind::LBrace | TokenKind::RBrace | TokenKind::LBracket
        | TokenKind::RBracket => String::from_str("界符"),
        TokenKind::Arrow | TokenKind::Dot | TokenKind::DotDot => String::from_str("特殊符号"),
        TokenKind::EndMarker => String::from_str("结束符"),
    }
}

/// The keyword spelled by `w`, if any.
pub fn keyword_from_word(w: &str) -> (r: Option<Keyword>)
    ensures
        r == keyword_of(w@),
{
    if str_eq(w, "i32") { Some(Keyword::I32) }
    else if str_eq(w, "let") { Some(Keyword::Let) }
    else if str_eq(w, "if") { Some(Keyword::If) }
    else if str_eq(w, "else") { Some(Keyword::Else) }
    else if str_eq(w, "while") { Some(Keyword::While) }
    else if str_eq(w, "return") { Some(Keyword::Return) }
    else if str_eq(w, "mut") { Some(Keyword::Mut) }
    else if str_eq(w, "fn") { Some(Keyword::Fn) }
    else if str_eq(w, "for") { Some(Keyword::For) }
    else if str_eq(w, "in") { Some(Keyword::In) }
    else if str_eq(w, "loop") { Some(Keyword::Loop) }
    else if str_eq(w, "break") { Some(Keyword::Break) }
    else if str_eq(w, "continue") { Some(Keyword::Continue) }
    else { None }
}

fn is_alpha_byte(b: u8) -> (r: bool)
    ensures
        r == is_alpha_char(b as char),
{
    (97 <= b && b <= 122) || (65 <= b && b <= 90) || b == 95
}

fn is_digit_byte(b: u8) -> (r: bool)
    ensures
        r == crate::text::is_digit_char(b as char),
{
    48 <= b && b <= 57
}

/// The position after reading byte `b` at position (line, col).
fn step(b: u8, line: usize, col: usize, i: Ghost<int>, n: Ghost<int>) -> (r: (usize, usize))
    requires
        0 <= i@ < n@ < usize::MAX,
        1 <= line <= i@ + 1,
        1 <= col <= i@ + 1,
    ensures
        1 <= r.0 <= i@ + 2,
        1 <= r.1 <= i@ + 2,
        position_before(pos_at(line, col), pos_at(r.0, r.1)),
        (r.0 as nat, r.1 as nat) == step_pos(line as nat, col as nat, b),
{
    if b == 10 {
        (line + 1, 1)
    } else {
        (line, col + 1)
    }
}

/// A token as the specification of the lexer sees it: its kind, its text,
/// its line and its column.
pub type TokenText = (TokenKind, Seq<char>, nat, nat);

/// A lexical error as the specification sees it: message, line, column.
pub type LexErrorText = (Seq<char>, nat, nat);

pub open spec fn token_text(t: Token) -> TokenText {
    (t.kind, t.lexeme@, t.position.line as nat, t.position.column as nat)
}

pub open spec fn lex_error_text(e: LexError) -> LexErrorText {
    (e.message@, e.position.line as nat, e.position.column as nat)
}

pub open spec fn tokens_text(ts: Seq<Token>) -> Seq<TokenText> {
    Seq::new(ts.len(), |i: int| token_text(ts[i]))
}

pub open spec fn lex_errors_text(es: Seq<LexError>) -> Seq<LexErrorText> {
    Seq::new(es.len(), |i: int| lex_error_text(es[i]))
}

/// Bytes read as characters, one each (the text of ASCII words and numbers).
pub open spec fn bytes_chars(s: Seq<u8>) -> Seq<char> {
    Seq::new(s.len(), |i: int| s[i] as char)
}

/// Space, tab, newline, carriage return and form feed.
pub open spec fn is_space_byte(b: u8) -> bool {
    b == 32 || b == 9 || b == 10 || b == 13 || b == 12
}

/// The position after byte `b` read at (line, col): a newline starts the
/// next line, any other byte moves one column on.
pub open spec fn step_pos(line: nat, col: nat, b: u8) -> (nat, nat) {
    if b == 10 {
        (line + 1, 1)
    } else {
        (line, col + 1)
    }
}

/// The position after reading the bytes `s` from (line, col).
pub open spec fn advance(line: nat, col: nat, s: Seq<u8>) -> (nat, nat)
    decreases s.len(),
{
    if s.len() == 0 {
        (line, col)
    } else {
        let p = advance(line, col, s.drop_last());
        step_pos(p.0, p.1, s.last())
    }
}

/// The index of the first newline at or after `i`, or the length.
pub open spec fn newline_from(s: Seq<u8>, i: nat) -> nat
    decreases s.len() - i,
{
    if i >= s.len() {
        s.len()
    } else if s[i as int] == 10 {
        i
    } else {
        newline_from(s, i + 1)
    }
}

/// Where a block comment whose body resumes at `i`, `depth` comments deep,
/// ends (the index after its final `*/`), or `None` when it never closes.
pub open spec fn comment_close(s: Seq<u8>, i: nat, depth: nat) -> Option<nat>
    decreases s.len() - i,
{
    if i >= s.len() {
        None
    } else if s[i as int] == 47 && i + 1 < s.len() && s[i + 1int] == 42 {
        comment_close(s, i + 2, depth + 1)
    } else if s[i as int] == 42 && i + 1 < s.len() && s[i + 1int] == 47 {
        if depth <= 1 {
            Some(i + 2)
        } else {
            comment_close(s, i + 2, (depth - 1) as nat)
        }
    } else {
        comment_close(s, i + 1, depth)
    }
}

/// The end of the run of letters, digits and underscores starting at `i`.
pub open spec fn word_end(s: Seq<u8>, i: nat) -> nat
    decreases s.len() - i,
{
    if i >= s.len() || !is_alnum_char(s[i as int] as char) {
        i
    } else {
        word_end(s, i + 1)
    }
}

/// The end of the run of decimal digits starting at `i`.
pub open spec fn digits_end(s: Seq<u8>, i: nat) -> nat
    decreases s.len() - i,
{
    if i >= s.len() || !crate::text::is_digit_char(s[i as int] as char) {
        i
    } else {
        digits_end(s, i + 1)
    }
}

/// The operator, delimiter or end marker starting with byte `b` followed by
/// byte `next` (0 at the end of the input), and how many bytes it takes.
pub open spec fn punct_spec(b: u8, next: u8) -> (Option<TokenKind>, nat) {
    if b == 61 {
        if next == 61 { (Some(TokenKind::EqualEqual), 2) } else { (Some(TokenKind::Assign), 1) }
    } else if b == 62 {
        if next == 61 { (Some(TokenKind::GreaterEqual), 2) } else { (Some(TokenKind::Greater), 1) }
    } else if b == 60 {
        if next == 61 { (Some(TokenKind::LessEqual), 2) } else { (Some(TokenKind::Less), 1) }
    } else if b == 33 {
        if next == 61 { (Some(TokenKind::NotEqual), 2) } else { (None, 1) }
    } else if b == 45 {
        if next == 62 { (Some(TokenKind::Arrow), 2) } else { (Some(TokenKind::Minus), 1) }
    } else if b == 46 {
        if next == 46 { (Some(TokenKind::DotDot), 2) } else { (Some(TokenKind::Dot), 1) }
    } else if b == 43 { (Some(TokenKind::Plus), 1) }
    else if b == 42 { (Some(TokenKind::Star), 1) }
    else if b == 47 { (Some(TokenKind::Slash), 1) }
    else if b == 38 { (Some(TokenKind::Ampersand), 1) }
    else if b == 40 { (Some(TokenKind::LParen), 1) }
    else if b == 41 { (Some(TokenKind::RParen), 1) }
    else if b == 123 { (Some(TokenKind::LBrace), 1) }
    else if b == 125 { (Some(TokenKind::RBrace), 1) }
    else if b == 91 { (Some(TokenKind::LBracket), 1) }
    else if b == 93 { (Some(TokenKind::RBracket), 1) }
    else if b == 59 { (Some(TokenKind::Semicolon), 1) }
    else if b == 58 { (Some(TokenKind::Colon), 1) }
    else if b == 44 { (Some(TokenKind::Comma), 1) }
    else if b == 35 { (Some(TokenKind::EndMarker), 1) }
    else { (None, 1) }
}

/// The message for a byte that starts no token.
pub open spec fn unrecognized_message(b: u8) -> Seq<char> {
    "unrecognized character `"@.push(b as char) + "`"@
}

/// `newline_from` stays within the input and does not go back.
pub proof fn lemma_newline_from_ge(s: Seq<u8>, i: nat)
    ensures
        newline_from(s, i) >= i || i > s.len(),
        newline_from(s, i) <= s.len(),
        newline_from(s, i) >= i || newline_from(s, i) == s.len(),
    decreases s.len() - i,
{
    if i < s.len() && s[i as int] != 10 {
        lemma_newline_from_ge(s, i + 1);
    }
}

/// A block comment ends after its opening and within the input.
pub proof fn lemma_comment_close_after(s: Seq<u8>, i: nat, depth: nat)
    ensures
        comment_close(s, i, depth) matches Some(k) ==> i + 2 <= k <= s.len(),
    decreases s.len() - i,
{
    if i >= s.len() {
    } else if s[i as int] == 47 && i + 1 < s.len() && s[i + 1int] == 42 {
        lemma_comment_close_after(s, i + 2, depth + 1);
    } else if s[i as int] == 42 && i + 1 < s.len() && s[i + 1int] == 47 {
        if depth > 1 {
            lemma_comment_close_after(s, i + 2, (depth - 1) as nat);
        }
    } else {
        lemma_comment_close_after(s, i + 1, depth);
    }
}

/// A word ends within the input, not before it starts.
pub proof fn lemma_word_end_bounds(s: Seq<u8>, i: nat)
    requires
        i <= s.len(),
    ensures
        i <= word_end(s, i) <= s.len(),
    decreases s.len() - i,
{
    if i < s.len() && is_alnum_char(s[i as int] as char) {
        lemma_word_end_bounds(s, i + 1);
    }
}

/// A number ends within the input, not before it starts.
pub proof fn lemma_digits_end_bounds(s: Seq<u8>, i: nat)
    requires
        i <= s.len(),
    ensures
        i <= digits_end(s, i) <= s.len(),
    decreases s.len() - i,
{
    if i < s.len() && crate::text::is_digit_char(s[i as int] as char) {
        lemma_digits_end_bounds(s, i + 1);
    }
}

/// What lexing the bytes `s` from index `i`, at position (line, col), gives:
/// the tokens and the lexical errors, in order. Whitespace and comments are
/// skipped; a word is a keyword or an identifier; a run of digits is a
/// number; operators take two bytes where they can (`==`, `!=`, `<=`,
/// `>=`, `->`, `..`); any other byte is an error and skipped; an unclosed
/// block comment is an error that ends the input.
pub open spec fn lex_from(s: Seq<u8>, i: nat, line: nat, col: nat) -> (Seq<TokenText>, Seq<LexErrorText>)
    decreases s.len() - i,
{
    if i >= s.len() {
        (Seq::empty(), Seq::empty())
    } else {
        let b = s[i as int];
        if is_space_byte(b) {
            let p = step_pos(line, col, b);
            lex_from(s, i + 1, p.0, p.1)
        } else if b == 47 && i + 1 < s.len() && s[i + 1int] == 47 {
            let k = newline_from(s, i + 2);
            proof {
                lemma_newline_from_ge(s, i + 2);
            }
            let p = advance(line, col, s.subrange(i as int, k as int));
            lex_from(s, k, p.0, p.1)
        } else if b == 47 && i + 1 < s.len() && s[i + 1int] == 42 {
            proof {
                lemma_comment_close_after(s, i + 2, 1);
            }
            match comment_close(s, i + 2, 1) {
                Some(k) => {
                    let p = advance(line, col, s.subrange(i as int, k as int));
                    lex_from(s, k, p.0, p.1)
                },
                None => (Seq::empty(), seq![("unterminated block comment"@, line, col)]),
            }
        } else if is_alpha_char(b as char) {
            proof {
                lemma_word_end_bounds(s, i + 1);
            }
            let k = word_end(s, i + 1);
            let w = bytes_chars(s.subrange(i as int, k as int));
            let kind = match keyword_of(w) {
                Some(kw) => TokenKind::Keyword(kw),
                None => TokenKind::Identifier,
            };
            let rest = lex_from(s, k, line, (col + k - i) as nat);
            (seq![(kind, w, line, col)] + rest.0, rest.1)
        } else if crate::text::is_digit_char(b as char) {
            proof {
                lemma_digits_end_bounds(s, i + 1);
            }
            let k = digits_end(s, i + 1);
            let w = bytes_chars(s.subrange(i as int, k as int));
            let rest = lex_from(s, k, line, (col + k - i) as nat);
            (seq![(TokenKind::Number, w, line, col)] + rest.0, rest.1)
        } else {
            let next: u8 = if i + 1 < s.len() { s[i + 1int] } else { 0 };
            let pr = punct_spec(b, next);
            match pr.0 {
                Some(kind) => {
                    let rest = lex_from(s, i + pr.1, line, col + pr.1);
                    (seq![(kind, punct_text(kind), line, col)] + rest.0, rest.1)
                },
                None => {
                    let rest = lex_from(s, i + 1, line, col + 1);
                    (rest.0, seq![(unrecognized_message(b), line, col)] + rest.1)
                },
            }
        }
    }
}

proof fn lemma_tokens_text_push(ts: Seq<Token>, t: Token)
    ensures
        tokens_text(ts.push(t)) == tokens_text(ts).push(token_text(t)),
{
    assert(tokens_text(ts.push(t)) =~= tokens_text(ts).push(token_text(t)));
}

proof fn lemma_errors_text_push(es: Seq<LexError>, e: LexError)
    ensures
        lex_errors_text(es.push(e)) == lex_errors_text(es).push(lex_error_text(e)),
{
    assert(lex_errors_text(es.push(e)) =~= lex_errors_text(es).push(lex_error_text(e)));
}

proof fn lemma_shift<A>(a: Seq<A>, x: A, r: Seq<A>)
    ensures
        a + (seq![x] + r) == a.push(x) + r,
{
    assert(a + (seq![x] + r) =~= a.push(x) + r);
}

/// Reading one more byte of a stretch moves the position by that byte.
proof fn lemma_advance_step(s: Seq<u8>, a: int, j: int, line: nat, col: nat)
    requires
        0 <= a <= j < s.len(),
    ensures
        advance(line, col, s.subrange(a, j + 1)) == step_pos(
            advance(line, col, s.subrange(a, j)).0,
            advance(line, col, s.subrange(a, j)).1,
            s[j],
        ),
{
    assert(s.subrange(a, j + 1).drop_last() =~= s.subrange(a, j));
}

proof fn lemma_advance_none(s: Seq<u8>, a: int, line: nat, col: nat)
    requires
        0 <= a <= s.len(),
    ensures
        advance(line, col, s.subrange(a, a)) == (line, col),
{
}

proof fn lemma_bytes_chars_push(s: Seq<u8>, a: int, j: int)
    requires
        0 <= a <= j < s.len(),
    ensures
        bytes_chars(s.subrange(a, j + 1)) == bytes_chars(s.subrange(a, j)).push(s[j] as char),
{
    assert(bytes_chars(s.subrange(a, j + 1)) =~= bytes_chars(s.subrange(a, j)).push(s[j] as char));
}

/// Splits `source` into tokens, collecting lexical errors as it goes.
///
/// Every token's kind agrees with its text, every position is valid, and the
/// tokens stand in source order; an empty source gives no tokens and no
/// errors.
pub fn lex(source: &str) -> (r: LexResult)
    requires
        source.spec_bytes().len() < usize::MAX,
    ensures
        tokens_text(r.tokens@) == lex_from(source.spec_bytes(), 0, 1, 1).0,
        lex_errors_text(r.errors@) == lex_from(source.spec_bytes(), 0, 1, 1).1,
        forall|i: int| 0 <= i < r.tokens@.len() ==> token_valid(#[trigger] r.tokens@[i]),
        tokens_ordered(r.tokens@),
        forall|i: int| 0 <= i < r.errors@.len() ==> position_valid(#[trigger] r.errors@[i].position),
        source@.len() == 0 ==> r.tokens@.len() == 0 && r.errors@.len() == 0,
{
    let bytes = source.as_bytes();
    let n = bytes.len();
    let ghost s = bytes@;
    let mut tokens: Vec<Token> = Vec::new();
    let mut errors: Vec<LexError> = Vec::new();
    let mut i: usize = 0;
    let mut line: usize = 1;
    let mut col: usize = 1;
    proof {
        lemma_empty_source_bytes(source);
        assert(tokens_text(tokens@) + lex_from(s, 0, 1, 1).0 =~= lex_from(s, 0, 1, 1).0);
        assert(lex_errors_text(errors@) + lex_from(s, 0, 1, 1).1 =~= lex_from(s, 0, 1, 1).1);
    }
    while i < n
        invariant
            n == bytes@.len(),
            s == bytes@,
            n < usize::MAX,
            i <= n,
            1 <= line <= i + 1,
            1 <= col <= i + 1,
            forall|k: int| 0 <= k < tokens@.len() ==> token_valid(#[trigger] tokens@[k]),
            tokens_ordered(tokens@),
            forall|k: int| 0 <= k < tokens@.len() ==> position_before(#[trigger] tokens@[k].position, pos_at(line, col)),
            forall|k: int| 0 <= k < errors@.len() ==> position_valid(#[trigger] errors@[k].position),
            i == 0 ==> tokens@.len() == 0 && errors@.len() == 0,
            lex_from(s, 0, 1, 1).0 == tokens_text(tokens@) + lex_from(s, i as nat, line as nat, col as nat).0,
            lex_from(s, 0, 1, 1).1 == lex_errors_text(errors@) + lex_from(s, i as nat, line as nat, col as nat).1,
        decreases n - i,
    {
        let b = bytes[i];
        let start = Position { line, column: col };
        assert(start == pos_at(line, col));
        let ghost old_tokens = tokens@;
        let ghost old_errors = errors@;
        let ghost i_begin = i;
        let ghost l0 = line as nat;
        let ghost c0 = col as nat;
        let ghost here = lex_from(s, i as nat, l0, c0);
        if b == 32 || b == 9 || b == 10 || b == 13 || b == 12 {
            let (l, c) = step(b, line, col, Ghost(i as int), Ghost(n as int));
            line = l;
            col = c;
            i = i + 1;
        } else if b == 47 && i + 1 < n && bytes[i + 1] == 47 {
            // line comment: skip up to (not including) the newline
            let (l, c) = step(b, line, col, Ghost(i as int), Ghost(n as int));
            proof {
                lemma_advance_none(s, i_begin as int, l0, c0);
                lemma_advance_step(s, i_begin as int, i_begin as int, l0, c0);
            }
            let (l2, c2) = step(bytes[i + 1], l, c, Ghost(i + 1), Ghost(n as int));
            proof {
                lemma_advance_step(s, i_begin as int, i_begin + 1, l0, c0);
            }
            line = l2;
            col = c2;
            i = i + 2;
            while i < n && bytes[i] != 10
                invariant
                    n == bytes@.len(),
                    s == bytes@,
                    n < usize::MAX,
                    i <= n,
                    1 <= line <= i + 1,
                    1 <= col <= i + 1,
                    tokens@ == old_tokens,
                    i >= 2,
                    i > i_begin,
                    i_begin + 2 <= i,
                    position_before(start, pos_at(line, col)),
                    newline_from(s, i as nat) == newline_from(s, (i_begin + 2) as nat),
                    (line as nat, col as nat) == advance(l0, c0, s.subrange(i_begin as int, i as int)),
                decreases n - i,
            {
                proof {
                    lemma_advance_step(s, i_begin as int, i as int, l0, c0);
                }
                let (l, c) = step(bytes[i], line, col, Ghost(i as int), Ghost(n as int));
                line = l;
                col = c;
                i = i + 1;
            }
            proof {
                assert(newline_from(s, i as nat) == i);
            }
        } else if b == 47 && i + 1 < n && bytes[i + 1] == 42 {
            // block comment, possibly nested
            let (l, c) = step(b, line, col, Ghost(i as int), Ghost(n as int));
            proof {
                lemma_advance_none(s, i_begin as int, l0, c0);
                lemma_advance_step(s, i_begin as int, i_begin as int, l0, c0);
            }
            let (l2, c2) = step(bytes[i + 1], l, c, Ghost(i + 1), Ghost(n as int));
            proof {
                lemma_advance_step(s, i_begin as int, i_begin + 1, l0, c0);
            }
            line = l2;
            col = c2;
            i = i + 2;
            let mut depth: usize = 1;
            let mut closed = false;
            let ghost cc0 = comment_close(s, (i_begin + 2) as nat, 1);
            while i < n
                invariant_except_break
                    !closed,
                invariant
                    n == bytes@.len(),
                    s == bytes@,
                    n < usize::MAX,
                    i <= n,
                    1 <= depth <= i,
                    cc0 == comment_close(s, (i_begin + 2) as nat, 1),
                    i >= 2,
                    i > i_begin,
                    i_begin + 2 <= i,
                    position_before(start, pos_at(line, col)),
                    1 <= line <= i + 1,
                    1 <= col <= i + 1,
                    tokens@ == old_tokens,
                    errors@ == old_errors,
                    position_before(start, pos_at(line, col)) || start == pos_at(line, col),
                    !closed ==> comment_close(s, i as nat, depth as nat) == comment_close(s, (i_begin + 2) as nat, 1),
                    closed ==> comment_close(s, (i_begin + 2) as nat, 1) == Some(i as nat),
                    (line as nat, col as nat) == advance(l0, c0, s.subrange(i_begin as int, i as int)),
                ensures
                    closed ==> cc0 == Some(i as nat),
                    !closed ==> i >= n && comment_close(s, i as nat, depth as nat) == cc0,
                decreases n - i,
            {
                let ghost ii = i as nat;
                let ghost dd = depth as nat;
                if bytes[i] == 47 && i + 1 < n && bytes[i + 1] == 42 {
                    proof {
                        assert(comment_close(s, ii, dd) == comment_close(s, ii + 2, dd + 1));
                    }
                    depth = depth + 1;
                    proof {
                        lemma_advance_step(s, i_begin as int, i as int, l0, c0);
                        lemma_advance_step(s, i_begin as int, i + 1, l0, c0);
                    }
                    let (l, c) = step(bytes[i], line, col, Ghost(i as int), Ghost(n as int));
                    let (l2, c2) = step(bytes[i + 1], l, c, Ghost(i + 1), Ghost(n as int));
                    line = l2;
                    col = c2;
                    i = i + 2;
                } else if bytes[i] == 42 && i + 1 < n && bytes[i + 1] == 47 {
                    proof {
                        lemma_advance_step(s, i_begin as int, i as int, l0, c0);
                        lemma_advance_step(s, i_begin as int, i + 1, l0, c0);
                    }
                    let (l, c) = step(bytes[i], line, col, Ghost(i as int), Ghost(n as int));
                    let (l2, c2) = step(bytes[i + 1], l, c, Ghost(i + 1), Ghost(n as int));
                    line = l2;
                    col = c2;
                    i = i + 2;
                    if depth <= 1 {
                        proof {
                            assert(comment_close(s, ii, dd) == Some(ii + 2));
                        }
                        closed = true;
                        break;
                    }
                    proof {
                        assert(comment_close(s, ii, dd) == comment_close(s, ii + 2, (dd - 1) as nat));
                    }
                    depth = depth - 1;
                } else {
                    proof {
                        assert(comment_close(s, ii, dd) == comment_close(s, ii + 1, dd));
                        lemma_advance_step(s, i_begin as int, i as int, l0, c0);
                    }
                    let (l, c) = step(bytes[i], line, col, Ghost(i as int), Ghost(n as int));
                    line = l;
                    col = c;
                    i = i + 1;
                }
            }
            if !closed {
                proof {
                    assert(comment_close(s, i as nat, depth as nat) is None);
                }
                let m = String::from_str("unterminated block comment");
                let e = LexError { message: m, position: start };
                proof {
                    lemma_errors_text_push(errors@, e);
                    assert(here == (Seq::<TokenText>::empty(), seq![("unterminated block comment"@, l0, c0)]));
                    assert(lex_errors_text(errors@) + here.1 =~= lex_errors_text(errors@.push(e)));
                    assert(tokens_text(tokens@) + here.0 =~= tokens_text(tokens@));
                }
                errors.push(e);
                proof {
                    assert(lex_from(s, i as nat, line as nat, col as nat) == (Seq::<TokenText>::empty(), Seq::<LexErrorText>::empty()));
                    assert(tokens_text(tokens@) + lex_from(s, i as nat, line as nat, col as nat).0 =~= tokens_text(tokens@));
                    assert(lex_errors_text(errors@) + lex_from(s, i as nat, line as nat, col as nat).1 =~= lex_errors_text(errors@));
                }
            }
        } else if is_alpha_byte(b) {
            let mut w = String::new();
            let i0 = i;
            proof {
                assert(w@ =~= bytes_chars(s.subrange(i0 as int, i as int)));
            }
            while i < n && (is_alpha_byte(bytes[i]) || is_digit_byte(bytes[i]))
                invariant
                    n == bytes@.len(),
                    s == bytes@,
                    n < usize::MAX,
                    i <= n,
                    1 <= line <= i + 1,
                    1 <= col <= i + 1,
                    tokens@ == old_tokens,
                    position_before(start, pos_at(line, col)) || start == pos_at(line, col),
                    i == i0 + w@.len(),
                    i0 < n,
                    i0 == i_begin,
                    bytes@[i0 as int] == b,
                    is_alpha_char(b as char),
                    w@.len() == 0 ==> start == pos_at(line, col),
                    w@.len() > 0 ==> position_before(start, pos_at(line, col)),
                    w@.len() > 0 ==> w@[0] == b as char,
                    forall|k: int| 0 <= k < w@.len() ==> is_alnum_char(#[trigger] w@[k]),
                    word_end(s, i as nat) == word_end(s, (i0 + 1) as nat),
                    w@ == bytes_chars(s.subrange(i0 as int, i as int)),
                    line as nat == l0,
                    col as nat == c0 + (i - i0),
                decreases n - i,
            {
                let c = bytes[i];
                proof {
                    lemma_bytes_chars_push(s, i0 as int, i as int);
                }
                push_char(&mut w, c as char);
                let (l, cc) = step(c, line, col, Ghost(i as int), Ghost(n as int));
                line = l;
                col = cc;
                i = i + 1;
            }
            let kind = match keyword_from_word(w.as_str()) {
                Some(k) => TokenKind::Keyword(k),
                None => TokenKind::Identifier,
            };
            let t = Token { kind, lexeme: w, position: start };
            proof {
                assert(word_end(s, i as nat) == i);
                lemma_tokens_text_push(tokens@, t);
                lemma_shift(tokens_text(tokens@), token_text(t), lex_from(s, i as nat, line as nat, col as nat).0);
            }
            tokens.push(t);
        } else if is_digit_byte(b) {
            let mut w = String::new();
            let i0 = i;
            proof {
                assert(w@ =~= bytes_chars(s.subrange(i0 as int, i as int)));
            }
            while i < n && is_digit_byte(bytes[i])
                invariant
                    n == bytes@.len(),
                    s == bytes@,
                    n < usize::MAX,
                    i <= n,
                    1 <= line <= i + 1,
                    1 <= col <= i + 1,
                    tokens@ == old_tokens,
                    position_before(start, pos_at(line, col)) || start == pos_at(line, col),
                    i == i0 + w@.len(),
                    i0 < n,
                    i0 == i_begin,
                    bytes@[i0 as int] == b,
                    crate::text::is_digit_char(b as char),
                    w@.len() == 0 ==> start == pos_at(line, col),
                    w@.len() > 0 ==> position_before(start, pos_at(line, col)),
                    forall|k: int| 0 <= k < w@.len() ==> crate::text::is_digit_char(#[trigger] w@[k]),
                    digits_end(s, i as nat) == digits_end(s, (i0 + 1) as nat),
                    w@ == bytes_chars(s.subrange(i0 as int, i as int)),
                    line as nat == l0,
                    col as nat == c0 + (i - i0),
                decreases n - i,
            {
                let c = bytes[i];
                proof {
                    lemma_bytes_chars_push(s, i0 as int, i as int);
                }
                push_char(&mut w, c as char);
                let (l, cc) = step(c, line, col, Ghost(i as int), Ghost(n as int));
                line = l;
                col = cc;
                i = i + 1;
            }
            let t = Token { kind: TokenKind::Number, lexeme: w, position: start };
            proof {
                assert(digits_end(s, i as nat) == i);
                lemma_tokens_text_push(tokens@, t);
                lemma_shift(tokens_text(tokens@), token_text(t), lex_from(s, i as nat, line as nat, col as nat).0);
            }
            tokens.push(t);
        } else {
            let next: u8 = if i + 1 < n { bytes[i + 1] } else { 0 };
            let (kind, len): (Option<TokenKind>, usize) = punct_at(b, next);
            match kind {
                Some(k) => {
                    let lexeme = punct_lexeme(k);
                    let (l, c) = step(b, line, col, Ghost(i as int), Ghost(n as int));
                    line = l;
                    col = c;
                    i = i + 1;
                    if len == 2 && i < n {
                        let (l2, c2) = step(bytes[i], line, col, Ghost(i as int), Ghost(n as int));
                        line = l2;
                        col = c2;
                        i = i + 1;
                    }
                    let t = Token { kind: k, lexeme, position: start };
                    proof {
                        lemma_tokens_text_push(tokens@, t);
                        lemma_shift(tokens_text(tokens@), token_text(t), lex_from(s, i as nat, line as nat, col as nat).0);
                    }
                    tokens.push(t);
                }
                None => {
                    let mut m = String::from_str("unrecognized character `");
                    push_char(&mut m, b as char);
                    m.append("`");
                    let e = LexError { message: m, position: start };
                    let (l, c) = step(b, line, col, Ghost(i as int), Ghost(n as int));
                    line = l;
                    col = c;
                    i = i + 1;
                    proof {
                        lemma_errors_text_push(errors@, e);
                        lemma_shift(lex_errors_text(errors@), lex_error_text(e), lex_from(s, i as nat, line as nat, col as nat).1);
                    }
                    errors.push(e);
                }
            }
        }
    }
    proof {
        assert(tokens_text(tokens@) + lex_from(s, i as nat, line as nat, col as nat).0 =~= tokens_text(tokens@));
        assert(lex_errors_text(errors@) + lex_from(s, i as nat, line as nat, col as nat).1 =~= lex_errors_text(errors@));
    }
    LexResult { tokens, errors }
}

proof fn lemma_empty_source_bytes(source: &str)
    ensures
        source@.len() == 0 ==> source.spec_bytes().len() == 0,
{
}

/// The operator or delimiter starting with byte `b` (followed by `next`), and
/// how many bytes it takes.
fn punct_at(b: u8, next: u8) -> (r: (Option<TokenKind>, usize))
    ensures
        r.0 is Some ==> is_punct(r.0->0) && (r.1 == 1 || r.1 == 2),
        r.0 == punct_spec(b, next).0 && r.1 as nat == punct_spec(b, next).1,
{
    if b == 61 {
        if next == 61 { (Some(TokenKind::EqualEqual), 2) } else { (Some(TokenKind::Assign), 1) }
    } else if b == 62 {
        if next == 61 { (Some(TokenKind::GreaterEqual), 2) } else { (Some(TokenKind::Greater), 1) }
    } else if b == 60 {
        if next == 61 { (Some(TokenKind::LessEqual), 2) } else { (Some(TokenKind::Less), 1) }
    } else if b == 33 {
        if next == 61 { (Some(TokenKind::NotEqual), 2) } else { (None, 1) }
    } else if b == 45 {
        if next == 62 { (Some(TokenKind::Arrow), 2) } else { (Some(TokenKind::Minus), 1) }
    } else if b == 46 {
        if next == 46 { (Some(TokenKind::DotDot), 2) } else { (Some(TokenKind::Dot), 1) }
    } else if b == 43 { (Some(TokenKind::Plus), 1) }
    else if b == 42 { (Some(TokenKind::Star), 1) }
    else if b == 47 { (Some(TokenKind::Slash), 1) }
    else if b == 38 { (Some(TokenKind::Ampersand), 1) }
    else if b == 40 { (Some(TokenKind::LParen), 1) }
    else if b == 41 { (Some(TokenKind::RParen), 1) }
    else if b == 123 { (Some(TokenKind::LBrace), 1) }
    else if b == 125 { (Some(TokenKind::RBrace), 1) }
    else if b == 91 { (Some(TokenKind::LBracket), 1) }
    else if b == 93 { (Some(TokenKind::RBracket), 1) }
    else if b == 59 { (Some(TokenKind::Semicolon), 1) }
    else if b == 58 { (Some(TokenKind::Colon), 1) }
    else if b == 44 { (Some(TokenKind::Comma), 1) }
    else if b == 35 { (Some(TokenKind::EndMarker), 1) }
    else { (None, 1) }
}

/// The fixed text of an operator or delimiter kind.
fn punct_lexeme(k: TokenKind) -> (s: String)
    requires
        is_punct(k),
    ensures
        s@ == punct_text(k),
{
    let t: &str = match k {
        TokenKind::Assign => "=",
        TokenKind::Plus => "+",
        TokenKind::Minus => "-",
        TokenKind::Star => "*",
        TokenKind::Slash => "/",
        TokenKind::EqualEqual => "==",
        TokenKind::Greater => ">",
        TokenKind::GreaterEqual => ">=",
        TokenKind::Less => "<",
        TokenKind::LessEqual => "<=",
        TokenKind::NotEqual => "!=",
        TokenKind::Ampersand => "&",
        TokenKind::LParen => "(",
        TokenKind::RParen => ")",
        TokenKind::LBrace => "{",
        TokenKind::RBrace => "}",
        TokenKind::LBracket => "[",
        TokenKind::RBracket => "]",
        TokenKind::Semicolon => ";",
        TokenKind::Colon => ":",
        TokenKind::Comma => ",",
        TokenKind::Arrow => "->",
        TokenKind::Dot => ".",
        TokenKind::DotDot => "..",
        TokenKind::EndMarker => "#",
        TokenKind::Keyword(_) | TokenKind::Identifier | TokenKind::Number => "#",
    };
    String::from_str(t)
}

} // verus!
