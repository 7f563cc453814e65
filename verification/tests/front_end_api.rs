//! Scenarios for the lexer, the parser's entry points, the type system, the
//! symbol table, the quadruple builder and the text helpers.
use easy_analyzer::ir::IrBuilder;
use easy_analyzer::lexer::classify_token;
use easy_analyzer::symbol::{FunctionSig, SymbolTable, VarSymbol};
use easy_analyzer::text::{cat, join_strings, parse_bounded, usize_to_string};
use easy_analyzer::types::{from_node, Type};
use easy_analyzer::{lex, parse_program_ast, parse_tokens, BinaryOp, Expr, Keyword, Quadruple, Statement, TokenKind, TypeNode, UnaryOp};

fn kinds(src: &str) -> Vec<TokenKind> {
    lex(src).tokens.iter().map(|t| t.kind).collect()
}

#[test]
fn lex_let_statement_kinds_lexemes_positions() {
    let r = lex("let x = 1;");
    assert!(r.errors.is_empty());
    let got: Vec<(TokenKind, String, usize, usize)> = r
        .tokens
        .iter()
        .map(|t| (t.kind, t.lexeme.clone(), t.position.line, t.position.column))
        .collect();
    assert_eq!(
        got,
        vec![
            (TokenKind::Keyword(Keyword::Let), "let".to_string(), 1, 1),
            (TokenKind::Identifier, "x".to_string(), 1, 5),
            (TokenKind::Assign, "=".to_string(), 1, 7),
            (TokenKind::Number, "1".to_string(), 1, 9),
            (TokenKind::Semicolon, ";".to_string(), 1, 10),
        ]
    );
}

#[test]
fn lex_two_character_operators_take_both_characters() {
    assert_eq!(
        kinds("== != <= >= -> .. = < > - ."),
        vec![
            TokenKind::EqualEqual,
            TokenKind::NotEqual,
            TokenKind::LessEqual,
            TokenKind::GreaterEqual,
            TokenKind::Arrow,
            TokenKind::DotDot,
            TokenKind::Assign,
            TokenKind::Less,
            TokenKind::Greater,
            TokenKind::Minus,
            TokenKind::Dot,
        ]
    );
}

#[test]
fn lex_keywords_and_identifiers_are_told_apart() {
    assert_eq!(
        kinds("fn fnx i32 i64 continue _a1 loop"),
        vec![
            TokenKind::Keyword(Keyword::Fn),
            TokenKind::Identifier,
            TokenKind::Keyword(Keyword::I32),
            TokenKind::Identifier,
            TokenKind::Keyword(Keyword::Continue),
            TokenKind::Identifier,
            TokenKind::Keyword(Keyword::Loop),
        ]
    );
}

#[test]
fn lex_comments_are_skipped_and_lines_counted() {
    let r = lex("a // note\n/* x /* nested */ y */ b");
    assert!(r.errors.is_empty());
    let got: Vec<(String, usize, usize)> = r
        .tokens
        .iter()
        .map(|t| (t.lexeme.clone(), t.position.line, t.position.column))
        .collect();
    assert_eq!(got, vec![("a".to_string(), 1, 1), ("b".to_string(), 2, 24)]);
}

#[test]
fn lex_unterminated_block_comment_is_reported_where_it_starts() {
    let r = lex("x\n  /* open");
    assert_eq!(r.tokens.len(), 1);
    assert_eq!(r.errors.len(), 1);
    assert_eq!(r.errors[0].message, "unterminated block comment");
    assert_eq!((r.errors[0].position.line, r.errors[0].position.column), (2, 3));
}

#[test]
fn lex_unrecognized_character_is_reported_and_skipped() {
    let r = lex("a @ b");
    assert_eq!(r.errors.len(), 1);
    assert_eq!(r.errors[0].message, "unrecognized character `@`");
    assert_eq!((r.errors[0].position.line, r.errors[0].position.column), (1, 3));
    assert_eq!(r.tokens.len(), 2);
    assert_eq!(r.tokens[1].lexeme, "b");
}

#[test]
fn lex_lone_exclamation_mark_is_an_error() {
    let r = lex("!");
    assert!(r.tokens.is_empty());
    assert_eq!(r.errors[0].message, "unrecognized character `!`");
}

#[test]
fn lex_empty_source_gives_nothing() {
    let r = lex("");
    assert!(r.tokens.is_empty());
    assert!(r.errors.is_empty());
}

#[test]
fn keyword_text_reads_back_as_the_keyword() {
    for k in [
        Keyword::I32,
        Keyword::Let,
        Keyword::If,
        Keyword::Else,
        Keyword::While,
        Keyword::Return,
        Keyword::Mut,
        Keyword::Fn,
        Keyword::For,
        Keyword::In,
        Keyword::Loop,
        Keyword::Break,
        Keyword::Continue,
    ] {
        assert_eq!(easy_analyzer::lexer::keyword_from_word(k.as_str()), Some(k));
    }
    assert_eq!(easy_analyzer::lexer::keyword_from_word("Fn"), None);
}

#[test]
fn token_kind_names() {
    assert_eq!(TokenKind::Keyword(Keyword::While).to_display_string(), "Keyword(while)");
    assert_eq!(TokenKind::DotDot.to_display_string(), "DotDot");
    assert_eq!(TokenKind::EndMarker.to_display_string(), "EndMarker");
}

#[test]
fn token_categories() {
    assert_eq!(classify_token(&TokenKind::Keyword(Keyword::Mut)), "关键字");
    assert_eq!(classify_token(&TokenKind::Identifier), "标识符");
    assert_eq!(classify_token(&TokenKind::Number), "数字");
    assert_eq!(classify_token(&TokenKind::Ampersand), "算符");
    assert_eq!(classify_token(&TokenKind::NotEqual), "算符");
    assert_eq!(classify_token(&TokenKind::Comma), "分隔符");
    assert_eq!(classify_token(&TokenKind::RBracket), "界符");
    assert_eq!(classify_token(&TokenKind::DotDot), "特殊符号");
    assert_eq!(classify_token(&TokenKind::EndMarker), "结束符");
}

#[test]
fn parse_of_no_tokens_is_the_empty_program() {
    let p = parse_program_ast(&[]).expect("empty input parses");
    assert!(p.functions.is_empty());
    assert!(parse_tokens(&[]).is_ok());
}

#[test]
fn parse_refuses_a_program_not_starting_with_fn() {
    let toks = lex("let x = 1;").tokens;
    let e = parse_program_ast(&toks).unwrap_err();
    assert_eq!((e.position.line, e.position.column), (1, 1));
    assert!(e.to_display_string().starts_with("syntax error at 1:1: "));
    assert_eq!(parse_tokens(&toks).unwrap_err(), e);
}

#[test]
fn parse_error_display_format() {
    let toks = lex("fn main( {").tokens;
    let e = parse_tokens(&toks).unwrap_err();
    let shown = e.to_display_string();
    assert_eq!(
        shown,
        format!("syntax error at {}:{}: {}", e.position.line, e.position.column, e.message)
    );
}

#[test]
fn parse_accepts_a_small_program() {
    let toks = lex("fn add(a:i32, b:i32) -> i32 { a + b } fn main() { let x:i32 = add(1, 2); }").tokens;
    let p = parse_program_ast(&toks).expect("valid program");
    assert_eq!(p.functions.len(), 2);
    assert_eq!(p.functions[0].name, "add");
    assert_eq!(p.functions[0].params.len(), 2);
    assert!(parse_tokens(&toks).is_ok());
}

#[test]
fn type_compatibility_examples() {
    let arr = |n: usize| Type::Array { element: Box::new(Type::I32), length: n };
    assert!(Type::I32.compatible(&Type::I32));
    assert!(!Type::I32.compatible(&Type::Bool));
    assert!(Type::Error.compatible(&arr(3)));
    assert!(arr(3).compatible(&Type::Error));
    assert!(arr(3).compatible(&arr(3)));
    assert!(!arr(3).compatible(&arr(2)));
    let r = Type::Ref { mutable: true, inner: Box::new(Type::I32) };
    let s = Type::Ref { mutable: false, inner: Box::new(Type::I32) };
    assert!(!r.compatible(&s));
}

#[test]
fn type_display_examples() {
    let arr = Type::Array { element: Box::new(Type::I32), length: 3 };
    assert_eq!(arr.display(), "[i32; 3]");
    assert_eq!(Type::Ref { mutable: true, inner: Box::new(Type::I32) }.display(), "&mut i32");
    assert_eq!(Type::Ref { mutable: false, inner: Box::new(Type::Bool) }.display(), "&bool");
    assert_eq!(Type::Tuple { elements: vec![Type::I32] }.display(), "(i32,)");
    assert_eq!(Type::Tuple { elements: vec![Type::I32, Type::Unit] }.display(), "(i32, ())");
    assert_eq!(Type::Range.display(), "Range<i32>");
    assert_eq!(Type::Function.display(), "函数");
}

#[test]
fn type_predicates() {
    assert!(Type::I32.is_integer());
    assert!(!Type::Bool.is_integer());
    assert!(Type::Ref { mutable: false, inner: Box::new(Type::I32) }.is_reference());
    assert!(!Type::Unknown.is_known());
    assert!(!Type::Error.is_known());
    assert!(Type::Unit.is_known());
}

#[test]
fn types_from_annotations() {
    let node = TypeNode::Array {
        element: Box::new(TypeNode::Named { name: "i32".to_string() }),
        length: 2,
    };
    assert_eq!(from_node(&node), Type::Array { element: Box::new(Type::I32), length: 2 });
    assert_eq!(from_node(&TypeNode::Named { name: "u8".to_string() }), Type::Error);
    assert_eq!(from_node(&TypeNode::Unit), Type::Unit);
}

#[test]
fn symbol_table_declare_then_lookup() {
    let mut t = SymbolTable::new();
    assert!(t.lookup("a").is_none());
    t.declare(VarSymbol::new("a".to_string(), Type::I32, false, true));
    let s = t.lookup("a").expect("declared");
    assert_eq!(s.ty, Type::I32);
    assert!(!s.mutable);
    assert!(t.lookup("b").is_none());
}

#[test]
fn symbol_table_inner_scope_shadows_until_popped() {
    let mut t = SymbolTable::new();
    t.declare(VarSymbol::new("a".to_string(), Type::I32, false, true));
    t.push_scope();
    t.declare(VarSymbol::new("a".to_string(), Type::Bool, true, false));
    assert_eq!(t.lookup("a").unwrap().ty, Type::Bool);
    t.pop_scope();
    let s = t.lookup("a").unwrap();
    assert_eq!(s.ty, Type::I32);
    assert!(s.initialized);
}

#[test]
fn symbol_table_redeclaration_in_one_scope_replaces() {
    let mut t = SymbolTable::new();
    t.declare(VarSymbol::new("a".to_string(), Type::I32, false, true));
    t.declare(VarSymbol::new("a".to_string(), Type::Unit, true, true));
    assert_eq!(t.lookup("a").unwrap().ty, Type::Unit);
}

#[test]
fn symbol_table_outermost_scope_is_never_popped() {
    let mut t = SymbolTable::new();
    t.declare(VarSymbol::new("g".to_string(), Type::I32, false, true));
    t.pop_scope();
    assert!(t.lookup("g").is_some());
}

#[test]
fn symbol_table_write_through_lookup_mut() {
    let mut t = SymbolTable::new();
    t.declare(VarSymbol::new("a".to_string(), Type::Unknown, false, false));
    t.push_scope();
    match t.lookup_mut("a") {
        Some(s) => {
            s.ty = Type::I32;
            s.initialized = true;
        }
        None => panic!("a is declared"),
    }
    t.pop_scope();
    let s = t.lookup("a").unwrap();
    assert_eq!(s.ty, Type::I32);
    assert!(s.initialized);
    assert!(t.lookup_mut("nothing").is_none());
}

#[test]
fn symbol_table_assign_binding_updates_the_visible_binding() {
    let mut t = SymbolTable::new();
    t.declare(VarSymbol::new("a".to_string(), Type::Unknown, true, false));
    t.push_scope();
    t.declare(VarSymbol::new("a".to_string(), Type::Unknown, false, false));
    t.assign_binding("a", Type::Bool);
    assert_eq!(t.lookup("a").unwrap().ty, Type::Bool);
    assert!(t.lookup("a").unwrap().initialized);
    t.pop_scope();
    assert_eq!(t.lookup("a").unwrap().ty, Type::Unknown);
}

#[test]
fn symbol_table_functions() {
    let mut t = SymbolTable::new();
    assert!(t.lookup_function("f").is_none());
    t.declare_function(FunctionSig {
        name: "f".to_string(),
        params: vec![("x".to_string(), Type::I32, false)],
        return_type: Type::I32,
    });
    let f = t.lookup_function("f").unwrap();
    assert_eq!(f.params.len(), 1);
    assert_eq!(f.return_type, Type::I32);
    assert!(t.lookup("f").is_none());
}

#[test]
fn symbol_table_uninferred_names_of_innermost_scope() {
    let mut t = SymbolTable::new();
    t.declare(VarSymbol::new("outer".to_string(), Type::Unknown, false, false));
    t.push_scope();
    t.declare(VarSymbol::new("x".to_string(), Type::Unknown, false, false));
    t.declare(VarSymbol::new("y".to_string(), Type::I32, false, true));
    t.declare(VarSymbol::new("x".to_string(), Type::Unknown, true, false));
    t.declare(VarSymbol::new("z".to_string(), Type::Unknown, false, false));
    let mut names = t.current_scope_uninferred_names();
    names.sort();
    assert_eq!(names, vec!["x".to_string(), "z".to_string()]);
}

#[test]
fn ir_builder_numbers_temporaries_and_labels_from_one() {
    let mut b = IrBuilder::new();
    assert_eq!(b.new_temp(), "t1");
    assert_eq!(b.new_temp(), "t2");
    assert_eq!(b.new_label(), "L1");
    assert_eq!(b.new_temp(), "t3");
    assert_eq!(b.new_label(), "L2");
}

#[test]
fn ir_builder_emits_in_order() {
    let mut b = IrBuilder::new();
    b.emit("+", "a", "b", "t1");
    b.emit_label("L1");
    b.emit_goto("L1");
    b.emit_if_false("t1", "L2");
    let q: Vec<(String, String, String, String)> = b
        .into_quads()
        .into_iter()
        .map(|q| (q.op, q.arg1, q.arg2, q.result))
        .collect();
    let s = |a: &str, b: &str, c: &str, d: &str| (a.to_string(), b.to_string(), c.to_string(), d.to_string());
    assert_eq!(
        q,
        vec![
            s("+", "a", "b", "t1"),
            s("LABEL", "L1", "_", "_"),
            s("GOTO", "_", "_", "L1"),
            s("IF_FALSE", "t1", "_", "L2"),
        ]
    );
}

#[test]
fn quadruple_new_keeps_its_operands() {
    let q = Quadruple::new("CALL", "f", "2", "t9");
    assert_eq!((q.op.as_str(), q.arg1.as_str(), q.arg2.as_str(), q.result.as_str()), ("CALL", "f", "2", "t9"));
}

#[test]
fn decimal_text_and_parsing() {
    assert_eq!(usize_to_string(0), "0");
    assert_eq!(usize_to_string(42), "42");
    assert_eq!(usize_to_string(1000), "1000");
    assert_eq!(parse_bounded("42", 100), Some(42));
    assert_eq!(parse_bounded("+7", 100), Some(7));
    assert_eq!(parse_bounded("007", 100), Some(7));
    assert_eq!(parse_bounded("101", 100), None);
    assert_eq!(parse_bounded("", 100), None);
    assert_eq!(parse_bounded("+", 100), None);
    assert_eq!(parse_bounded("-1", 100), None);
    assert_eq!(parse_bounded("1a", 100), None);
    for n in [0usize, 9, 10, 12345] {
        assert_eq!(parse_bounded(&usize_to_string(n), u128::MAX), Some(n as u128));
    }
}

#[test]
fn concatenation_helpers() {
    assert_eq!(cat(&["a", "", "bc"]), "abc");
    assert_eq!(cat(&[]), "");
    assert_eq!(join_strings(&vec!["1".to_string(), "2".to_string(), "3".to_string()], ","), "1,2,3");
    assert_eq!(join_strings(&vec![], ","), "");
}

fn let_init(src: &str) -> Expr {
    let p = parse_program_ast(&lex(src).tokens).unwrap();
    match p.functions.into_iter().next().unwrap().body.statements.into_iter().next().unwrap() {
        Statement::Let { init: Some(e), .. } => *e,
        _ => panic!("expected a let with an initializer"),
    }
}

fn num(e: &Expr) -> &str {
    match e {
        Expr::Number { value } => value.as_str(),
        _ => panic!("expected a number, got {:?}", e),
    }
}

#[test]
fn subtraction_associates_to_the_left_and_products_bind_tighter() {
    // 1 - 2 - 3 * 4 reads as (1 - 2) - (3 * 4)
    match let_init("fn main(){ let x = 1 - 2 - 3 * 4; }") {
        Expr::Binary { left, op: BinaryOp::Sub, right } => {
            match *left {
                Expr::Binary { left: a, op: BinaryOp::Sub, right: b } => {
                    assert_eq!(num(&a), "1");
                    assert_eq!(num(&b), "2");
                },
                other => panic!("left: {:?}", other),
            }
            match *right {
                Expr::Binary { left: a, op: BinaryOp::Mul, right: b } => {
                    assert_eq!(num(&a), "3");
                    assert_eq!(num(&b), "4");
                },
                other => panic!("right: {:?}", other),
            }
        },
        other => panic!("{:?}", other),
    }
}

#[test]
fn comparison_binds_loosest_and_negation_tightest() {
    // -1 + 2 < 3 reads as ((-1) + 2) < 3
    match let_init("fn main(){ let x = -1 + 2 < 3; }") {
        Expr::Binary { left, op: BinaryOp::Lt, right } => {
            assert_eq!(num(&right), "3");
            match *left {
                Expr::Binary { left: a, op: BinaryOp::Add, right: b } => {
                    assert!(matches!(*a, Expr::Unary { op: UnaryOp::Neg, .. }));
                    assert_eq!(num(&b), "2");
                },
                other => panic!("left: {:?}", other),
            }
        },
        other => panic!("{:?}", other),
    }
}

#[test]
fn parentheses_regroup() {
    // (1 + 2) * 3
    match let_init("fn main(){ let x = (1 + 2) * 3; }") {
        Expr::Binary { left, op: BinaryOp::Mul, right } => {
            assert_eq!(num(&right), "3");
            assert!(matches!(*left, Expr::Binary { op: BinaryOp::Add, .. }));
        },
        other => panic!("{:?}", other),
    }
}

#[test]
fn functions_without_parameters_or_body_parse() {
    let l = lex("fn a() {} fn b() {} #");
    let p = parse_program_ast(&l.tokens).expect("parses");
    assert_eq!(p.functions.len(), 2);
    assert!(parse_tokens(&lex("fn a() {}").tokens).is_ok());
    let e = parse_program_ast(&lex("fn a() {} # fn").tokens).unwrap_err();
    assert!(e.message.starts_with("unexpected tokens after `#`"), "{}", e.message);
}

#[test]
fn every_type_form_parses_in_a_parameter() {
    let l = lex("fn f(a: (i32, [i32; 2], &mut i32), b: (i32,), c: (), d: &(i32, i32,)) {}");
    let p = parse_program_ast(&l.tokens).expect("parses");
    assert_eq!(p.functions[0].params.len(), 4);
}
