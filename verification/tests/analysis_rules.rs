//! Scenarios for semantic analysis: one program per rule or error, exact
//! quadruples for the loop and store shapes, and the program-level laws on
//! concrete programs.
use easy_analyzer::semantic::Analyzer;
use easy_analyzer::{
    analyze, lex, parse_program_ast, AnalysisResult, Binding, Block, Expr, FunctionDecl, Program, SemanticError, Statement,
    TypeNode,
};

fn run(src: &str) -> AnalysisResult {
    let l = lex(src);
    assert!(l.errors.is_empty(), "lexer errors: {:?}", l.errors);
    let p = parse_program_ast(&l.tokens).expect("parse failed");
    analyze(&p)
}

fn messages(r: &AnalysisResult) -> Vec<String> {
    r.semantic_errors.iter().map(|e| e.message.clone()).collect()
}

fn has_error(src: &str, parts: &[&str]) -> bool {
    let r = run(src);
    messages(&r).iter().any(|m| parts.iter().all(|p| m.contains(p)))
}

fn quads(r: &AnalysisResult) -> Vec<String> {
    r.quadruples
        .iter()
        .map(|q| format!("{} {} {} {}", q.op, q.arg1, q.arg2, q.result))
        .collect()
}

#[test]
fn integer_literal_range_is_checked() {
    assert!(has_error("fn main(){ let a:i32 = 2147483648; }", &["2147483648", "超出 i32 范围"]));
    assert!(run("fn main(){ let a:i32 = 2147483647; }").semantic_errors.is_empty());
    assert!(run("fn main(){ let a:i32 = -2147483648; }").semantic_errors.is_empty());
}

#[test]
fn calling_a_variable_is_reported_as_not_a_function() {
    assert!(has_error("fn main(){ let v:i32 = 1; let w:i32 = v(); }", &["变量 `v` 不是函数"]));
    assert!(has_error("fn main(){ nope(); }", &["调用未声明的函数 `nope`"]));
}

#[test]
fn function_name_as_operand_asks_for_a_call() {
    assert!(has_error("fn g()->i32{1} fn main(){ let b = g < 1; }", &["运算 `<`", "函数名 `g`", "`()` 调用"]));
}

#[test]
fn empty_array_without_annotation_cannot_be_inferred() {
    assert!(has_error("fn main(){ let a = []; }", &["变量 `a` 无法推断类型"]));
    assert!(run("fn main(){ let a:[i32;0] = []; }").semantic_errors.is_empty());
}

#[test]
fn array_length_mismatch_names_both_types() {
    assert!(has_error(
        "fn main(){ let a:[i32;2] = []; }",
        &["[i32; 2]", "[i32; 0]", "数组长度不匹配"]
    ));
}

#[test]
fn for_binding_annotation_must_match_the_element_type() {
    assert!(has_error("fn main(){ for i:[i32;3] in 0..3 { } }", &["for 循环变量 `i`", "[i32; 3]", "不一致"]));
    assert!(run("fn main(){ let a:[i32;2] = [1,2]; for x:i32 in a { } }").semantic_errors.is_empty());
}

#[test]
fn break_with_value_only_in_loop_expressions() {
    assert!(has_error("fn main(){ while 1 < 2 { break 3; } }", &["`break <expr>` 仅在 `loop` 表达式中允许"]));
    assert!(has_error(
        "fn main(){ let x = loop { for i in 0..3 { break 42; } break 7; }; }",
        &["仅在 `loop` 表达式中允许"]
    ));
    assert!(run("fn main(){ let x:i32 = loop { break 7; }; }").semantic_errors.is_empty());
}

#[test]
fn bare_and_valued_breaks_of_one_loop_must_agree() {
    assert!(has_error(
        "fn main(){ let x = loop { if 1 == 1 { break; } break 1; }; }",
        &["loop 表达式多个 break 类型不一致：() vs i32"]
    ));
    assert!(has_error("fn main(){ let x:i32 = loop { break; }; }", &["不匹配"]));
}

#[test]
fn unit_function_may_return_unit() {
    assert!(run("fn main(){ return (); }").semantic_errors.is_empty());
    assert!(has_error("fn main(){ return 1; }", &["return 不能带表达式"]));
}

#[test]
fn non_unit_function_needs_a_return() {
    assert!(has_error("fn f()->i32 { let a:i32 = 1; } fn main(){}", &["函数 `f`", "既无 return 语句也无尾表达式"]));
    assert!(run("fn f()->i32 { return 1; } fn main(){}").semantic_errors.is_empty());
    assert!(run("fn f()->i32 { 1 } fn main(){}").semantic_errors.is_empty());
}

#[test]
fn variable_named_like_a_function_is_reported() {
    assert!(has_error("fn x()->i32{1} fn main(){ let x:i32 = 2; }", &["标识符 `x` 与现有函数同名"]));
}

#[test]
fn if_without_else_must_have_unit_value() {
    assert!(has_error("fn main(){ let v:i32 = if 1 < 2 { 5 }; }", &["无 `else`", "i32"]));
    assert!(run("fn main(){ let v:i32 = if 1 < 2 { 5 } else { 6 }; }").semantic_errors.is_empty());
}

#[test]
fn deref_store_checks_the_pointee_type() {
    assert!(has_error(
        "fn main(){ let mut a:i32 = 1; let b:&mut i32 = &mut a; *b = (1, 2); }",
        &["解引用赋值", "i32", "不匹配"]
    ));
    assert!(has_error(
        "fn main(){ let a:i32 = 1; let b:&i32 = &a; *b = 2; }",
        &["不能通过不可变引用修改数据"]
    ));
}

#[test]
fn for_over_range_quadruples() {
    let r = run("fn main(){ for i in 0..3 { continue; } }");
    assert!(r.semantic_errors.is_empty());
    assert_eq!(
        quads(&r),
        vec![
            "FUNC main _ _",
            "= 0 _ i",
            "LABEL L1 _ _",
            "< i 3 t1",
            "IF_FALSE t1 _ L2",
            "CONTINUE _ _ L3",
            "LABEL L3 _ _",
            "+ i 1 t2",
            "= t2 _ i",
            "GOTO _ _ L1",
            "LABEL L2 _ _",
            "RETURN _ _ _",
            "END_FUNC main _ _",
        ]
    );
}

#[test]
fn for_over_array_quadruples() {
    let r = run("fn main(){ let a:[i32;2] = [5,6]; for x in a { } }");
    assert!(r.semantic_errors.is_empty());
    assert_eq!(
        quads(&r),
        vec![
            "FUNC main _ _",
            "ARRAY 5,6 2 t1",
            "= t1 _ a",
            "= 0 _ t2",
            "LABEL L1 _ _",
            "< t2 2 t3",
            "IF_FALSE t3 _ L2",
            "INDEX a t2 x",
            "LABEL L3 _ _",
            "+ t2 1 t4",
            "= t4 _ t2",
            "GOTO _ _ L1",
            "LABEL L2 _ _",
            "RETURN _ _ _",
            "END_FUNC main _ _",
        ]
    );
}

#[test]
fn for_over_non_iterable_analyzes_only_the_body() {
    let r = run("fn main(){ let k:i32 = 1; for i in k { let y:i32 = nope; } }");
    let m = messages(&r);
    assert!(m.iter().any(|e| e.contains("for 迭代结构必须是范围 `a..b` 或数组")));
    assert!(m.iter().any(|e| e.contains("变量 `nope` 未声明")));
    assert!(!quads(&r).iter().any(|q| q.starts_with("< ") || q.starts_with("+ ")));
}

#[test]
fn nested_element_store_writes_back() {
    let r = run("fn main(){ let mut a:[[i32;2];2] = [[1,2],[3,4]]; a[0][1] = 9; }");
    assert!(r.semantic_errors.is_empty());
    let q = quads(&r);
    let n = q.len();
    assert_eq!(
        q[n - 5..n - 2].to_vec(),
        vec!["INDEX a 0 t4".to_string(), "[]= 9 1 t4".to_string(), "[]= t4 0 a".to_string()]
    );
}

#[test]
fn tuple_field_store_and_its_checks() {
    let r = run("fn main(){ let mut p:(i32,i32) = (1, 2); p.0 = 7; }");
    assert!(r.semantic_errors.is_empty());
    assert!(quads(&r).contains(&".= 7 0 p".to_string()));
    assert!(has_error("fn main(){ let mut p:(i32,i32) = (1,2); p.0 = 1 < 2; }", &["赋值目标类型 i32", "bool", "不匹配"]));
    assert!(has_error("fn main(){ let p:(i32,i32) = (1,2); p.1 = 3; }", &["不可变变量 `p`"]));
}

#[test]
fn break_carries_the_loop_end_label() {
    let r = run("fn main(){ while 1 < 2 { break; } }");
    let q = quads(&r);
    assert!(q.contains(&"BREAK _ _ L2".to_string()));
    assert!(q.contains(&"LABEL L2 _ _".to_string()));
}

#[test]
fn break_outside_a_loop_is_reported() {
    assert!(has_error("fn main(){ break; }", &["`break` 必须位于循环体内"]));
    assert!(has_error("fn main(){ continue; }", &["`continue` 必须位于循环体内"]));
}

#[test]
fn every_function_is_one_segment_in_order() {
    let r = run("fn f(a:i32)->i32 { return a; } fn main(){ let x:i32 = f(1); }");
    assert!(r.semantic_errors.is_empty());
    let q = quads(&r);
    assert_eq!(q[0], "FUNC f _ _");
    let end_f = q.iter().position(|s| s == "END_FUNC f _ _").unwrap();
    assert!(q[end_f - 1].starts_with("RETURN"));
    assert_eq!(q[end_f + 1], "FUNC main _ _");
    assert_eq!(q[q.len() - 1], "END_FUNC main _ _");
    assert!(q[q.len() - 2].starts_with("RETURN"));
}

#[test]
fn duplicate_function_is_reported_and_skipped() {
    let r = run("fn f(){} fn f(){ let x:i32 = 1; } fn main(){}");
    assert!(messages(&r).iter().any(|m| m.contains("函数 `f` 重复定义")));
    let funcs: Vec<String> = quads(&r).into_iter().filter(|s| s.starts_with("FUNC")).collect();
    assert_eq!(funcs, vec!["FUNC f _ _".to_string(), "FUNC main _ _".to_string()]);
}

#[test]
fn empty_program_gives_nothing() {
    let r = analyze(&Program { kind: "Program", functions: vec![] });
    assert!(r.semantic_errors.is_empty());
    assert!(r.quadruples.is_empty());
}

#[test]
fn analyzer_can_be_driven_step_by_step() {
    let l = lex("fn main(){ let a:i32 = 1 < 2; }");
    let p = parse_program_ast(&l.tokens).unwrap();
    let mut a = Analyzer::new();
    a.analyze_program(&p);
    let (errors, code) = a.finish();
    assert_eq!(errors.len(), 1);
    assert!(errors[0].message.contains("不匹配"));
    assert_eq!(code.first().map(|q| q.op.as_str()), Some("FUNC"));
}

#[test]
fn semantic_error_keeps_its_message() {
    let e = SemanticError::new("说明".to_string());
    assert_eq!(e.message, "说明");
}

#[test]
fn parameter_without_type_is_reported_for_its_function() {
    let param = Binding { kind: "Binding", mutable: false, name: "x".to_string(), ty: None };
    let typed = Binding {
        kind: "Binding",
        mutable: false,
        name: "y".to_string(),
        ty: Some(TypeNode::Named { name: "i32".to_string() }),
    };
    let body = Block { kind: "Block", statements: Vec::new(), tail: None };
    let f = FunctionDecl { kind: "FunctionDecl", name: "f".to_string(), params: vec![param, typed], return_type: None, body };
    let r = analyze(&Program { kind: "Program", functions: vec![f] });
    let m = messages(&r);
    assert!(m.contains(&"函数 `f` 形参 `x` 缺少类型".to_string()), "{:?}", m);
    assert!(!m.iter().any(|e| e.contains("形参 `y`")), "{:?}", m);
}

#[test]
fn repeated_parameter_name_is_reported_once_per_repeat() {
    let r = run("fn f(a: i32, a: i32, a: i32) {} fn main(){}");
    let m = messages(&r);
    let repeats = m.iter().filter(|e| e.as_str() == "函数 `f` 形参 `a` 重名").count();
    assert_eq!(repeats, 2, "{:?}", m);
}

#[test]
fn duplicate_function_message_names_it() {
    let r = run("fn g(){} fn g(){} fn main(){}");
    assert!(messages(&r).contains(&"函数 `g` 重复定义".to_string()));
}

#[test]
fn missing_return_message_is_exact() {
    let r = run("fn f() -> i32 { let a: i32 = 1; } fn main(){}");
    assert!(messages(&r).contains(
        &"函数 `f` 声明返回类型 i32，但函数体末尾既无 return 语句也无尾表达式（规则 1.5）".to_string()
    ));
    assert!(run("fn f() -> i32 { return 1; } fn main(){}").semantic_errors.is_empty());
}

#[test]
fn while_loop_has_its_frame() {
    let r = run("fn main(){ let mut i: i32 = 0; while i < 3 { i = i + 1; } }");
    assert!(r.semantic_errors.is_empty());
    let q = quads(&r);
    let start = q.iter().position(|s| s.starts_with("LABEL")).unwrap();
    let label = q[start].split(' ').nth(1).unwrap().to_string();
    let n = q.len();
    // FUNC .. [loop frame] RETURN END_FUNC
    assert_eq!(q[n - 4], format!("GOTO _ _ {}", label));
    assert!(q[n - 3].starts_with("LABEL"));
    assert_ne!(q[n - 3], q[start]);
    let exit = q[n - 3].split(' ').nth(1).unwrap().to_string();
    assert!(q.iter().any(|s| s.starts_with("IF_FALSE") && s.ends_with(&format!(" {}", exit))));
}

#[test]
fn if_else_jumps_over_the_else_branch() {
    let r = run("fn main(){ let a: i32 = 1; let b = if a < 2 { 1 } else { 2 }; }");
    assert!(r.semantic_errors.is_empty());
    let q = quads(&r);
    let iff = q.iter().find(|s| s.starts_with("IF_FALSE")).unwrap();
    let else_label = iff.split(' ').nth(3).unwrap().to_string();
    let g = q.iter().position(|s| s.starts_with("GOTO")).unwrap();
    assert_eq!(q[g + 1], format!("LABEL {} _ _", else_label));
    let end_label = q[g].split(' ').nth(3).unwrap().to_string();
    assert!(q.contains(&format!("LABEL {} _ _", end_label)));
}

#[test]
fn call_arity_message_is_exact() {
    let r = run("fn g(a: i32) -> i32 { a } fn main(){ let x: i32 = g(1, 2); }");
    assert!(messages(&r).contains(&"函数 `g` 形参数量 1，实参数量 2 不一致（规则 3.5）".to_string()));
    assert!(quads(&r).iter().any(|s| s.starts_with("CALL g 2 t")));
}

#[test]
fn continue_outside_a_loop_jumps_nowhere() {
    let r = run("fn main(){ continue; }");
    assert!(messages(&r).contains(&"`continue` 必须位于循环体内（规则 5.4）".to_string()));
    assert!(quads(&r).contains(&"CONTINUE _ _ _".to_string()));
}

#[test]
fn literal_index_out_of_bounds_message_is_exact() {
    let r = run("fn main(){ let a: [i32; 3] = [1, 2, 3]; let b: i32 = a[5]; }");
    assert!(messages(&r).contains(&"数组 `a` 下标 5 越界，合法范围 [0,3)（规则 8.3）".to_string()));
    let r = run("fn main(){ let a: [i32; 3] = [1, 2, 3]; let b: i32 = a[2]; }");
    assert!(r.semantic_errors.is_empty());
}

#[test]
fn tuple_field_out_of_range_message_is_exact() {
    let r = run("fn main(){ let t: (i32, i32) = (1, 2); let b: i32 = t.2; }");
    assert!(messages(&r).contains(&"元组下标 2 越界，合法范围 [0,2)（规则 9.3）".to_string()));
}

#[test]
fn mutable_borrow_of_immutable_variable_is_reported() {
    let r = run("fn main(){ let a: i32 = 1; let b = &mut a; }");
    assert!(messages(&r).contains(&"不能对不可变变量 `a` 创建可变引用（规则 6.3）".to_string()));
}

#[test]
fn deref_of_non_reference_is_reported() {
    let r = run("fn main(){ let a: i32 = 1; let b: i32 = *a; }");
    assert!(messages(&r).contains(&"无法解引用非引用类型 i32（规则 6.4）".to_string()));
}

#[test]
fn assignment_to_undeclared_variable_is_reported() {
    let r = run("fn main(){ z = 1; }");
    assert!(messages(&r).contains(&"变量 `z` 未声明（规则 2.2）".to_string()));
}

#[test]
fn stray_jumps_in_nested_positions_are_reported() {
    // inside an `if` branch and inside a block expression, but in no loop
    assert!(!run("fn main(){ let a: i32 = 1; if a < 2 { break; } }").semantic_errors.is_empty());
    assert!(!run("fn main(){ let x: i32 = { continue; 1 }; }").semantic_errors.is_empty());
    // a loop's condition is outside its body
    assert!(!run("fn main(){ while { break; 1 < 2 } { } }").semantic_errors.is_empty());
    // inside the loop body it is fine
    assert!(run("fn main(){ loop { if 1 < 2 { break; } } }").semantic_errors.is_empty());
}

#[test]
fn reassigning_an_initialized_immutable_variable_is_reported() {
    let r = run("fn main(){ let a: i32 = 1; a = 2; }");
    assert!(messages(&r).contains(&"不可变变量 `a` 不能再次赋值（规则 6.1）".to_string()));
    // a deferred initialization is not a reassignment
    assert!(run("fn main(){ let a: i32; a = 2; }").semantic_errors.is_empty());
    // the right-hand side is evaluated first and cannot hide the rule
    let r = run("fn main(){ let a: i32 = 1; a = { let a: i32 = 5; a }; }");
    assert!(messages(&r).contains(&"不可变变量 `a` 不能再次赋值（规则 6.1）".to_string()));
}

#[test]
fn let_infers_the_initializer_type() {
    // `b` gets `&i32` from its initializer, so dereferencing it is fine and
    // storing through it is refused as an immutable reference
    let r = run("fn main(){ let a: i32 = 1; let b = &a; let c: i32 = *b; *b = 2; }");
    let m = messages(&r);
    assert_eq!(m, vec!["不能通过不可变引用修改数据（规则 6.4）".to_string()]);
}

#[test]
fn let_declared_type_mismatch_message_is_exact() {
    let r = run("fn main(){ let a: i32 = 1; let b: &i32 = a; }");
    assert!(messages(&r).contains(&"变量 `b` 声明类型 &i32 与初始化表达式类型 i32 不匹配".to_string()));
}

#[test]
fn let_from_a_unit_call_is_reported() {
    let r = run("fn f() {} fn main(){ let a = f(); }");
    assert!(messages(&r).contains(&"无法用 `()` 初始化变量 `a`：函数无返回值不可作为表达式（规则 3.5）".to_string()));
}

#[test]
fn return_type_mismatch_messages_are_exact() {
    let r = run("fn f() { let a: i32 = 1; return a; } fn main(){}");
    assert!(messages(&r).contains(&"函数无返回类型，return 不能带表达式（规则 1.5）".to_string()));
    let r = run("fn f() -> i32 { let a: i32 = 1; return &a; } fn main(){}");
    assert!(messages(&r).contains(&"return 表达式类型 &i32 与函数声明返回类型 i32 不一致（规则 1.5）".to_string()));
}

#[test]
fn arithmetic_on_non_integers_is_reported() {
    let r = run("fn main(){ let a: i32 = 1; let b = &a; let c = a + b; }");
    assert!(messages(&r).contains(&"运算 `+` 仅支持 i32，实际类型 i32 与 &i32".to_string()));
}

#[test]
fn argument_type_mismatch_message_is_exact() {
    let r = run("fn g(a: i32, b: &i32) -> i32 { a } fn main(){ let x: i32 = 1; let y: i32 = g(x, x); }");
    assert!(messages(&r).contains(
        &"函数 `g` 第 2 个实参类型 i32 与形参 `b` 类型 &i32 不匹配（规则 3.5）".to_string()
    ));
}

#[test]
fn let_from_an_array_of_another_length_is_reported() {
    let r = run("fn main(){ let a: [i32; 3] = [1, 2, 3]; let b: [i32; 2] = a; }");
    assert!(messages(&r).contains(
        &"变量 `b` 声明类型 [i32; 2] 与初始化表达式类型 [i32; 3] 不匹配：数组长度不匹配（声明 2，实际 3）".to_string()
    ));
}

#[test]
fn let_from_a_function_name_asks_for_a_call() {
    let r = run("fn g() -> i32 { 1 } fn main(){ let b: i32 = g; }");
    assert!(messages(&r).contains(
        &"变量 `b` 的初始化表达式是函数 `g`：函数不能直接用作值（请加 `()` 调用）".to_string()
    ));
}

#[test]
fn assignment_type_mismatch_message_is_exact() {
    let r = run("fn main(){ let mut a: i32 = 1; let b = &a; a = b; }");
    assert!(messages(&r).contains(&"变量 `a` 类型 i32 与表达式类型 &i32 不匹配（规则 2.2）".to_string()));
}

#[test]
fn deferred_initialization_gives_the_type() {
    // `a` has no type until it is assigned; afterwards `&a` is a `&i32`
    let r = run("fn main(){ let a; a = 1; let b: &i32 = &a; }");
    assert!(r.semantic_errors.is_empty(), "{:?}", messages(&r));
}

#[test]
fn deref_store_through_shared_and_mutable_references() {
    let r = run("fn main(){ let a: i32 = 1; let p = &a; *p = 2; }");
    assert!(messages(&r).contains(&"不能通过不可变引用修改数据（规则 6.4）".to_string()));
    let r = run("fn main(){ let mut a: i32 = 1; let p = &mut a; let q = &a; *p = q; }");
    assert!(messages(&r).contains(&"解引用赋值：目标类型 i32 与表达式类型 &i32 不匹配（规则 6.4）".to_string()));
}

#[test]
fn wrong_arity_calls_are_reported_wherever_they_stand() {
    // inside a loop body, inside an `if` condition, and as an argument
    assert!(!run("fn g(a: i32) -> i32 { a } fn main(){ loop { let x: i32 = g(); break; } }").semantic_errors.is_empty());
    assert!(!run("fn g(a: i32) -> i32 { a } fn main(){ if g(1, 2) < 3 { } }").semantic_errors.is_empty());
    assert!(!run("fn g(a: i32) -> i32 { a } fn main(){ let y: i32 = g(g()); }").semantic_errors.is_empty());
    assert!(run("fn g(a: i32) -> i32 { a } fn main(){ let y: i32 = g(g(1)); }").semantic_errors.is_empty());
}

#[test]
fn call_of_a_non_name_is_reported() {
    let r = run("fn main(){ let t: (i32, i32) = (1, 2); let x = t.0(1); }");
    assert!(messages(&r).contains(&"仅支持具名函数调用".to_string()), "{:?}", messages(&r));
}

#[test]
fn out_of_range_literals_are_reported_wherever_they_stand() {
    assert!(!run("fn main(){ loop { let x: i32 = 2147483648; break; } }").semantic_errors.is_empty());
    assert!(!run("fn main(){ let x: i32 = -2147483649; }").semantic_errors.is_empty());
    assert!(!run("fn main(){ let a: [i32; 1] = [1]; let x: i32 = a[4294967296]; }").semantic_errors.is_empty());
    assert!(run("fn main(){ let x: i32 = -2147483648; let y: i32 = 2147483647; }").semantic_errors.is_empty());
}

#[test]
fn empty_array_without_type_message_is_exact() {
    let r = run("fn main(){ let a = []; }");
    assert!(messages(&r).contains(&"变量 `a` 无法推断类型：空数组字面量没有元素类型（规则 2.1）".to_string()));
}

#[test]
fn assignment_to_a_non_place_is_reported() {

    // `1 = 2;` cannot be parsed, so the statement is built directly
    let target = Box::new(Expr::Number { value: "1".to_string() });
    let value = Box::new(Expr::Number { value: "2".to_string() });
    let body = Block { kind: "Block", statements: vec![Statement::Assign { target, value }], tail: None };
    let f = FunctionDecl { kind: "FunctionDecl", name: "main".to_string(), params: Vec::new(), return_type: None, body };
    let r = analyze(&Program { kind: "Program", functions: vec![f] });
    assert!(messages(&r).contains(&"赋值语句左侧不是合法左值".to_string()));
}

#[test]
fn calling_what_is_not_a_function_is_always_reported() {
    assert!(!run("fn main(){ loop { let v: i32 = 1; let w: i32 = v(); break; } }").semantic_errors.is_empty());
    assert!(!run("fn main(){ let w: i32 = { nope() }; }").semantic_errors.is_empty());
}

#[test]
fn undeclared_names_are_reported_wherever_they_stand() {
    // used in a loop body, before its `let`, after its block has closed
    assert!(!run("fn main(){ loop { let x: i32 = y; break; } }").semantic_errors.is_empty());
    assert!(!run("fn main(){ let x: i32 = x; }").semantic_errors.is_empty());
    assert!(!run("fn main(){ { let a: i32 = 1; } let b: i32 = a; }").semantic_errors.is_empty());
    assert!(!run("fn main(){ for i in 0..3 { } let b: i32 = i; }").semantic_errors.is_empty());
    // parameters, earlier lets, loop variables and functions are declared
    assert!(run("fn g() -> i32 { 1 } fn f(p: i32) -> i32 { let a: i32 = p; for i in 0..a { let c: i32 = i; } a } fn main(){ let h = g; }")
        .semantic_errors
        .iter()
        .all(|e| !e.message.contains("未声明")));
}

#[test]
fn exact_messages_for_use_before_assignment_and_undeclared() {
    let r = run("fn main(){ let mut a:i32; let b:i32 = a; let c:i32 = zz; }");
    let m = messages(&r);
    assert!(m.contains(&"变量 `a` 在赋值前被使用（规则 2.2）".to_string()), "{:?}", m);
    assert!(m.contains(&"变量 `zz` 未声明（规则 2.2）".to_string()), "{:?}", m);
}

#[test]
fn exact_messages_for_literals_out_of_range() {
    let r = run("fn main(){ let a:i32 = 2147483648; let b:i32 = -2147483649; }");
    let m = messages(&r);
    assert!(m.contains(&"整数字面量 `2147483648` 超出 i32 范围（规则 0.1）".to_string()), "{:?}", m);
    assert!(m.contains(&"整数字面量 `-2147483649` 超出 i32 范围（规则 0.1）".to_string()), "{:?}", m);
}

#[test]
fn exact_message_for_negating_a_non_integer() {
    let r = run("fn main(){ let t:(i32,i32) = (1,2); let c:i32 = -t; }");
    assert!(messages(&r).contains(&"一元 `-` 仅支持 i32，实际类型 (i32, i32)".to_string()), "{:?}", messages(&r));
}

#[test]
fn exact_messages_for_conditions_of_the_wrong_type() {
    let r = run("fn main(){ let t:(i32,i32) = (1,2); while t { } if t { } }");
    let m = messages(&r);
    assert!(m.contains(&"while 条件表达式类型 (i32, i32) 不可作为条件".to_string()), "{:?}", m);
    assert!(m.contains(&"if 条件表达式类型 (i32, i32) 不可作为条件".to_string()), "{:?}", m);
}

#[test]
fn exact_message_for_a_variable_without_a_type() {
    let r = run("fn main(){ let mut b; }");
    assert_eq!(messages(&r), vec!["变量 `b` 无法推断类型（规则 2.1）".to_string()]);
}

#[test]
fn exact_messages_for_for_iterables() {
    let r = run("fn main(){ let t:(i32,i32) = (1,2); for i in t..3 { } for j in 0..t { } for k in t { } }");
    let m = messages(&r);
    assert!(m.contains(&"for 迭代结构起点类型 (i32, i32) 不是整数（规则 5.2）".to_string()), "{:?}", m);
    assert!(m.contains(&"for 迭代结构终点类型 (i32, i32) 不是整数（规则 5.2）".to_string()), "{:?}", m);
    assert!(m.contains(&"for 迭代结构必须是范围 `a..b` 或数组（实际类型 (i32, i32)）".to_string()), "{:?}", m);
}

#[test]
fn exact_message_for_a_tail_of_the_wrong_type() {
    let r = run("fn f() -> i32 { 1 < 2 } fn main(){ }");
    assert!(messages(&r).contains(&"函数 `f` 末尾表达式类型 bool 与返回类型 i32 不一致".to_string()), "{:?}", messages(&r));
    assert!(run("fn g() -> i32 { 1 + 2 } fn main(){ }").semantic_errors.is_empty());
}

#[test]
fn exact_messages_for_borrow_conflicts() {
    let r = run("fn main(){ let mut a:i32 = 1; let p = &a; let q = &mut a; }");
    assert!(messages(&r).contains(&"不能在已有引用存在时创建变量 `a` 的可变引用（规则 6.3）".to_string()), "{:?}", messages(&r));
    let r = run("fn main(){ let mut a:i32 = 1; let p = &mut a; let q = &a; }");
    assert!(messages(&r).contains(&"不能在可变引用存在时创建变量 `a` 的其他引用（规则 6.3）".to_string()), "{:?}", messages(&r));
}

#[test]
fn exact_messages_for_element_and_deref_stores() {
    let r = run("fn main(){ let a:[i32;3] = [1,2,3]; a[0] = 4; }");
    assert!(messages(&r).contains(&"不可变变量 `a` 的元素不能被赋值（规则 8.3/9.3）".to_string()), "{:?}", messages(&r));
    let r = run("fn main(){ let mut x:i32 = 1; *x = 2; }");
    assert!(messages(&r).contains(&"无法解引用非引用类型 i32（规则 6.4）".to_string()), "{:?}", messages(&r));
}

#[test]
fn exact_messages_for_if_expression_values() {
    let r = run("fn main(){ let x:i32 = if 1 < 2 { 1 }; }");
    assert!(messages(&r).contains(&"无 `else` 分支的 if 表达式尾值必须为 `()`，实际类型 i32".to_string()), "{:?}", messages(&r));
    let r = run("fn main(){ let x = if 1 < 2 { 1 } else { 1 < 2 }; }");
    assert!(messages(&r).contains(&"if 表达式分支类型不一致：i32 vs bool".to_string()), "{:?}", messages(&r));
}

#[test]
fn exact_message_for_mixed_array_elements() {
    let r = run("fn main(){ let a = [1, 1 < 2, 3]; }");
    assert_eq!(messages(&r), vec!["数组元素类型不一致：i32 vs bool（规则 8.2）".to_string()]);
}

#[test]
fn quadruple_operands_of_calls_stores_and_operators() {
    let r = run("fn f(a:i32, b:i32, a:i32) { } fn main(){ let mut v:[i32;3] = [1,2,3]; let i:i32 = 1; v[i] = 5; let x:i32 = -i; let y:i32 = v[i]; f(i, 7, x); }");
    let q = quads(&r);
    assert!(q.contains(&"PARAM_DECL a i32 _".to_string()), "{:?}", q);
    assert!(q.contains(&"PARAM_DECL b i32 _".to_string()), "{:?}", q);
    assert_eq!(q.iter().filter(|s| s.starts_with("PARAM_DECL a")).count(), 1);
    assert!(q.contains(&"[]= 5 i v".to_string()), "{:?}", q);
    assert!(q.iter().any(|s| s.starts_with("NEG i _ ")), "{:?}", q);
    assert!(q.iter().any(|s| s.starts_with("INDEX v i ")), "{:?}", q);
    let k = q.iter().position(|s| s == "PARAM i _ _").expect("first argument");
    assert_eq!(q[k + 1], "PARAM 7 _ _");
    assert_eq!(q[k + 2], "PARAM x _ _");
    assert_eq!(q[k + 3], "CALL f 3 _");
}

#[test]
fn counted_loop_tests_the_counter_against_the_bound() {
    let r = run("fn main(){ let n:i32 = 3; for i in 0..n { } }");
    let q = quads(&r);
    let k = q.iter().position(|s| s == "= 0 _ i").expect("counter set");
    assert!(q[k + 1].starts_with("LABEL "), "{:?}", q);
    assert!(q[k + 2].starts_with("< i n "), "{:?}", q);
    assert!(q[k + 3].starts_with("IF_FALSE "), "{:?}", q);
}

#[test]
fn continue_in_a_counted_loop_goes_to_the_increment() {
    let r = run("fn main(){ for i in 0..3 { continue; } }");
    let q = quads(&r);
    let inc = q.iter().position(|s| s.starts_with("+ i 1 ")).expect("increment");
    let label = q[inc - 1].clone();
    assert!(label.starts_with("LABEL "), "{:?}", q);
    let target = label.split(' ').nth(1).unwrap().to_string();
    assert!(q.contains(&format!("CONTINUE _ _ {}", target)), "{:?}", q);
}
