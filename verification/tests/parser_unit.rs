use easy_analyzer::{lex, parse_program_ast, parse_tokens, Program};

fn parse_ok(source: &str) -> Program {
    let result = lex(source);
    assert!(
        result.errors.is_empty(),
        "unexpected lex errors: {:?}",
        result.errors
    );
    parse_program_ast(&result.tokens).unwrap()
}

#[test]
fn parses_minimum_required_grammar() {
    parse_ok(
        r#"
            fn base(mut a:i32) -> i32 {
                ;
                let mut b:i32;
                let c=1;
                a=a+1*2;
                if a>0 {
                    foo(a, c);
                }
                while a!=0 {
                    a=a-1;
                }
                return a;
            }

            fn foo(x:i32, y:i32) {
                x+y;
            }
            "#,
    );
}

#[test]
fn parses_extended_constructs() {
    let ast = parse_ok(
        r#"
            fn extra(mut a:i32) -> i32 {
                let mut arr:[i32;3]=[1,2,3];
                let mut pair:(i32,i32)=(arr[0], a);
                let r:&mut i32=&mut a;
                let v={
                    let t=pair.0;
                    if t>0 { t } else { 0 }
                };
                for mut i in 0..a {
                    if i==2 { continue; }
                }
                let b=loop {
                    break v;
                };
                return b;
            }
            "#,
    );
    assert_eq!(ast.functions.len(), 1);
}

#[test]
fn reports_assignment_target_errors() {
    let result = lex(r#"
            fn bad() {
                1=2;
            }
            "#);
    let error = parse_tokens(&result.tokens).unwrap_err();
    assert!(error.message.contains("not assignable"));
}

#[test]
fn accepts_end_marker() {
    parse_ok(
        r#"
            fn done() {
                return;
            }
            #
            "#,
    );
}
