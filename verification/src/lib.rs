//! A front end for a small Rust-like language: lexing, recursive-descent
//! parsing, semantic analysis and quadruple generation.
//!
//! [`lex`] turns source text into tokens, [`parse_program_ast`] turns tokens
//! into a syntax tree, and [`analyze`] checks the tree and generates
//! quadruples.
use vstd::prelude::*;

pub mod ast;
pub mod ir;
pub mod lexer;
pub mod parser;
pub mod semantic;
pub mod symbol;
pub mod syntax;
pub mod text;
pub mod types;

pub use ast::{BinaryOp, Binding, Block, ElseBranch, Expr, FunctionDecl, Program, Statement, TypeNode, UnaryOp};
pub use ir::Quadruple;
pub use lexer::{lex, Keyword, LexError, LexResult, Position, Token, TokenKind};
pub use parser::{parse_program_ast, parse_tokens, ParseError};
pub use semantic::SemanticError;

verus! {

use crate::ir::{is_jump_op, label_defined, PLACEHOLDER};
use crate::semantic::{
    fresh_names, function_rules_reported, param_names, program_arities, refused_block, reported, segmented, taken_before,
    undeclared_in_block, Analyzer,
};

/// The outcome of semantic analysis: the errors found and the quadruples
/// generated.
#[derive(Debug, Clone)]
pub struct AnalysisResult {
    pub semantic_errors: Vec<SemanticError>,
    pub quadruples: Vec<Quadruple>,
}

/// Analyzes a program.
///
/// The quadruples are one segment per analyzed function, in program order:
/// each opens with `(FUNC, name, _, _)` and closes with a `RETURN` followed
/// by `(END_FUNC, name, _, _)`. A function whose name an earlier function
/// already took is reported and generates no code. A program without
/// functions gives no errors and no code.
///
/// Every jump (`GOTO`, `IF_FALSE`, `BREAK`, `CONTINUE`) goes to a label that
/// the quadruples define with `(LABEL, l, _, _)`, except a `break` or
/// `continue` outside any loop, which is reported and jumps to `_`: a
/// program without semantic errors has no such jump.
///
/// Each function whose name an earlier one took is reported as defined
/// twice. For each analyzed function, each parameter without a type and
/// each parameter named like an earlier one is reported, and so is a
/// missing final `return` where a return type is declared, and a tail
/// literal or operation whose type does not fit the return type; a `break` or
/// `continue` outside any loop of its body gives an error, and so does,
/// anywhere in its body, what is wrong on its form alone: an integer literal
/// that does not fit `i32`, a call of anything but a function of the
/// program or with the wrong number of arguments, a field that is no index,
/// an assignment to what cannot be assigned, or `let x = []` without a
/// type. A name used where no parameter, earlier `let` of an enclosing
/// block, `for` variable or function of the program declares it is an
/// error too.
pub fn analyze(program: &Program) -> (r: AnalysisResult)
    ensures
        forall|k: int|
            0 <= k < program.functions@.len() && taken_before(program.functions@, Set::empty(), k) ==> reported(
                Seq::empty(),
                r.semantic_errors@,
                "函数 `"@ + (#[trigger] program.functions@[k]).name@ + "` 重复定义"@,
            ),
        forall|k: int|
            0 <= k < program.functions@.len() && !taken_before(program.functions@, Set::empty(), k)
                ==> function_rules_reported(#[trigger] program.functions@[k], Seq::empty(), r.semantic_errors@),
        (exists|k: int|
            0 <= k < program.functions@.len() && !taken_before(program.functions@, Set::empty(), k) && refused_block(
                (#[trigger] program.functions@[k]).body,
                program_arities(program.functions@),
            )) ==> r.semantic_errors@.len() > 0,
        (exists|k: int|
            0 <= k < program.functions@.len() && !taken_before(program.functions@, Set::empty(), k)
                && undeclared_in_block(
                (#[trigger] program.functions@[k]).body,
                param_names(program.functions@[k]),
                program_arities(program.functions@).dom(),
            )) ==> r.semantic_errors@.len() > 0,
        exists|bounds: Seq<int>|
            segmented(r.quadruples@, 0, fresh_names(program.functions@, Set::empty()), bounds),
        (exists|i: int, j: int|
            0 <= i < j < program.functions@.len() && (#[trigger] program.functions@[i]).name@
                == (#[trigger] program.functions@[j]).name@) ==> r.semantic_errors@.len() > 0,
        program.functions@.len() == 0 ==> r.semantic_errors@.len() == 0 && r.quadruples@.len() == 0,
        forall|i: int|
            0 <= i < r.quadruples@.len() && is_jump_op((#[trigger] r.quadruples@[i])@.0)
                && r.quadruples@[i]@.3 != PLACEHOLDER@ ==> label_defined(r.quadruples@, r.quadruples@[i]@.3),
        r.semantic_errors@.len() == 0 ==> forall|i: int|
            0 <= i < r.quadruples@.len() && is_jump_op((#[trigger] r.quadruples@[i])@.0)
                ==> r.quadruples@[i]@.3 != PLACEHOLDER@,
{
    let mut analyzer = Analyzer::new();
    let ghost names0 = analyzer.function_names();
    analyzer.analyze_program(program);
    let ghost code = analyzer.code();
    let (errors, quadruples) = analyzer.finish();
    let r = AnalysisResult { semantic_errors: errors, quadruples };
    proof {
        let b = choose|b: Seq<int>| segmented(code, 0, fresh_names(program.functions@, names0), b);
        assert(segmented(r.quadruples@, 0, fresh_names(program.functions@, Set::empty()), b));
        assert forall|i: int|
            0 <= i < r.quadruples@.len() && is_jump_op((#[trigger] r.quadruples@[i])@.0) implies
                r.semantic_errors@.len() > 0 || r.quadruples@[i]@.3 != PLACEHOLDER@ by {
            if r.quadruples@[i]@.3 == PLACEHOLDER@ {
                assert(crate::ir::has_placeholder_jump(r.quadruples@));
            }
        }
    }
    r
}

} // verus!
