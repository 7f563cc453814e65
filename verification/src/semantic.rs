//! Semantic analysis: walks the syntax tree, reports semantic errors and
//! generates quadruples.
use vstd::prelude::*;
use crate::ast::{
    stray_jump, stray_jump_block, stray_jump_stmt, BinaryOp, Binding, Block, ElseBranch, Expr, FunctionDecl, Program,
    Statement, UnaryOp,
};
use crate::ir::{
    has_placeholder_jump, is_jump_op, jumps_closed, label_defined, lemma_label_defined_extend, lemma_plain_ops,
    lemma_label_names_distinct, lemma_label_not_placeholder, lemma_push_quad, plain_op, prefix_of, IrBuilder, Quadruple, QuadText, PLACEHOLDER,
};
use crate::symbol::{has_name, scopes_kept, visible, FunctionSig, SymInfo, SymbolTable, VarSymbol};
use crate::text::{cat, concat, decimal, join_strings, parse_bounded, str_eq, usize_to_string};
use crate::types::{compatible_spec, display_spec, from_node, is_known_spec, Ty, Type};

verus! {

broadcast use crate::symbol::lemma_visible_kept;

/// A semantic error message.
#[derive(Debug, Clone)]
pub struct SemanticError {
    pub message: String,
}

impl SemanticError {
    pub fn new(message: String) -> (e: Self)
        ensures
            e.message == message,
    {
        SemanticError { message }
    }
}

/// The value of an expression: its type and the operand naming it in the
/// quadruples (a variable, a temporary, a literal or `_`).
struct ExprValue {
    ty: Type,
    place: String,
}

impl ExprValue {
    fn new(ty: Type, place: String) -> (v: Self)
        ensures
            v.ty == ty,
            v.place == place,
    {
        ExprValue { ty, place }
    }

    fn error() -> (v: Self)
        ensures
            v.ty@ == Ty::Error,
            v.place@ == PLACEHOLDER@,
    {
        ExprValue { ty: Type::Error, place: String::from_str(PLACEHOLDER) }
    }
}

/// A `loop` expression being analyzed: where its value goes and the type
/// of the first `break` value seen.
struct LoopExprCtx {
    result_place: String,
    break_type: Option<Type>,
}

/// The labels of an enclosing loop: where `continue` goes and where
/// `break` goes, and whether the loop is a `loop` expression (the only
/// kind whose `break` may carry a value).
struct LoopLabels {
    cont: String,
    end: String,
    is_expr: bool,
}

/// The function being analyzed: its return type and the enclosing loops.
struct FuncCtx {
    return_type: Type,
    loop_exprs: Vec<LoopExprCtx>,
    loop_labels: Vec<LoopLabels>,
}

/// The borrows of one variable taken in one scope.
struct BorrowState {
    name: String,
    immutable: usize,
    mutable: usize,
}

/// The analyzer's state: symbols, generated code, errors, the current
/// function and the borrows taken in each open scope.
pub struct Analyzer {
    table: SymbolTable,
    ir: IrBuilder,
    errors: Vec<SemanticError>,
    func_ctx: Option<FuncCtx>,
    borrow_scopes: Vec<Vec<BorrowState>>,
    /// Labels already jumped to (or about to be) whose `LABEL` quadruple
    /// the enclosing constructs emit later.
    pending: Ghost<Set<Seq<char>>>,
}

/// The label `l` is defined in `q` or still pending.
spec fn covered(q: Seq<Quadruple>, pending: Set<Seq<char>>, l: Seq<char>) -> bool {
    label_defined(q, l) || pending.contains(l)
}

/// The targets of `break` and `continue` in the enclosing loops are real
/// labels, defined or pending.
spec fn loop_labels_ok(c: Option<FuncCtx>, q: Seq<Quadruple>, pending: Set<Seq<char>>) -> bool {
    match c {
        Some(ctx) => forall|k: int|
            0 <= k < ctx.loop_labels@.len() ==> {
                let ll = #[trigger] ctx.loop_labels@[k];
                &&& covered(q, pending, ll.cont@)
                &&& covered(q, pending, ll.end@)
                &&& ll.cont@ != PLACEHOLDER@
                &&& ll.end@ != PLACEHOLDER@
            },
        None => true,
    }
}

/// Extending the code keeps the loop targets covered.
proof fn lemma_loop_labels_extend(c: Option<FuncCtx>, q: Seq<Quadruple>, r: Seq<Quadruple>, pending: Set<Seq<char>>)
    requires
        prefix_of(q, r),
        loop_labels_ok(c, q, pending),
    ensures
        loop_labels_ok(c, r, pending),
{
    match c {
        Some(ctx) => {
            assert forall|k: int| 0 <= k < ctx.loop_labels@.len() implies {
                let ll = #[trigger] ctx.loop_labels@[k];
                &&& covered(r, pending, ll.cont@)
                &&& covered(r, pending, ll.end@)
                &&& ll.cont@ != PLACEHOLDER@
                &&& ll.end@ != PLACEHOLDER@
            } by {
                let ll = ctx.loop_labels@[k];
                if label_defined(q, ll.cont@) {
                    lemma_label_defined_extend(q, r, ll.cont@);
                }
                if label_defined(q, ll.end@) {
                    lemma_label_defined_extend(q, r, ll.end@);
                }
            }
        },
        None => {},
    }
}

/// More labels may always be counted as pending.
proof fn lemma_widen(c: Option<FuncCtx>, q: Seq<Quadruple>, pending: Set<Seq<char>>, extra: Set<Seq<char>>)
    requires
        jumps_closed(q, pending),
        loop_labels_ok(c, q, pending),
    ensures
        jumps_closed(q, pending.union(extra)),
        loop_labels_ok(c, q, pending.union(extra)),
{
    match c {
        Some(ctx) => {
            assert forall|k: int| 0 <= k < ctx.loop_labels@.len() implies {
                let ll = #[trigger] ctx.loop_labels@[k];
                &&& covered(q, pending.union(extra), ll.cont@)
                &&& covered(q, pending.union(extra), ll.end@)
                &&& ll.cont@ != PLACEHOLDER@
                &&& ll.end@ != PLACEHOLDER@
            } by {
                let ll = ctx.loop_labels@[k];
                assert(covered(q, pending, ll.cont@));
                assert(covered(q, pending, ll.end@));
            }
        },
        None => {},
    }
}

/// Pending labels that are now defined may be dropped from the pending set.
proof fn lemma_settle(c: Option<FuncCtx>, q: Seq<Quadruple>, pending: Set<Seq<char>>, extra: Set<Seq<char>>)
    requires
        jumps_closed(q, pending.union(extra)),
        loop_labels_ok(c, q, pending.union(extra)),
        forall|l: Seq<char>| extra.contains(l) ==> label_defined(q, l),
    ensures
        jumps_closed(q, pending),
        loop_labels_ok(c, q, pending),
{
    match c {
        Some(ctx) => {
            assert forall|k: int| 0 <= k < ctx.loop_labels@.len() implies {
                let ll = #[trigger] ctx.loop_labels@[k];
                &&& covered(q, pending, ll.cont@)
                &&& covered(q, pending, ll.end@)
                &&& ll.cont@ != PLACEHOLDER@
                &&& ll.end@ != PLACEHOLDER@
            } by {
                let ll = ctx.loop_labels@[k];
                assert(covered(q, pending.union(extra), ll.cont@));
                assert(covered(q, pending.union(extra), ll.end@));
            }
        },
        None => {},
    }
}

/// The return type and loop nesting of the current function, if any.
spec fn ctx_shape(c: Option<FuncCtx>) -> Option<(Ty, nat, nat)> {
    match c {
        Some(ctx) => Some((ctx.return_type@, ctx.loop_labels@.len(), ctx.loop_exprs@.len())),
        None => None,
    }
}

/// The `break`/`continue` targets of the enclosing loops, outermost first.
spec fn loop_targets(c: Option<FuncCtx>) -> Seq<LoopLabels> {
    match c {
        Some(ctx) => ctx.loop_labels@,
        None => Seq::empty(),
    }
}

/// From index `from` on, `q` holds a `continue` jump to `target`.
pub open spec fn continue_emitted(q: Seq<Quadruple>, from: int, target: Seq<char>) -> bool {
    exists|j: int| 0 <= from <= j < q.len() && (#[trigger] q[j])@ == ("CONTINUE"@, PLACEHOLDER@, PLACEHOLDER@, target)
}

/// A `continue` jump found from `from` on stays found in a longer list and
/// from an earlier start.
proof fn lemma_continue_kept(q1: Seq<Quadruple>, q2: Seq<Quadruple>, f1: int, f2: int, target: Seq<char>)
    requires
        continue_emitted(q1, f1, target),
        prefix_of(q1, q2),
        0 <= f2 <= f1,
    ensures
        continue_emitted(q2, f2, target),
{
    let j = choose|j: int| 0 <= f1 <= j < q1.len() && (#[trigger] q1[j])@ == ("CONTINUE"@, PLACEHOLDER@, PLACEHOLDER@, target);
    assert(q2[j] == q1[j]);
}

/// The targets of the innermost enclosing loop, if any.
spec fn innermost_loop(c: Option<FuncCtx>) -> Option<LoopLabels> {
    let t = loop_targets(c);
    if t.len() > 0 {
        Some(t.last())
    } else {
        None
    }
}

/// From index `n0` on, `q` is the frame of a loop: it opens with a label
/// and closes with a jump back to it followed by a second, different label
/// (where the loop exits).
pub open spec fn loop_frame(q: Seq<Quadruple>, n0: int) -> bool {
    &&& 0 <= n0
    &&& n0 + 3 <= q.len()
    &&& q[n0]@.0 == "LABEL"@
    &&& q.last()@.0 == "LABEL"@
    &&& q[n0]@.1 != q.last()@.1
    &&& q[q.len() - 2]@ == ("GOTO"@, PLACEHOLDER@, PLACEHOLDER@, q[n0]@.1)
}

/// A loop frame from `n1` on that sets a counter just before it, tests
/// `counter < bound` and leaves to the exit label when that fails, and
/// closes by stepping the counter: a label, `+ counter 1 t`,
/// `= t _ counter`, the jump back and the exit label.
pub open spec fn counted_loop_frame(q: Seq<Quadruple>, n1: int) -> bool {
    let len = q.len() as int;
    &&& loop_frame(q, n1)
    &&& n1 + 3 <= len - 5
    &&& q[len - 5]@.0 == "LABEL"@
    &&& q[len - 4]@.0 == "+"@
    &&& q[len - 4]@.2 == "1"@
    &&& q[len - 3]@ == ("="@, q[len - 4]@.3, PLACEHOLDER@, q[len - 4]@.1)
    &&& 1 <= n1
    &&& q[n1 - 1]@.0 == "="@ && q[n1 - 1]@.2 == PLACEHOLDER@ && q[n1 - 1]@.3 == q[len - 4]@.1
    &&& q[n1 + 1]@.0 == "<"@ && q[n1 + 1]@.1 == q[len - 4]@.1
    &&& q[n1 + 2]@ == ("IF_FALSE"@, q[n1 + 1]@.3, PLACEHOLDER@, q.last()@.1)
}

/// The text shown for a literal index that is out of bounds for an array of
/// length `n` (`None` when the index is no literal or is within bounds).
pub open spec fn literal_out_of_bounds(index: Expr, n: nat) -> Option<Seq<char>> {
    match index {
        Expr::Number { value } => {
            let out = match crate::text::parse_unsigned(value@, u128::MAX as nat) {
                Some(k) => k >= n,
                None => true,
            };
            if out {
                Some(value@)
            } else {
                None
            }
        },
        Expr::Unary { op: UnaryOp::Neg, expr } => match *expr {
            Expr::Number { value } => Some("-"@ + value@),
            _ => None,
        },
        _ => None,
    }
}

/// The message for the out-of-bounds literal index `shown` into an array
/// of length `n`, naming the array when the indexed expression has a root
/// variable.
pub open spec fn out_of_bounds_message(base: Expr, shown: Seq<char>, n: nat) -> Seq<char> {
    let prefix = match root_ident(base) {
        Some(name) => "数组 `"@ + name + "` "@,
        None => Seq::empty(),
    };
    prefix + "下标 "@ + shown + " 越界，合法范围 [0,"@ + decimal(n) + ")（规则 8.3）"@
}

/// How many errors checking `base[index]` reports, for a base of type
/// `bt` and an index of type `it`.
pub open spec fn index_error_count(bt: Ty, it: Ty, index: Expr) -> int {
    (if is_known_spec(it) && !(it is I32) { 1int } else { 0int }) + match bt {
        Ty::Array(_, n) => if literal_out_of_bounds(index, n) is Some { 1int } else { 0int },
        Ty::Error => 0int,
        _ => if is_known_spec(bt) { 1int } else { 0int },
    }
}

/// How many errors checking the field `.field` of a value of type `bt`
/// reports.
pub open spec fn field_error_count(bt: Ty, field: Seq<char>) -> int {
    match crate::text::parse_unsigned(field, usize::MAX as nat) {
        None => 1,
        Some(k) => match bt {
            Ty::Tuple(es) => if k >= es.len() { 1int } else { 0int },
            Ty::Error => 0,
            _ => if is_known_spec(bt) { 1int } else { 0int },
        },
    }
}

/// `rt` is the return type the function declares (`()` when it declares
/// none).
pub open spec fn declared_return(f: FunctionDecl, rt: Ty) -> bool {
    match f.return_type {
        Some(n) => crate::types::denotes(n, rt),
        None => rt == Ty::Unit,
    }
}

/// The rules checked on the function `f` as a whole were reported, between
/// the error lists `before` and `after`: every parameter without a type,
/// every parameter whose name an earlier one took, a missing final `return`
/// in a function that declares a (known, non-`()`) return type, a tail
/// literal or operation whose type does not fit the return type, and (by
/// some error) a `break` or `continue` outside any loop.
pub open spec fn function_rules_reported(f: FunctionDecl, before: Seq<SemanticError>, after: Seq<SemanticError>) -> bool {
    &&& stray_jump_block(f.body) ==> before.len() < after.len()
    &&& forall|j: int|
        0 <= j < f.params@.len() && (#[trigger] f.params@[j]).ty is None ==> reported(
            before,
            after,
            "函数 `"@ + f.name@ + "` 形参 `"@ + f.params@[j].name@ + "` 缺少类型"@,
        )
    &&& forall|i: int, j: int|
        #![trigger f.params@[i], f.params@[j]]
        0 <= i < j < f.params@.len() && f.params@[i].name@ == f.params@[j].name@ ==> reported(
            before,
            after,
            "函数 `"@ + f.name@ + "` 形参 `"@ + f.params@[j].name@ + "` 重名"@,
        )
    &&& forall|rt: Ty|
        #[trigger] declared_return(f, rt) && f.body.tail is None && !ends_with_return(f.body) && is_known_spec(rt)
            && !(rt is Unit) ==> reported(
            before,
            after,
            "函数 `"@ + f.name@ + "` 声明返回类型 "@ + display_spec(rt) + "，但函数体末尾既无 return 语句也无尾表达式（规则 1.5）"@,
        )
    &&& forall|rt: Ty|
        #[trigger] declared_return(f, rt) && (literal_tail_type(f.body) matches Some(tt) && is_known_spec(tt)
            && is_known_spec(rt) && !compatible_spec(tt, rt)) ==> reported(
            before,
            after,
            "函数 `"@ + f.name@ + "` 末尾表达式类型 "@ + display_spec(literal_tail_type(f.body)->0) + " 与返回类型 "@
                + display_spec(rt) + " 不一致"@,
        )
}

/// The type of a block's tail expression where it follows from its form
/// alone: an integer literal, or a binary operation.
pub open spec fn literal_tail_type(b: Block) -> Option<Ty> {
    match b.tail {
        Some(e) => form_type(*e),
        None => None,
    }
}

/// The text of a block's tail where the tail is an integer literal.
pub open spec fn literal_tail(b: Block) -> Option<Seq<char>> {
    match b.tail {
        Some(e) => match *e {
            Expr::Number { value } => Some(value@),
            _ => None,
        },
        None => None,
    }
}

/// The type of an expression where it follows from its form alone: an
/// integer literal, or a binary operation.
pub open spec fn form_type(e: Expr) -> Option<Ty> {
    match e {
        Expr::Number { .. } => Some(Ty::I32),
        Expr::Binary { op, .. } => Some(
            if op == BinaryOp::Range {
                Ty::Range
            } else if bin_op_spec(op).1 {
                Ty::Bool
            } else {
                Ty::I32
            },
        ),
        _ => None,
    }
}

/// The `PARAM_DECL` quadruples for the first `n` parameters `ps`: one per
/// name not taken by an earlier parameter, in order, with the name and the
/// shown type.
pub open spec fn param_decl_texts(ps: Seq<(Seq<char>, Ty, bool)>, n: int) -> Seq<crate::ir::QuadText>
    decreases n,
{
    if n <= 0 {
        Seq::empty()
    } else {
        let prev = param_decl_texts(ps, n - 1);
        if exists|j: int| 0 <= j < n - 1 && (#[trigger] ps[j]).0 == ps[n - 1].0 {
            prev
        } else {
            prev.push(("PARAM_DECL"@, ps[n - 1].0, display_spec(ps[n - 1].1), PLACEHOLDER@))
        }
    }
}

/// `info` is what registering `f` records: its parameters' names, in
/// order, and its declared return type.
pub open spec fn registered_as(f: FunctionDecl, info: crate::symbol::FnInfo) -> bool {
    &&& declared_return(f, info.return_type)
    &&& info.params.len() == f.params@.len()
    &&& forall|j: int| 0 <= j < f.params@.len() ==> (#[trigger] info.params[j]).0 == f.params@[j].name@
}

/// The names of the parameters of `f`.
pub open spec fn param_names(f: FunctionDecl) -> Set<Seq<char>> {
    Set::new(|n: Seq<char>| exists|j: int| 0 <= j < f.params@.len() && (#[trigger] f.params@[j]).name@ == n)
}

/// The block's last statement is a `return`.
pub open spec fn ends_with_return(b: Block) -> bool {
    b.statements@.len() > 0 && b.statements@.last() is Return
}

/// The type the analyzer gives `e` when it evaluates `e` against the
/// table `t`, for the expressions whose type follows from their form and
/// the table alone (`None` for the others: blocks, `if`, `loop`, tuples
/// and non-empty arrays).
pub open spec fn static_type(e: Expr, t: SymbolTable) -> Option<Ty>
    decreases e,
{
    match e {
        Expr::Number { .. } => Some(Ty::I32),
        Expr::Identifier { name } => match t.lookup_spec(name@) {
            Some(info) => Some(info.ty),
            None => if t.functions_view().contains_key(name@) {
                Some(Ty::Function)
            } else {
                Some(Ty::Error)
            },
        },
        Expr::Binary { op, .. } => if op == BinaryOp::Range {
            Some(Ty::Range)
        } else if bin_op_spec(op).1 {
            Some(Ty::Bool)
        } else {
            Some(Ty::I32)
        },
        Expr::Unary { op, expr } => match op {
            UnaryOp::Neg => Some(Ty::I32),
            UnaryOp::Ref => match static_type(*expr, t) {
                Some(inner) => Some(Ty::Ref(false, Box::new(inner))),
                None => None,
            },
            UnaryOp::RefMut => match static_type(*expr, t) {
                Some(inner) => Some(Ty::Ref(true, Box::new(inner))),
                None => None,
            },
            UnaryOp::Deref => match static_type(*expr, t) {
                Some(Ty::Ref(_, target)) => Some(*target),
                Some(_) => Some(Ty::Error),
                None => None,
            },
        },
        Expr::Call { callee, .. } => match *callee {
            Expr::Identifier { name } => if t.functions_view().contains_key(name@) {
                Some(t.functions_view()[name@].return_type)
            } else {
                Some(Ty::Error)
            },
            _ => Some(Ty::Error),
        },
        Expr::Index { base, .. } => match static_type(*base, t) {
            Some(Ty::Array(element, _)) => Some(*element),
            Some(_) => Some(Ty::Error),
            None => None,
        },
        Expr::Field { base, field } => match static_type(*base, t) {
            Some(Ty::Tuple(es)) => match crate::text::parse_unsigned(field@, usize::MAX as nat) {
                Some(k) => if k < es.len() {
                    Some(es[k as int])
                } else {
                    Some(Ty::Error)
                },
                None => Some(Ty::Error),
            },
            Some(_) => Some(Ty::Error),
            None => None,
        },
        Expr::Array { elements } => if elements@.len() == 0 {
            Some(Ty::Array(Box::new(Ty::Error), 0))
        } else {
            match static_type(elements@[0], t) {
                Some(t0) => if is_known_spec(t0) {
                    Some(Ty::Array(Box::new(t0), elements@.len()))
                } else {
                    None
                },
                None => None,
            }
        },
        _ => None,
    }
}

/// How many parameters each registered function takes.
pub open spec fn arities(fns: Map<Seq<char>, crate::symbol::FnInfo>) -> Map<Seq<char>, nat> {
    Map::new(|n: Seq<char>| fns.contains_key(n), |n: Seq<char>| fns[n].params.len())
}

/// How many parameters the functions of a program take, by name; a name
/// declared twice counts with its first declaration.
pub open spec fn program_arities(fs: Seq<FunctionDecl>) -> Map<Seq<char>, nat>
    decreases fs.len(),
{
    if fs.len() == 0 {
        Map::empty()
    } else {
        let m = program_arities(fs.drop_last());
        if m.contains_key(fs.last().name@) {
            m
        } else {
            m.insert(fs.last().name@, fs.last().params@.len())
        }
    }
}

/// A call with `n` arguments of `callee` is refused on its form alone:
/// `callee` is not the name of a function of `arities`, or names one that
/// takes other than `n` arguments.
pub open spec fn refused_call(callee: Expr, n: nat, arities: Map<Seq<char>, nat>) -> bool {
    match callee {
        Expr::Identifier { name } => !arities.contains_key(name@) || arities[name@] != n,
        _ => true,
    }
}

/// The expression is the literal `[]`.
pub open spec fn empty_array_literal(e: Expr) -> bool {
    e matches Expr::Array { elements } && elements@.len() == 0
}

/// An integer literal that does not fit `i32` (`negated` when it stands
/// right after a unary minus, where `2147483648` still fits).
pub open spec fn literal_out_of_range(value: Seq<char>, negated: bool) -> bool {
    crate::text::parse_unsigned(value, if negated { 2147483648nat } else { 2147483647nat }) is None
}

/// `e` holds something the analyzer refuses on its form alone, whatever
/// the variables: an integer literal that does not fit `i32`, or a call
/// refused by [`refused_call`].
pub open spec fn refused_expr(e: Expr, arities: Map<Seq<char>, nat>) -> bool
    decreases e,
{
    match e {
        Expr::Identifier { .. } => false,
        Expr::Number { value } => literal_out_of_range(value@, false),
        Expr::Unary { op, expr } => match *expr {
            Expr::Number { value } => if op == UnaryOp::Neg {
                literal_out_of_range(value@, true)
            } else {
                literal_out_of_range(value@, false)
            },
            _ => refused_expr(*expr, arities),
        },
        Expr::Binary { left, right, .. } => refused_expr(*left, arities) || refused_expr(*right, arities),
        Expr::Call { callee, args } => refused_call(*callee, args@.len(), arities) || refused_expr(*callee, arities)
            || exists|i: int| 0 <= i < args@.len() && refused_expr(#[trigger] args@[i], arities),
        Expr::Index { base, index } => refused_expr(*base, arities) || refused_expr(*index, arities),
        Expr::Field { base, field } => refused_expr(*base, arities) || crate::text::parse_unsigned(
            field@,
            usize::MAX as nat,
        ) is None,
        Expr::Array { elements } => exists|i: int| 0 <= i < elements@.len() && refused_expr(#[trigger] elements@[i], arities),
        Expr::Tuple { elements } => exists|i: int| 0 <= i < elements@.len() && refused_expr(#[trigger] elements@[i], arities),
        Expr::Block { block } => refused_block(block, arities),
        Expr::If { condition, then_branch, else_branch } => refused_expr(*condition, arities) || refused_block(
            then_branch,
            arities,
        ) || refused_else(else_branch, arities),
        Expr::Loop { body } => refused_block(body, arities),
    }
}

/// The `else` part holds something refused on its form alone.
pub open spec fn refused_else(e: ElseBranch, arities: Map<Seq<char>, nat>) -> bool
    decreases e,
{
    match e {
        ElseBranch::NoElse => false,
        ElseBranch::Block { block } => refused_block(block, arities),
        ElseBranch::ElseIf { expr } => refused_expr(*expr, arities),
    }
}

/// The block holds something refused on its form alone.
pub open spec fn refused_block(b: Block, arities: Map<Seq<char>, nat>) -> bool
    decreases b,
{
    ||| exists|i: int| 0 <= i < b.statements@.len() && refused_stmt(#[trigger] b.statements@[i], arities)
    ||| match b.tail {
        Some(t) => refused_expr(*t, arities),
        None => false,
    }
}

/// The statement holds something refused on its form alone.
pub open spec fn refused_stmt(s: Statement, arities: Map<Seq<char>, nat>) -> bool
    decreases s,
{
    match s {
        Statement::Empty => false,
        Statement::Let { binding, init } => match init {
            Some(x) => refused_expr(*x, arities) || (binding.ty is None && empty_array_literal(*x)),
            None => false,
        },
        Statement::Assign { target, value } => !crate::ast::assignable(*target) || refused_expr(*target, arities)
            || refused_expr(*value, arities),
        Statement::Expr { expr } => refused_expr(*expr, arities),
        Statement::Return { value } => match value {
            Some(x) => refused_expr(*x, arities),
            None => false,
        },
        Statement::While { condition, body } => refused_expr(*condition, arities) || refused_block(body, arities),
        Statement::For { iterable, body, .. } => refused_expr(*iterable, arities) || refused_block(body, arities),
        Statement::Break { value } => match value {
            Some(x) => refused_expr(*x, arities),
            None => false,
        },
        Statement::Continue => false,
    }
}

/// An operand whose evaluation leaves the symbol table as it is.
pub open spec fn simple_operand(e: Expr) -> bool {
    e is Identifier || e is Number
}

/// A literal that fits `i32`, an initialized variable or a function name:
/// an operand whose evaluation reports nothing.
pub open spec fn clean_operand(e: Expr, t: SymbolTable) -> bool {
    match e {
        Expr::Number { value } => crate::text::parse_unsigned(value@, 2147483647) is Some,
        Expr::Identifier { name } => match t.lookup_spec(name@) {
            Some(info) => info.initialized,
            None => t.functions_view().contains_key(name@),
        },
        _ => false,
    }
}

/// The arguments fit the parameters of `sig` in number, and each whose
/// type and parameter type are known fits its parameter.
pub open spec fn arguments_fit(args: Seq<Expr>, sig: crate::symbol::FnInfo, t: SymbolTable) -> bool {
    &&& sig.params.len() == args.len()
    &&& forall|j: int|
        0 <= j < args.len() ==> (static_type(#[trigger] args[j], t) matches Some(ta) ==> !(is_known_spec(
            sig.params[j].1,
        ) && is_known_spec(ta) && !compatible_spec(sig.params[j].1, ta)))
}

/// The store that assigning to `target` ends with, as (operation, index
/// or field, aggregate), where `target` is an element of a declared array
/// variable at a literal or named index, or a field within a declared tuple
/// variable's arity.
pub open spec fn store_target(target: Expr, t: SymbolTable) -> Option<(Seq<char>, Seq<char>, Seq<char>)> {
    match target {
        Expr::Index { base, index } => match *base {
            Expr::Identifier { name } => match t.lookup_spec(name@) {
                Some(info) => if info.ty is Array && operand_place(*index, t) is Some {
                    Some(("[]="@, operand_place(*index, t)->0, name@))
                } else {
                    None
                },
                None => None,
            },
            _ => None,
        },
        Expr::Field { base, field } => match *base {
            Expr::Identifier { name } => match t.lookup_spec(name@) {
                Some(info) => match info.ty {
                    Ty::Tuple(es) => match crate::text::parse_unsigned(field@, usize::MAX as nat) {
                        Some(k) => if k < es.len() {
                            Some((".="@, field@, name@))
                        } else {
                            None
                        },
                        None => None,
                    },
                    _ => None,
                },
                None => None,
            },
            _ => None,
        },
        _ => None,
    }
}

/// `target = value` stores a fitting value into an element of an
/// initialized mutable array or tuple variable: a clean integer index within
/// the array's bounds, or a field within the tuple's arity, whose type does
/// not clash with the value's.
pub open spec fn fitting_element_store(target: Expr, value: Expr, t: SymbolTable) -> bool {
    let vt = static_type(value, t);
    let base = match target {
        Expr::Index { base, .. } => Some(*base),
        Expr::Field { base, .. } => Some(*base),
        _ => None,
    };
    &&& vt is Some
    &&& base matches Some(Expr::Identifier { name }) && t.lookup_spec(name@) matches Some(info) && info.mutable
        && info.initialized && match target {
        Expr::Index { index, .. } => match info.ty {
            Ty::Array(e, n) => clean_operand(*index, t) && static_type(*index, t) == Some(Ty::I32)
                && literal_out_of_bounds(*index, n) is None && !(is_known_spec(*e) && is_known_spec(vt->0)
                && !compatible_spec(*e, vt->0)),
            _ => false,
        },
        Expr::Field { field, .. } => match info.ty {
            Ty::Tuple(es) => match crate::text::parse_unsigned(field@, usize::MAX as nat) {
                Some(k) => k < es.len() && !(is_known_spec(es[k as int]) && is_known_spec(vt->0) && !compatible_spec(
                    es[k as int],
                    vt->0,
                )),
                None => false,
            },
            _ => false,
        },
        _ => false,
    }
}

/// The pointer through which `*p = value` may store, where `target` is
/// `*p` for an initialized `&mut` variable `p` whose pointee type does not
/// clash with the value's type.
pub open spec fn fitting_deref_store(target: Expr, value: Expr, t: SymbolTable) -> Option<Seq<char>> {
    match target {
        Expr::Unary { op: UnaryOp::Deref, expr } => match *expr {
            Expr::Identifier { name } => match t.lookup_spec(name@) {
                Some(info) => match info.ty {
                    Ty::Ref(m, pointee) => match static_type(value, t) {
                        Some(vt) => if m && info.initialized && !(is_known_spec(*pointee) && is_known_spec(vt) && !compatible_spec(
                            *pointee,
                            vt,
                        )) {
                            Some(name@)
                        } else {
                            None
                        },
                        None => None,
                    },
                    _ => None,
                },
                None => None,
            },
            _ => None,
        },
        _ => None,
    }
}

/// Where the value of a literal or of a declared name is found: the
/// literal's text or the name itself.
pub open spec fn operand_place(e: Expr, t: SymbolTable) -> Option<Seq<char>> {
    match e {
        Expr::Number { value } => Some(value@),
        Expr::Identifier { name } => if t.lookup_spec(name@) is Some || t.functions_view().contains_key(name@) {
            Some(name@)
        } else {
            None
        },
        _ => None,
    }
}

/// The message for argument `j` (from 0) of a call of `f`, of type `actual`,
/// given to the parameter `param` of type `expected`.
pub open spec fn argument_mismatch_message(f: Seq<char>, j: int, actual: Ty, param: Seq<char>, expected: Ty) -> Seq<char> {
    "函数 `"@ + f + "` 第 "@ + decimal((j + 1) as nat) + " 个实参类型 "@ + display_spec(actual) + " 与形参 `"@ + param
        + "` 类型 "@ + display_spec(expected) + " 不匹配（规则 3.5）"@
}

/// The names the `let` statements among the first `k` of `stmts` declare.
pub open spec fn lets_before(stmts: Seq<Statement>, k: int) -> Set<Seq<char>>
    decreases k,
{
    if k <= 0 {
        Set::empty()
    } else {
        let earlier = lets_before(stmts, k - 1);
        match stmts[k - 1] {
            Statement::Let { binding, .. } => earlier.insert(binding.name@),
            _ => earlier,
        }
    }
}

/// `e` uses as a value a name that is neither a variable of `vars` nor a
/// function of `fns`.
pub open spec fn undeclared_use(e: Expr, vars: Set<Seq<char>>, fns: Set<Seq<char>>) -> bool
    decreases e,
{
    match e {
        Expr::Identifier { name } => !vars.contains(name@) && !fns.contains(name@),
        Expr::Number { .. } => false,
        Expr::Unary { expr, .. } => undeclared_use(*expr, vars, fns),
        Expr::Binary { left, right, .. } => undeclared_use(*left, vars, fns) || undeclared_use(*right, vars, fns),
        Expr::Call { args, .. } => exists|i: int| 0 <= i < args@.len() && undeclared_use(#[trigger] args@[i], vars, fns),
        Expr::Index { base, index } => undeclared_use(*base, vars, fns) || undeclared_use(*index, vars, fns),
        Expr::Field { base, .. } => undeclared_use(*base, vars, fns),
        Expr::Array { elements } => exists|i: int|
            0 <= i < elements@.len() && undeclared_use(#[trigger] elements@[i], vars, fns),
        Expr::Tuple { elements } => exists|i: int|
            0 <= i < elements@.len() && undeclared_use(#[trigger] elements@[i], vars, fns),
        Expr::Block { block } => undeclared_in_block(block, vars, fns),
        Expr::If { condition, then_branch, else_branch } => undeclared_use(*condition, vars, fns) || undeclared_in_block(
            then_branch,
            vars,
            fns,
        ) || undeclared_in_else(else_branch, vars, fns),
        Expr::Loop { body } => undeclared_in_block(body, vars, fns),
    }
}

/// The `else` part uses an undeclared name.
pub open spec fn undeclared_in_else(e: ElseBranch, vars: Set<Seq<char>>, fns: Set<Seq<char>>) -> bool
    decreases e,
{
    match e {
        ElseBranch::NoElse => false,
        ElseBranch::Block { block } => undeclared_in_block(block, vars, fns),
        ElseBranch::ElseIf { expr } => undeclared_use(*expr, vars, fns),
    }
}

/// The block uses an undeclared name; each statement sees `vars` and the
/// names declared by the `let` statements before it.
pub open spec fn undeclared_in_block(b: Block, vars: Set<Seq<char>>, fns: Set<Seq<char>>) -> bool
    decreases b,
{
    ||| exists|k: int|
        0 <= k < b.statements@.len() && undeclared_in_stmt(
            #[trigger] b.statements@[k],
            vars.union(lets_before(b.statements@, k)),
            fns,
        )
    ||| match b.tail {
        Some(t) => undeclared_use(*t, vars.union(lets_before(b.statements@, b.statements@.len() as int)), fns),
        None => false,
    }
}

/// The statement uses an undeclared name, or assigns to a name that is no
/// variable of `vars`.
pub open spec fn undeclared_in_stmt(s: Statement, vars: Set<Seq<char>>, fns: Set<Seq<char>>) -> bool
    decreases s,
{
    match s {
        Statement::Empty => false,
        Statement::Let { init, .. } => match init {
            Some(x) => undeclared_use(*x, vars, fns),
            None => false,
        },
        Statement::Assign { target, value } => undeclared_use(*value, vars, fns) || match *target {
            Expr::Identifier { name } => !vars.contains(name@),
            _ => undeclared_use(*target, vars, fns),
        },
        Statement::Expr { expr } => undeclared_use(*expr, vars, fns),
        Statement::Return { value } => match value {
            Some(x) => undeclared_use(*x, vars, fns),
            None => false,
        },
        Statement::While { condition, body } => undeclared_use(*condition, vars, fns) || undeclared_in_block(
            body,
            vars,
            fns,
        ),
        Statement::For { binding, iterable, body } => undeclared_use(*iterable, vars, fns) || undeclared_in_block(
            body,
            vars.insert(binding.name@),
            fns,
        ),
        Statement::Break { value } => match value {
            Some(x) => undeclared_use(*x, vars, fns),
            None => false,
        },
        Statement::Continue => false,
    }
}

/// The return type of the function being analyzed (`()` outside any).
spec fn expected_return(c: Option<FuncCtx>) -> Ty {
    match c {
        Some(ctx) => ctx.return_type@,
        None => Ty::Unit,
    }
}

/// The entry records a borrow of `name` of the given kind.
spec fn borrow_entry(e: BorrowState, name: Seq<char>, mutable: bool) -> bool {
    e.name@ == name && (if mutable {
        e.mutable > 0
    } else {
        e.immutable > 0
    })
}

/// The scope records a borrow of `name` of the given kind.
spec fn scope_borrowed(s: Seq<BorrowState>, name: Seq<char>, mutable: bool) -> bool {
    exists|b: int| 0 <= b < s.len() && #[trigger] borrow_entry(s[b], name, mutable)
}

/// Some open scope records a borrow of `name` of the given kind.
spec fn borrowed(bs: Seq<Vec<BorrowState>>, name: Seq<char>, mutable: bool) -> bool {
    exists|a: int| 0 <= a < bs.len() && #[trigger] scope_borrowed(bs[a]@, name, mutable)
}

/// A new borrow of `name` conflicts with the existing ones: a mutable
/// borrow with any borrow, a shared one with a mutable one.
spec fn borrow_conflict(bs: Seq<Vec<BorrowState>>, name: Seq<char>, mutable: bool) -> bool {
    if mutable {
        borrowed(bs, name, false) || borrowed(bs, name, true)
    } else {
        borrowed(bs, name, true)
    }
}

/// Between the error lists `before` and `after` (a continuation of it),
/// an error with message `m` was reported.
pub open spec fn reported(before: Seq<SemanticError>, after: Seq<SemanticError>, m: Seq<char>) -> bool {
    exists|k: int| before.len() <= k < after.len() && (#[trigger] after[k]).message@ == m
}

/// A reported error stays reported as more errors follow.
proof fn lemma_reported_kept(before: Seq<SemanticError>, mid: Seq<SemanticError>, after: Seq<SemanticError>, m: Seq<char>)
    requires
        reported(before, mid, m),
        prefix_of(mid, after),
    ensures
        reported(before, after, m),
{
    let k = choose|k: int| before.len() <= k < mid.len() && (#[trigger] mid[k]).message@ == m;
    assert(after[k] == mid[k]);
}

/// Every error reported up to `mid` is still reported in `after`.
proof fn lemma_reported_kept_all(before: Seq<SemanticError>, mid: Seq<SemanticError>, after: Seq<SemanticError>)
    requires
        prefix_of(mid, after),
    ensures
        forall|m: Seq<char>| reported(before, mid, m) ==> #[trigger] reported(before, after, m),
{
    assert forall|m: Seq<char>| reported(before, mid, m) implies #[trigger] reported(before, after, m) by {
        lemma_reported_kept(before, mid, after, m);
    }
}

/// The rules reported for a function after `mid` are still reported after
/// more errors follow, and counted from any earlier point `before0`.
proof fn lemma_rules_kept(
    f: FunctionDecl,
    before0: Seq<SemanticError>,
    before: Seq<SemanticError>,
    mid: Seq<SemanticError>,
    after: Seq<SemanticError>,
)
    requires
        function_rules_reported(f, before, mid),
        before0.len() <= before.len(),
        prefix_of(mid, after),
    ensures
        function_rules_reported(f, before0, after),
{
    assert forall|m: Seq<char>| reported(before, mid, m) implies #[trigger] reported(before0, after, m) by {
        let k = choose|k: int| before.len() <= k < mid.len() && (#[trigger] mid[k]).message@ == m;
        assert(after[k] == mid[k]);
    }
}

/// Opening a scope, keeping the scopes outside it, and closing it again
/// keeps all scopes.
proof fn lemma_kept_through_scope(
    a: Seq<Map<Seq<char>, crate::symbol::SymInfo>>,
    cur: Seq<Map<Seq<char>, crate::symbol::SymInfo>>,
)
    requires
        scopes_kept(a.push(Map::empty()), cur, a.len() as int),
    ensures
        scopes_kept(a, cur.drop_last(), a.len() as int),
{
    let p = a.push(Map::empty());
    let f = cur.drop_last();
    assert forall|k: int, n: Seq<char>|
        #![trigger a[k].contains_key(n)]
        #![trigger f[k].contains_key(n)]
        0 <= k < a.len() as int && k < a.len() implies (a[k].contains_key(n) <==> f[k].contains_key(n)) && (
        a[k].contains_key(n) ==> f[k][n].mutable == a[k][n].mutable && (a[k][n].initialized ==> f[k][n].initialized)) by {
        assert(p[k] == a[k]);
        assert(f[k] == cur[k]);
        assert(p[k].contains_key(n) <==> cur[k].contains_key(n));
    }
}

/// Pushing an error with message `m` reports it.
proof fn lemma_reported_push(before: Seq<SemanticError>, e: SemanticError)
    ensures
        reported(before, before.push(e), e.message@),
{
    assert(before.push(e)[before.len() as int] == e);
}

/// The text of the n-th quadruple of a list.
pub open spec fn quad_at(q: Seq<Quadruple>, n: int) -> QuadText {
    q[n]@
}

impl Analyzer {
    /// The messages of the errors reported so far.
    pub closed spec fn error_messages(&self) -> Seq<Seq<char>> {
        Seq::new(self.errors@.len(), |i: int| self.errors@[i].message@)
    }

    /// The errors reported so far.
    pub closed spec fn errors_view(&self) -> Seq<SemanticError> {
        self.errors@
    }

    /// The quadruples generated so far.
    pub closed spec fn code(&self) -> Seq<Quadruple> {
        self.ir.code()
    }

    /// The function table.
    pub closed spec fn function_names(&self) -> Set<Seq<char>> {
        self.table.functions_view().dom()
    }

    /// The analyzer's internal consistency: one borrow scope per open scope.
    pub closed spec fn wf(&self) -> bool {
        &&& self.table.wf()
        &&& self.borrow_scopes@.len() == self.table.depth()
        &&& jumps_closed(self.ir.code(), self.pending@)
        &&& (has_placeholder_jump(self.ir.code()) ==> self.errors@.len() > 0)
        &&& loop_labels_ok(self.func_ctx, self.ir.code(), self.pending@)
    }

    /// The variables a lookup finds.
    pub closed spec fn visible_names(&self) -> Set<Seq<char>> {
        visible(self.table)
    }

    /// The labels jumped to whose definition is still to come.
    pub closed spec fn pending_labels(&self) -> Set<Seq<char>> {
        self.pending@
    }

    /// `self` is a later state of `old` within one construct: errors and
    /// code only grew, the scopes and the loop nesting are as before.
    spec fn grew(&self, old: Analyzer) -> bool {
        &&& self.wf()
        &&& prefix_of(old.errors@, self.errors@)
        &&& prefix_of(old.ir.code(), self.ir.code())
        &&& self.table.depth() == old.table.depth()
        &&& self.table.functions_view() == old.table.functions_view()
        &&& ctx_shape(self.func_ctx) == ctx_shape(old.func_ctx)
        &&& loop_targets(self.func_ctx) == loop_targets(old.func_ctx)
        &&& self.pending@ == old.pending@
        &&& scopes_kept(old.table.scopes_view(), self.table.scopes_view(), old.table.depth() - 1)
    }

    /// A fresh analyzer: no errors, no code, one scope, no functions.
    pub fn new() -> (a: Self)
        ensures
            a.wf(),
            a.errors_view().len() == 0,
            a.code().len() == 0,
            a.function_names() == Set::<Seq<char>>::empty(),
            a.pending_labels() == Set::<Seq<char>>::empty(),
            a.visible_names() == Set::<Seq<char>>::empty(),
    {
        let mut borrow_scopes: Vec<Vec<BorrowState>> = Vec::new();
        borrow_scopes.push(Vec::new());
        let a = Analyzer {
            table: SymbolTable::new(),
            ir: IrBuilder::new(),
            errors: Vec::new(),
            func_ctx: None,
            borrow_scopes,
            pending: Ghost(Set::empty()),
        };
        assert(a.function_names() =~= Set::<Seq<char>>::empty());
        assert forall|n: Seq<char>| !#[trigger] visible(a.table).contains(n) by {
            reveal_with_fuel(crate::symbol::lookup_in, 2);
        }
        assert(a.visible_names() =~= Set::<Seq<char>>::empty());
        a
    }

    /// The errors reported and the quadruples generated.
    pub fn finish(self) -> (r: (Vec<SemanticError>, Vec<Quadruple>))
        ensures
            r.0@ == self.errors_view(),
            r.1@ == self.code(),
    {
        (self.errors, self.ir.into_quads())
    }

    /// Emits a quadruple whose operation neither jumps nor defines a label.
    fn emit_plain(&mut self, op: &str, arg1: &str, arg2: &str, result: &str)
        requires
            old(self).wf(),
            plain_op(op@),
        ensures
            final(self).grew(*old(self)),
            final(self).ir.code().len() == old(self).ir.code().len() + 1,
            final(self).ir.code().last()@ == (op@, arg1@, arg2@, result@),
            final(self).ir.temps() == old(self).ir.temps(),
            final(self).ir.labels() == old(self).ir.labels(),
            final(self).errors == old(self).errors,
            final(self).table == old(self).table,
            final(self).func_ctx == old(self).func_ctx,
            final(self).borrow_scopes == old(self).borrow_scopes,
    {
        let ghost q = self.ir.code();
        self.ir.emit(op, arg1, arg2, result);
        proof {
            assert(self.ir.code() =~= q.push(self.ir.code().last()));
            lemma_push_quad(q, self.pending@, self.ir.code().last());
            lemma_loop_labels_extend(self.func_ctx, q, self.ir.code(), self.pending@);
        }
    }

    /// Emits the jump `(op, arg, _, label)` to a defined or pending label,
    /// or to the placeholder once an error has been reported.
    fn emit_jump(&mut self, op: &str, arg: &str, label: &str)
        requires
            old(self).wf(),
            is_jump_op(op@),
            label@ == PLACEHOLDER@ ==> old(self).errors@.len() > 0,
            label@ != PLACEHOLDER@ ==> covered(old(self).ir.code(), old(self).pending@, label@),
        ensures
            final(self).grew(*old(self)),
            final(self).ir.code().len() == old(self).ir.code().len() + 1,
            final(self).ir.code().last()@ == (op@, arg@, PLACEHOLDER@, label@),
            final(self).ir.temps() == old(self).ir.temps(),
            final(self).ir.labels() == old(self).ir.labels(),
            final(self).errors == old(self).errors,
            final(self).table == old(self).table,
            final(self).func_ctx == old(self).func_ctx,
            final(self).borrow_scopes == old(self).borrow_scopes,
    {
        let ghost q = self.ir.code();
        self.ir.emit(op, arg, PLACEHOLDER, label);
        proof {
            assert(self.ir.code() =~= q.push(self.ir.code().last()));
            if label_defined(q, label@) {
                lemma_label_defined_extend(q, self.ir.code(), label@);
            }
            lemma_push_quad(q, self.pending@, self.ir.code().last());
            lemma_loop_labels_extend(self.func_ctx, q, self.ir.code(), self.pending@);
        }
    }

    /// Emits `(LABEL, label, _, _)`, defining the label.
    fn define_label(&mut self, label: &str)
        requires
            old(self).wf(),
        ensures
            final(self).grew(*old(self)),
            final(self).ir.code().len() == old(self).ir.code().len() + 1,
            final(self).ir.code().last()@ == ("LABEL"@, label@, PLACEHOLDER@, PLACEHOLDER@),
            label_defined(final(self).ir.code(), label@),
            final(self).ir.temps() == old(self).ir.temps(),
            final(self).ir.labels() == old(self).ir.labels(),
            final(self).errors == old(self).errors,
            final(self).table == old(self).table,
            final(self).func_ctx == old(self).func_ctx,
            final(self).borrow_scopes == old(self).borrow_scopes,
    {
        let ghost q = self.ir.code();
        self.ir.emit_label(label);
        proof {
            lemma_plain_ops();
            assert(self.ir.code() =~= q.push(self.ir.code().last()));
            lemma_push_quad(q, self.pending@, self.ir.code().last());
            lemma_loop_labels_extend(self.func_ctx, q, self.ir.code(), self.pending@);
        }
    }

    fn error(&mut self, msg: String)
        requires
            old(self).wf(),
        ensures
            final(self).grew(*old(self)),
            final(self).errors@ == old(self).errors@.push(SemanticError { message: msg }),
            final(self).ir == old(self).ir,
            final(self).table == old(self).table,
            final(self).func_ctx == old(self).func_ctx,
            final(self).borrow_scopes == old(self).borrow_scopes,
    {
        self.errors.push(SemanticError::new(msg));
    }

    fn push_scope(&mut self)
        requires
            old(self).wf(),
        ensures
            final(self).wf(),
            final(self).table.depth() == old(self).table.depth() + 1,
            final(self).table.scopes_view() == old(self).table.scopes_view().push(Map::empty()),
            final(self).table.functions_view() == old(self).table.functions_view(),
            final(self).errors == old(self).errors,
            final(self).ir == old(self).ir,
            final(self).pending == old(self).pending,
            final(self).func_ctx == old(self).func_ctx,
            final(self).borrow_scopes@.drop_last() == old(self).borrow_scopes@,
            final(self).borrow_scopes@.last()@.len() == 0,
    {
        self.table.push_scope();
        self.borrow_scopes.push(Vec::new());
    }

    fn pop_scope(&mut self)
        requires
            old(self).wf(),
            old(self).table.depth() > 1,
        ensures
            final(self).wf(),
            final(self).table.depth() == old(self).table.depth() - 1,
            final(self).table.scopes_view() == old(self).table.scopes_view().drop_last(),
            final(self).table.functions_view() == old(self).table.functions_view(),
            final(self).errors == old(self).errors,
            final(self).ir == old(self).ir,
            final(self).pending == old(self).pending,
            final(self).func_ctx == old(self).func_ctx,
            final(self).borrow_scopes@ == old(self).borrow_scopes@.drop_last(),
    {
        self.table.pop_scope();
        if self.borrow_scopes.len() > 1 {
            self.borrow_scopes.pop();
        }
    }

    /// Records a borrow of `name`, reporting it when it conflicts with an
    /// existing one: a mutable borrow conflicts with any borrow, any borrow
    /// with a mutable one.
    fn register_borrow(&mut self, name: &str, mutable: bool)
        requires
            old(self).wf(),
        ensures
            final(self).grew(*old(self)),
            final(self).ir == old(self).ir,
            final(self).table == old(self).table,
            final(self).errors@.len() == old(self).errors@.len() + (if borrow_conflict(
                old(self).borrow_scopes@,
                name@,
                mutable,
            ) {
                1int
            } else {
                0int
            }),
            borrowed(final(self).borrow_scopes@, name@, mutable),
            scope_borrowed(final(self).borrow_scopes@.last()@, name@, mutable),
            final(self).borrow_scopes@.drop_last() == old(self).borrow_scopes@.drop_last(),
            borrow_conflict(old(self).borrow_scopes@, name@, mutable) ==> reported(
                old(self).errors@,
                final(self).errors@,
                if mutable {
                    "不能在已有引用存在时创建变量 `"@ + name@ + "` 的可变引用（规则 6.3）"@
                } else {
                    "不能在可变引用存在时创建变量 `"@ + name@ + "` 的其他引用（规则 6.3）"@
                },
            ),
    {
        let existing_immutable = Self::any_borrow(&self.borrow_scopes, name, false);
        let existing_mutable = Self::any_borrow(&self.borrow_scopes, name, true);
        if mutable {
            if existing_immutable || existing_mutable {
                let m = cat(&["不能在已有引用存在时创建变量 `", name, "` 的可变引用（规则 6.3）"]);
                proof {
                    reveal_with_fuel(concat, 4);
                    lemma_reported_push(self.errors@, SemanticError { message: m });
                }
                self.error(m);
            }
        } else if existing_mutable {
            let m = cat(&["不能在可变引用存在时创建变量 `", name, "` 的其他引用（规则 6.3）"]);
            proof {
                reveal_with_fuel(concat, 4);
                lemma_reported_push(self.errors@, SemanticError { message: m });
            }
            self.error(m);
        }
        let mut scope = self.borrow_scopes.pop().unwrap();
        let ghost k_new: int;
        match Self::find_borrow(&scope, name) {
            Some(k) => {
                let state = if mutable {
                    BorrowState {
                        name: scope[k].name.clone(),
                        immutable: scope[k].immutable,
                        mutable: scope[k].mutable.saturating_add(1),
                    }
                } else {
                    BorrowState {
                        name: scope[k].name.clone(),
                        immutable: scope[k].immutable.saturating_add(1),
                        mutable: scope[k].mutable,
                    }
                };
                scope.set(k, state);
                assert(borrow_entry(scope@[k as int], name@, mutable));
                proof {
                    k_new = k as int;
                }
            },
            None => {
                let state = if mutable {
                    BorrowState { name: String::from_str(name), immutable: 0, mutable: 1 }
                } else {
                    BorrowState { name: String::from_str(name), immutable: 1, mutable: 0 }
                };
                scope.push(state);
                assert(borrow_entry(scope@[scope@.len() - 1], name@, mutable));
                proof {
                    k_new = scope@.len() - 1;
                }
            },
        }
        self.borrow_scopes.push(scope);
        assert(scope_borrowed(self.borrow_scopes@[self.borrow_scopes@.len() - 1]@, name@, mutable)) by {
            assert(borrow_entry(self.borrow_scopes@[self.borrow_scopes@.len() - 1]@[k_new], name@, mutable));
        }
    }

    /// Whether some scope holds a borrow of `name` of the given kind.
    fn any_borrow(scopes: &Vec<Vec<BorrowState>>, name: &str, mutable: bool) -> (r: bool)
        ensures
            r == borrowed(scopes@, name@, mutable),
    {
        let mut i: usize = 0;
        while i < scopes.len()
            invariant
                i <= scopes@.len(),
                forall|a: int| 0 <= a < i ==> !scope_borrowed(#[trigger] scopes@[a]@, name@, mutable),
            decreases scopes@.len() - i,
        {
            let scope = &scopes[i];
            let mut j: usize = 0;
            while j < scope.len()
                invariant
                    i < scopes@.len(),
                    scope == scopes@[i as int],
                    j <= scope@.len(),
                    forall|b: int| 0 <= b < j ==> !borrow_entry(#[trigger] scope@[b], name@, mutable),
                decreases scope@.len() - j,
            {
                let hit = if mutable { scope[j].mutable > 0 } else { scope[j].immutable > 0 };
                if hit && str_eq(scope[j].name.as_str(), name) {
                    assert(borrow_entry(scope@[j as int], name@, mutable));
                    assert(scope_borrowed(scopes@[i as int]@, name@, mutable));
                    return true;
                }
                j = j + 1;
            }
            i = i + 1;
        }
        false
    }

    /// Where the scope records borrows of `name`, if it does.
    fn find_borrow(scope: &Vec<BorrowState>, name: &str) -> (r: Option<usize>)
        ensures
            r matches Some(k) ==> k < scope@.len() && scope@[k as int].name@ == name@,
            r matches Some(k) ==> forall|j: int| 0 <= j < k ==> (#[trigger] scope@[j]).name@ != name@,
            r is None ==> forall|j: int| 0 <= j < scope@.len() ==> (#[trigger] scope@[j]).name@ != name@,
    {
        let mut k: usize = 0;
        while k < scope.len()
            invariant
                k <= scope@.len(),
                forall|j: int| 0 <= j < k ==> (#[trigger] scope@[j]).name@ != name@,
            decreases scope@.len() - k,
        {
            if str_eq(scope[k].name.as_str(), name) {
                return Some(k);
            }
            k = k + 1;
        }
        None
    }
}


/// Whether a type is `()`.
fn is_unit(t: &Type) -> (r: bool)
    ensures
        r == (t@ is Unit),
{
    match t {
        Type::Unit => true,
        _ => false,
    }
}

/// Whether a type is that of a function name.
fn is_function(t: &Type) -> (r: bool)
    ensures
        r == (t@ is Function),
{
    match t {
        Type::Function => true,
        _ => false,
    }
}

/// Whether a type is that of an empty array literal, whose element type
/// is not known.
fn is_empty_array(t: &Type) -> (r: bool)
    ensures
        r == (t@ is Array && t@->Array_1 == 0 && !crate::types::is_known_spec(*t@->Array_0)),
{
    match t {
        Type::Array { element, length } => *length == 0 && !element.is_known(),
        _ => false,
    }
}

/// The lengths of two array types, when both are arrays.
fn array_lengths(a: &Type, b: &Type) -> (r: Option<(usize, usize)>)
    ensures
        r matches Some((m, n)) ==> a@ is Array && b@ is Array && a@->Array_1 == m && b@->Array_1 == n,
        r is None ==> !(a@ is Array && b@ is Array),
{
    match (a, b) {
        (Type::Array { length: m, .. }, Type::Array { length: n, .. }) => Some((*m, *n)),
        _ => None,
    }
}

/// The variable at the root of an index/field chain, e.g. `a` for `a[0].1`.
pub open spec fn root_ident(e: Expr) -> Option<Seq<char>>
    decreases e,
{
    match e {
        Expr::Identifier { name } => Some(name@),
        Expr::Index { base, .. } => root_ident(*base),
        Expr::Field { base, .. } => root_ident(*base),
        _ => None,
    }
}

fn root_identifier(expr: &Expr) -> (r: Option<&str>)
    ensures
        r is Some == root_ident(*expr) is Some,
        r matches Some(n) ==> root_ident(*expr) == Some(n@),
    decreases expr,
{
    match expr {
        Expr::Identifier { name } => Some(name.as_str()),
        Expr::Index { base, .. } => root_identifier(&**base),
        Expr::Field { base, .. } => root_identifier(&**base),
        _ => None,
    }
}

/// The quadruple operation of a binary operator and whether it compares.
pub open spec fn bin_op_spec(op: BinaryOp) -> (Seq<char>, bool) {
    match op {
        BinaryOp::Add => ("+"@, false),
        BinaryOp::Sub => ("-"@, false),
        BinaryOp::Mul => ("*"@, false),
        BinaryOp::Div => ("/"@, false),
        BinaryOp::Lt => ("<"@, true),
        BinaryOp::Le => ("<="@, true),
        BinaryOp::Gt => (">"@, true),
        BinaryOp::Ge => (">="@, true),
        BinaryOp::Eq => ("=="@, true),
        BinaryOp::Ne => ("!="@, true),
        BinaryOp::Range => (".."@, false),
    }
}

/// The quadruple operation of an operator is the text of the operator's
/// own token, and an operator compares exactly when it is one of `<`,
/// `<=`, `>`, `>=`, `==`, `!=`.
pub proof fn law_operator_text_is_token_text(op: BinaryOp)
    ensures
        bin_op_spec(op).0 == crate::lexer::punct_text(crate::syntax::op_token(op)),
        bin_op_spec(op).1 <==> (op == BinaryOp::Lt || op == BinaryOp::Le || op == BinaryOp::Gt || op == BinaryOp::Ge
            || op == BinaryOp::Eq || op == BinaryOp::Ne),
{
}

fn bin_op_info(op: BinaryOp) -> (r: (&'static str, bool))
    ensures
        (r.0@, r.1) == bin_op_spec(op),
        r.0@ == crate::lexer::punct_text(crate::syntax::op_token(op)),
{
    match op {
        BinaryOp::Add => ("+", false),
        BinaryOp::Sub => ("-", false),
        BinaryOp::Mul => ("*", false),
        BinaryOp::Div => ("/", false),
        BinaryOp::Lt => ("<", true),
        BinaryOp::Le => ("<=", true),
        BinaryOp::Gt => (">", true),
        BinaryOp::Ge => (">=", true),
        BinaryOp::Eq => ("==", true),
        BinaryOp::Ne => ("!=", true),
        BinaryOp::Range => ("..", false),
    }
}

/// What a `for` reports of its iterable: a range bound whose known type is
/// not `i32` (the end bound where the start cannot change the table), or
/// another iterable that is no array.
pub open spec fn iterable_reported(
    iterable: Expr,
    table: SymbolTable,
    before: Seq<SemanticError>,
    after: Seq<SemanticError>,
) -> bool {
    match iterable {
        Expr::Binary { left, op: BinaryOp::Range, right } => {
            &&& static_type(*left, table) matches Some(t) ==> (is_known_spec(t) && !(t is I32) ==> reported(
                before,
                after,
                "for 迭代结构起点类型 "@ + display_spec(t) + " 不是整数（规则 5.2）"@,
            ))
            &&& (*left is Number || *left is Identifier) ==> (static_type(*right, table) matches Some(t) ==> (
            is_known_spec(t) && !(t is I32) ==> reported(
                before,
                after,
                "for 迭代结构终点类型 "@ + display_spec(t) + " 不是整数（规则 5.2）"@,
            )))
        },
        _ => static_type(iterable, table) matches Some(t) ==> (!(t is Array) ==> reported(
            before,
            after,
            "for 迭代结构必须是范围 `a..b` 或数组（实际类型 "@ + display_spec(t) + "）"@,
        )),
    }
}

/// What a `for` reported of its iterable stays reported as errors follow.
proof fn lemma_iterable_kept(
    iterable: Expr,
    table: SymbolTable,
    before: Seq<SemanticError>,
    mid: Seq<SemanticError>,
    after: Seq<SemanticError>,
)
    requires
        iterable_reported(iterable, table, before, mid),
        prefix_of(mid, after),
    ensures
        iterable_reported(iterable, table, before, after),
{
    lemma_reported_kept_all(before, mid, after);
}

/// The message for a condition of type `t` in a `ctx` (`while` or `if`).
pub open spec fn condition_message(ctx: Seq<char>, t: Ty) -> Seq<char> {
    ctx + " 条件表达式类型 "@ + display_spec(t) + " 不可作为条件"@
}

/// The message for a variable whose type could not be inferred.
pub open spec fn uninferred_message(n: Seq<char>) -> Seq<char> {
    "变量 `"@ + n + "` 无法推断类型（规则 2.1）"@
}

/// `m` reports a variable of `scope` whose type is still unknown.
pub open spec fn uninferred_in(scope: Map<Seq<char>, SymInfo>, m: Seq<char>) -> bool {
    exists|n: Seq<char>| scope.contains_key(n) && scope[n].ty is Unknown && m == uninferred_message(n)
}

impl Analyzer {
    /// Reports every variable of the innermost scope whose type could not
    /// be inferred.
    fn check_current_scope_uninferred(&mut self)
        requires
            old(self).wf(),
        ensures
            final(self).grew(*old(self)),
            final(self).ir == old(self).ir,
            final(self).table == old(self).table,
            forall|n: Seq<char>|
                old(self).table.scopes_view().last().contains_key(n) && (#[trigger] old(
                    self,
                ).table.scopes_view().last()[n]).ty is Unknown ==> reported(
                    old(self).errors@,
                    final(self).errors@,
                    uninferred_message(n),
                ),
            forall|k: int|
                old(self).errors@.len() <= k < final(self).errors@.len() ==> uninferred_in(
                    old(self).table.scopes_view().last(),
                    (#[trigger] final(self).errors@[k]).message@,
                ),
    {
        let names = self.table.current_scope_uninferred_names();
        let mut i: usize = 0;
        while i < names.len()
            invariant
                i <= names@.len(),
                self.grew(*old(self)),
                self.ir == old(self).ir,
                self.table == old(self).table,
                self.errors@.len() == old(self).errors@.len() + i,
                forall|j: int|
                    0 <= j < i ==> reported(old(self).errors@, self.errors@, uninferred_message(#[trigger] names@[j]@)),
                forall|k: int|
                    old(self).errors@.len() <= k < self.errors@.len() ==> (#[trigger] self.errors@[k]).message@
                        == uninferred_message(names@[k - old(self).errors@.len()]@),
            decreases names@.len() - i,
        {
            let m = cat(&["变量 `", names[i].as_str(), "` 无法推断类型（规则 2.1）"]);
            proof {
                reveal_with_fuel(concat, 4);
                lemma_reported_push(self.errors@, SemanticError { message: m });
                lemma_reported_kept_all(old(self).errors@, self.errors@, self.errors@.push(SemanticError { message: m }));
            }
            self.error(m);
            i = i + 1;
        }
        proof {
            assert forall|n: Seq<char>|
                old(self).table.scopes_view().last().contains_key(n) && (#[trigger] old(
                    self,
                ).table.scopes_view().last()[n]).ty is Unknown implies reported(
                    old(self).errors@,
                    self.errors@,
                    uninferred_message(n),
                ) by {
                assert(has_name(names@, n));
                let j = choose|j: int| 0 <= j < names@.len() && (#[trigger] names@[j])@ == n;
                assert(reported(old(self).errors@, self.errors@, uninferred_message(names@[j]@)));
            }
            assert forall|k: int| old(self).errors@.len() <= k < self.errors@.len() implies uninferred_in(
                old(self).table.scopes_view().last(),
                (#[trigger] self.errors@[k]).message@,
            ) by {
                let j = k - old(self).errors@.len();
                let n = names@[j]@;
                assert(has_name(names@, n));
            }
        }
    }

    /// Reports a condition whose known type is neither `bool` nor `i32`.
    fn check_condition_type(&mut self, ty: &Type, ctx: &str)
        requires
            old(self).wf(),
        ensures
            final(self).grew(*old(self)),
            final(self).ir == old(self).ir,
            final(self).table == old(self).table,
            final(self).errors@.len() == old(self).errors@.len() + (if crate::types::is_known_spec(ty@)
                && !(ty@ is Bool || ty@ is I32) {
                1int
            } else {
                0int
            }),
            crate::types::is_known_spec(ty@) && !(ty@ is Bool || ty@ is I32) ==> reported(
                old(self).errors@,
                final(self).errors@,
                condition_message(ctx@, ty@),
            ),
    {
        if !ty.is_known() {
            return;
        }
        let ok = match ty {
            Type::Bool => true,
            Type::I32 => true,
            _ => false,
        };
        if !ok {
            let d = ty.display();
            let m = cat(&[ctx, " 条件表达式类型 ", d.as_str(), " 不可作为条件"]);
            proof {
                reveal_with_fuel(concat, 5);
                lemma_reported_push(self.errors@, SemanticError { message: m });
            }
            self.error(m);
        }
    }

    /// Collects all function signatures first (so calls may go forward),
    /// then analyzes each function. A function whose name is already taken
    /// is reported as a duplicate and skipped.
    pub fn analyze_program(&mut self, program: &Program)
        requires
            old(self).wf(),
        ensures
            final(self).wf(),
            prefix_of(old(self).errors_view(), final(self).errors_view()),
            prefix_of(old(self).code(), final(self).code()),
            (exists|i: int, j: int|
                0 <= i < j < program.functions@.len() && (#[trigger] program.functions@[i]).name@
                    == (#[trigger] program.functions@[j]).name@) ==> final(self).errors_view().len()
                > old(self).errors_view().len(),
            exists|bounds: Seq<int>|
                segmented(
                    final(self).code(),
                    old(self).code().len() as int,
                    fresh_names(program.functions@, old(self).function_names()),
                    bounds,
                ),
            program.functions@.len() == 0 ==> final(self).code() == old(self).code()
                && final(self).errors_view() == old(self).errors_view(),
            final(self).pending_labels() == old(self).pending_labels(),
            jumps_closed(final(self).code(), final(self).pending_labels()),
            has_placeholder_jump(final(self).code()) ==> final(self).errors_view().len() > 0,
            forall|k: int|
                0 <= k < program.functions@.len() && taken_before(program.functions@, old(self).function_names(), k)
                    ==> reported(
                    old(self).errors_view(),
                    final(self).errors_view(),
                    "函数 `"@ + (#[trigger] program.functions@[k]).name@ + "` 重复定义"@,
                ),
            forall|k: int|
                0 <= k < program.functions@.len() && !taken_before(program.functions@, old(self).function_names(), k)
                    ==> function_rules_reported(
                    #[trigger] program.functions@[k],
                    old(self).errors_view(),
                    final(self).errors_view(),
                ),
            old(self).function_names() == Set::<Seq<char>>::empty() && (exists|k: int|
                0 <= k < program.functions@.len() && !taken_before(program.functions@, Set::empty(), k)
                    && refused_block(
                    (#[trigger] program.functions@[k]).body,
                    program_arities(program.functions@),
                )) ==> final(self).errors_view().len() > old(self).errors_view().len(),
            old(self).function_names() == Set::<Seq<char>>::empty() && old(self).visible_names() == Set::<
                Seq<char>,
            >::empty() && (exists|k: int|
                0 <= k < program.functions@.len() && !taken_before(program.functions@, Set::empty(), k)
                    && undeclared_in_block(
                    (#[trigger] program.functions@[k]).body,
                    param_names(program.functions@[k]),
                    program_arities(program.functions@).dom(),
                )) ==> final(self).errors_view().len() > old(self).errors_view().len(),
            final(self).visible_names() == old(self).visible_names(),
    {
        let fs = &program.functions;
        let ghost known = self.table.functions_view().dom();
        let ghost errs0 = self.errors@;
        let mut skip: Vec<bool> = Vec::new();
        let mut i: usize = 0;
        while i < fs.len()
            invariant
                i <= fs@.len(),
                self.wf(),
                skip@.len() == i,
                prefix_of(old(self).errors@, self.errors@),
                self.ir == old(self).ir,
                self.func_ctx == old(self).func_ctx,
                self.pending == old(self).pending,
                self.table.depth() == old(self).table.depth(),
                forall|k: int| 0 <= k < i ==> #[trigger] skip@[k] == taken_before(fs@, known, k),
                forall|k: int| 0 <= k < i ==> self.table.functions_view().contains_key(#[trigger] fs@[k].name@),
                forall|n: Seq<char>| #[trigger] self.table.functions_view().contains_key(n) ==> known.contains(n)
                    || exists|k: int| 0 <= k < i && (#[trigger] fs@[k]).name@ == n,
                forall|n: Seq<char>| known.contains(n) ==> #[trigger] self.table.functions_view().contains_key(n),
                (exists|a: int, b: int| 0 <= a < b < i && (#[trigger] fs@[a]).name@ == (#[trigger] fs@[b]).name@)
                    ==> self.errors@.len() > old(self).errors@.len(),
                fs@.len() == 0 ==> self.errors@ == old(self).errors@,
                forall|k: int|
                    0 <= k < i && !taken_before(fs@, known, k) ==> registered_as(
                        #[trigger] fs@[k],
                        self.table.functions_view()[fs@[k].name@],
                    ),
                forall|k: int|
                    0 <= k < i && taken_before(fs@, known, k) ==> reported(
                        old(self).errors@,
                        self.errors@,
                        "函数 `"@ + (#[trigger] fs@[k]).name@ + "` 重复定义"@,
                    ),
                known == Set::<Seq<char>>::empty() ==> arities(self.table.functions_view()) == program_arities(
                    fs@.subrange(0, i as int),
                ),
                self.table.scopes_view() == old(self).table.scopes_view(),
            decreases fs@.len() - i,
        {
            let ghost prev = self.errors@;
            let ghost fns0 = self.table.functions_view();
            proof {
                let sub = fs@.subrange(0, i + 1);
                assert(sub.drop_last() =~= fs@.subrange(0, i as int));
                assert(sub.last() == fs@[i as int]);
            }
            let sig = self.build_function_sig(&fs[i]);
            if self.table.lookup_function(sig.name.as_str()).is_some() {
                let m = cat(&["函数 `", sig.name.as_str(), "` 重复定义"]);
                proof {
                    reveal_with_fuel(concat, 4);
                    lemma_reported_push(self.errors@, SemanticError { message: m });
                }
                self.error(m);
                skip.push(true);
            } else {
                let ghost info = sig.info();
                self.table.declare_function(sig);
                proof {
                    assert(arities(self.table.functions_view()) =~= arities(fns0).insert(
                        fs@[i as int].name@,
                        info.params.len(),
                    ));
                }
                skip.push(false);
            }
            proof {
                lemma_reported_kept_all(old(self).errors@, prev, self.errors@);
                assert forall|k: int|
                    0 <= k < i + 1 && !taken_before(fs@, known, k) implies registered_as(
                        #[trigger] fs@[k],
                        self.table.functions_view()[fs@[k].name@],
                    ) by {
                    if k < i && !skip@[i as int] {
                        assert(fns0.contains_key(fs@[k].name@));
                        assert(fs@[k].name@ != fs@[i as int].name@);
                    }
                }
                assert forall|k: int|
                    0 <= k < i + 1 && taken_before(fs@, known, k) implies reported(
                        old(self).errors@,
                        self.errors@,
                        "函数 `"@ + (#[trigger] fs@[k]).name@ + "` 重复定义"@,
                    ) by {
                    if k == i {
                        if known.contains(fs@[k].name@) {
                        } else {
                            let j = choose|j: int| 0 <= j < k && (#[trigger] fs@[j]).name@ == fs@[k].name@;
                            assert(fns0.contains_key(fs@[j].name@));
                        }
                    }
                }
                assert forall|a: int, b: int| 0 <= a < b < i + 1 && (#[trigger] fs@[a]).name@ == (#[trigger] fs@[b]).name@
                    implies self.errors@.len() > old(self).errors@.len() by {
                    if b == i {
                        assert(self.table.functions_view().contains_key(fs@[a].name@));
                    }
                }
            }
            i = i + 1;
        }
        proof {
            assert(fs@.subrange(0, fs@.len() as int) =~= fs@);
        }
        let ghost code0 = self.ir.code();
        let ghost fns1 = self.table.functions_view();
        let ghost errs1 = self.errors@;
        let ghost mut bounds: Seq<int> = seq![code0.len() as int];
        let mut i: usize = 0;
        while i < fs.len()
            invariant
                i <= fs@.len(),
                skip@.len() == fs@.len(),
                self.wf(),
                prefix_of(old(self).errors@, self.errors@),
                prefix_of(code0, self.ir.code()),
                code0 == old(self).ir.code(),
                self.func_ctx == old(self).func_ctx,
                self.pending == old(self).pending,
                forall|k: int| 0 <= k < fs@.len() ==> #[trigger] skip@[k] == taken_before(fs@, known, k),
                forall|k: int| 0 <= k < fs@.len() ==> self.table.functions_view().contains_key(#[trigger] fs@[k].name@),
                segmented(self.ir.code(), code0.len() as int, fresh_names(fs@.subrange(0, i as int), known), bounds),
                (exists|a: int, b: int| 0 <= a < b < fs@.len() && (#[trigger] fs@[a]).name@ == (#[trigger] fs@[b]).name@)
                    ==> self.errors@.len() > old(self).errors@.len(),
                fs@.len() == 0 ==> self.errors@ == old(self).errors@,
                self.table.functions_view() == fns1,
                prefix_of(errs1, self.errors@),
                forall|k: int|
                    0 <= k < fs@.len() && !taken_before(fs@, known, k) ==> registered_as(
                        #[trigger] fs@[k],
                        fns1[fs@[k].name@],
                    ),
                forall|k: int|
                    0 <= k < i && !taken_before(fs@, known, k) ==> function_rules_reported(
                        #[trigger] fs@[k],
                        old(self).errors@,
                        self.errors@,
                    ),
                known == Set::<Seq<char>>::empty() ==> arities(fns1) == program_arities(fs@),
                known == Set::<Seq<char>>::empty() && (exists|k: int|
                    0 <= k < i && !taken_before(fs@, known, k) && refused_block(
                        (#[trigger] fs@[k]).body,
                        program_arities(fs@),
                    )) ==> self.errors@.len() > old(self).errors@.len(),
                visible(self.table) == visible(old(self).table),
                known == Set::<Seq<char>>::empty() && visible(old(self).table) == Set::<Seq<char>>::empty() && (exists|
                    k: int,
                |
                    0 <= k < i && !taken_before(fs@, known, k) && undeclared_in_block(
                        (#[trigger] fs@[k]).body,
                        param_names(fs@[k]),
                        program_arities(fs@).dom(),
                    )) ==> self.errors@.len() > old(self).errors@.len(),
            decreases fs@.len() - i,
        {
            let ghost before = self.ir.code();
            let ghost prev = self.errors@;
            proof {
                lemma_fresh_names_step(fs@, known, i as int);
            }
            if !skip[i] {
                let ghost t_before = self.table;
                self.analyze_function(&fs[i]);
                proof {
                    lemma_rules_kept(fs@[i as int], old(self).errors@, prev, self.errors@, self.errors@);
                    if known == Set::<Seq<char>>::empty() && visible(old(self).table) == Set::<Seq<char>>::empty() {
                        assert(visible(t_before).union(param_names(fs@[i as int])) =~= param_names(fs@[i as int]));
                        assert(fns1.dom() =~= arities(fns1).dom());
                    }
                }
                proof {
                    lemma_segmented_extend(before, self.ir.code(), code0.len() as int,
                        fresh_names(fs@.subrange(0, i as int), known), bounds, fs@[i as int].name@);
                    bounds = bounds.push(self.ir.code().len() as int);
                }
            }
            proof {
                assert forall|k: int|
                    0 <= k < i + 1 && !taken_before(fs@, known, k) implies function_rules_reported(
                        #[trigger] fs@[k],
                        old(self).errors@,
                        self.errors@,
                    ) by {
                    if k < i {
                        lemma_rules_kept(fs@[k], old(self).errors@, old(self).errors@, prev, self.errors@);
                    }
                }
            }
            i = i + 1;
        }
        proof {
            lemma_reported_kept_all(old(self).errors@, errs1, self.errors@);
        }
        assert(fs@.subrange(0, fs@.len() as int) =~= fs@);
        assert(segmented(self.code(), old(self).code().len() as int, fresh_names(program.functions@, old(self).function_names()), bounds));
        proof {
            if fs@.len() == 0 {
                assert(bounds.len() == 1);
                assert(self.ir.code() =~= old(self).ir.code());
            }
        }
    }

    fn build_function_sig(&self, f: &FunctionDecl) -> (sig: FunctionSig)
        ensures
            sig.name == f.name,
            declared_return(*f, sig.return_type@),
            sig.params@.len() == f.params@.len(),
            forall|j: int| 0 <= j < f.params@.len() ==> (#[trigger] sig.params@[j]).0@ == f.params@[j].name@,
    {
        let mut params: Vec<(String, Type, bool)> = Vec::new();
        let mut i: usize = 0;
        while i < f.params.len()
            invariant
                i <= f.params@.len(),
                params@.len() == i,
                forall|j: int| 0 <= j < i ==> (#[trigger] params@[j]).0@ == f.params@[j].name@,
            decreases f.params@.len() - i,
        {
            let b = &f.params[i];
            let ty = match &b.ty {
                Some(n) => from_node(n),
                None => Type::Error,
            };
            params.push((b.name.clone(), ty, b.mutable));
            i = i + 1;
        }
        let return_type = match &f.return_type {
            Some(n) => from_node(n),
            None => Type::Unit,
        };
        FunctionSig { name: f.name.clone(), params, return_type }
    }

    /// Analyzes one function: `FUNC`, its parameters, its body, a closing
    /// `RETURN` and `END_FUNC`.
    fn analyze_function(&mut self, f: &FunctionDecl)
        requires
            old(self).wf(),
            old(self).table.functions_view().contains_key(f.name@),
            registered_as(*f, old(self).table.functions_view()[f.name@]),
        ensures
            final(self).wf(),
            prefix_of(old(self).errors@, final(self).errors@),
            prefix_of(old(self).ir.code(), final(self).ir.code()),
            final(self).table.depth() == old(self).table.depth(),
            final(self).table.functions_view() == old(self).table.functions_view(),
            final(self).func_ctx == old(self).func_ctx,
            final(self).pending == old(self).pending,
            is_function_segment(final(self).ir.code(), old(self).ir.code().len() as int,
                final(self).ir.code().len() as int, f.name@),
            ({
                let texts = param_decl_texts(old(self).table.functions_view()[f.name@].params, f.params@.len() as int);
                let n0 = old(self).ir.code().len() as int;
                &&& n0 + 1 + texts.len() <= final(self).ir.code().len() - 2
                &&& forall|k: int| 0 <= k < texts.len() ==> (#[trigger] final(self).ir.code()[n0 + 1 + k])@ == texts[k]
            }),
            f.body.tail is None ==> final(self).ir.code()[final(self).ir.code().len() - 2]@.1 == PLACEHOLDER@,
            f.body.tail matches Some(e) ==> (*e matches Expr::Number { value } ==> final(self).ir.code()[
                final(self).ir.code().len() - 2]@.1 == value@),
            function_rules_reported(*f, old(self).errors@, final(self).errors@),
            refused_block(f.body, arities(old(self).table.functions_view())) ==> final(self).errors@.len() > old(self).errors@.len(),
            scopes_kept(old(self).table.scopes_view(), final(self).table.scopes_view(), old(self).table.depth() as int),
            undeclared_in_block(
                f.body,
                visible(old(self).table).union(param_names(*f)),
                old(self).table.functions_view().dom(),
            ) ==> final(self).errors@.len() > old(self).errors@.len(),
    {
        proof {
            lemma_plain_ops();
        }
        let mut i: usize = 0;
        while i < f.params.len()
            invariant
                i <= f.params@.len(),
                self.grew(*old(self)),
                self.ir == old(self).ir,
                self.table == old(self).table,
                self.func_ctx == old(self).func_ctx,
                forall|j: int|
                    0 <= j < i && (#[trigger] f.params@[j]).ty is None ==> reported(
                        old(self).errors@,
                        self.errors@,
                        "函数 `"@ + f.name@ + "` 形参 `"@ + f.params@[j].name@ + "` 缺少类型"@,
                    ),
            decreases f.params@.len() - i,
        {
            let ghost prev = self.errors@;
            if f.params[i].ty.is_none() {
                let m = cat(&["函数 `", f.name.as_str(), "` 形参 `", f.params[i].name.as_str(), "` 缺少类型"]);
                proof {
                    reveal_with_fuel(concat, 6);
                    lemma_reported_push(self.errors@, SemanticError { message: m });
                }
                self.error(m);
            }
            proof {
                lemma_reported_kept_all(old(self).errors@, prev, self.errors@);
            }
            i = i + 1;
        }
        let mut seen: Vec<String> = Vec::new();
        let mut param_skip: Vec<bool> = Vec::new();
        let mut i: usize = 0;
        while i < f.params.len()
            invariant
                i <= f.params@.len(),
                param_skip@.len() == i,
                self.grew(*old(self)),
                self.ir == old(self).ir,
                self.table == old(self).table,
                self.func_ctx == old(self).func_ctx,
                forall|j: int|
                    0 <= j < f.params@.len() && (#[trigger] f.params@[j]).ty is None ==> reported(
                        old(self).errors@,
                        self.errors@,
                        "函数 `"@ + f.name@ + "` 形参 `"@ + f.params@[j].name@ + "` 缺少类型"@,
                    ),
                forall|j: int| 0 <= j < i ==> has_name(seen@, (#[trigger] f.params@[j]).name@),
                forall|x: int|
                    #![trigger seen@[x]]
                    0 <= x < seen@.len() ==> exists|j: int| 0 <= j < i && (#[trigger] f.params@[j]).name@ == seen@[x]@,
                forall|k: int|
                    0 <= k < i && #[trigger] param_skip@[k] ==> exists|j: int|
                        0 <= j < k && (#[trigger] f.params@[j]).name@ == f.params@[k].name@,
                forall|k: int, j: int|
                    #![trigger param_skip@[k], f.params@[j]]
                    0 <= j < k < i && !param_skip@[k] ==> f.params@[j].name@ != f.params@[k].name@,
                forall|a: int, b: int|
                    #![trigger f.params@[a], f.params@[b]]
                    0 <= a < b < i && f.params@[a].name@ == f.params@[b].name@ ==> reported(
                        old(self).errors@,
                        self.errors@,
                        "函数 `"@ + f.name@ + "` 形参 `"@ + f.params@[b].name@ + "` 重名"@,
                    ),
            decreases f.params@.len() - i,
        {
            let ghost prev = self.errors@;
            let ghost seen0 = seen@;
            let name = f.params[i].name.as_str();
            let mut dup = false;
            let mut k: usize = 0;
            while k < seen.len()
                invariant
                    k <= seen@.len(),
                    dup == exists|x: int| 0 <= x < k && (#[trigger] seen@[x])@ == name@,
                decreases seen@.len() - k,
            {
                if str_eq(seen[k].as_str(), name) {
                    dup = true;
                }
                k = k + 1;
            }
            if dup {
                let m = cat(&["函数 `", f.name.as_str(), "` 形参 `", name, "` 重名"]);
                proof {
                    reveal_with_fuel(concat, 6);
                    lemma_reported_push(self.errors@, SemanticError { message: m });
                }
                self.error(m);
                param_skip.push(true);
            } else {
                seen.push(f.params[i].name.clone());
                param_skip.push(false);
            }
            proof {
                if dup {
                    let x = choose|x: int| 0 <= x < seen0.len() && (#[trigger] seen0[x])@ == name@;
                    assert(seen0[x] == seen0[x]);
                }
                assert forall|x: int|
                    #![trigger seen@[x]]
                    0 <= x < seen@.len() implies exists|j: int| 0 <= j < i + 1 && (#[trigger] f.params@[j]).name@ == seen@[x]@ by {
                    if x < seen0.len() {
                        assert(seen@[x] == seen0[x]);
                    } else {
                        assert(f.params@[i as int].name@ == seen@[x]@);
                    }
                }
                lemma_reported_kept_all(old(self).errors@, prev, self.errors@);
                assert forall|j: int| 0 <= j < i + 1 implies has_name(seen@, (#[trigger] f.params@[j]).name@) by {
                    if j < i {
                        let x = choose|x: int| 0 <= x < seen0.len() && (#[trigger] seen0[x])@ == f.params@[j].name@;
                        assert(seen@[x] == seen0[x]);
                    } else if !dup {
                        assert(seen@[seen0.len() as int]@ == f.params@[j].name@);
                    }
                }
                assert forall|a: int, b: int|
                    #![trigger f.params@[a], f.params@[b]]
                    0 <= a < b < i + 1 && f.params@[a].name@ == f.params@[b].name@ implies reported(
                        old(self).errors@,
                        self.errors@,
                        "函数 `"@ + f.name@ + "` 形参 `"@ + f.params@[b].name@ + "` 重名"@,
                    ) by {
                    if b == i {
                        assert(has_name(seen0, f.params@[a].name@));
                        assert(dup);
                    }
                }
            }
            i = i + 1;
        }
        let ghost e_params = self.errors@;
        let sig = self.table.lookup_function(f.name.as_str()).unwrap().clone();
        let return_type = sig.return_type.clone();
        let ghost q0 = self.ir.code().len() as int;
        self.emit_plain("FUNC", f.name.as_str(), PLACEHOLDER, PLACEHOLDER);
        let ghost func_quad = self.ir.code()[q0];
        let ghost ps = old(self).table.functions_view()[f.name@].params;
        proof {
            let info = old(self).table.functions_view()[f.name@];
            assert(sig.info() == info);
            assert(crate::symbol::params_view(sig.params@) == info.params);
            assert forall|j: int| 0 <= j < f.params@.len() implies (#[trigger] sig.params@[j]).0@ == f.params@[j].name@ by {
                assert(crate::symbol::params_view(sig.params@)[j] == info.params[j]);
            }
        }
        let mut i: usize = 0;
        while i < sig.params.len()
            invariant
                i <= sig.params@.len(),
                ps == crate::symbol::params_view(sig.params@),
                sig.params@.len() == f.params@.len(),
                param_skip@.len() == f.params@.len(),
                forall|j: int| 0 <= j < f.params@.len() ==> (#[trigger] sig.params@[j]).0@ == f.params@[j].name@,
                forall|k: int|
                    0 <= k < f.params@.len() && #[trigger] param_skip@[k] ==> exists|j: int|
                        0 <= j < k && (#[trigger] f.params@[j]).name@ == f.params@[k].name@,
                forall|k: int, j: int|
                    #![trigger param_skip@[k], f.params@[j]]
                    0 <= j < k < f.params@.len() && !param_skip@[k] ==> f.params@[j].name@ != f.params@[k].name@,
                self.ir.code().len() == q0 + 1 + param_decl_texts(ps, i as int).len(),
                forall|k: int|
                    0 <= k < param_decl_texts(ps, i as int).len() ==> (#[trigger] self.ir.code()[q0 + 1 + k])@
                        == param_decl_texts(ps, i as int)[k],
                self.wf(),
                prefix_of(old(self).errors@, self.errors@),
                prefix_of(e_params, self.errors@),
                prefix_of(old(self).ir.code(), self.ir.code()),
                self.ir.code().len() > q0,
                q0 == old(self).ir.code().len(),
                self.ir.code()[q0] == func_quad,
                func_quad@ == ("FUNC"@, f.name@, PLACEHOLDER@, PLACEHOLDER@),
                q0 == old(self).ir.code().len(),
                self.table == old(self).table,
                self.func_ctx == old(self).func_ctx,
                self.pending == old(self).pending,
            decreases sig.params@.len() - i,
        {
            let skip_this = if i < param_skip.len() { param_skip[i] } else { false };
            let ghost c_before = self.ir.code();
            proof {
                let taken = exists|j: int| 0 <= j < i && (#[trigger] ps[j]).0 == ps[i as int].0;
                if skip_this {
                    let j = choose|j: int| 0 <= j < i && (#[trigger] f.params@[j]).name@ == f.params@[i as int].name@;
                    assert(ps[j].0 == ps[i as int].0);
                } else {
                    assert forall|j: int| 0 <= j < i implies (#[trigger] ps[j]).0 != ps[i as int].0 by {
                        assert(f.params@[j].name@ != f.params@[i as int].name@);
                    }
                }
                assert(taken == skip_this);
            }
            if !skip_this {
                let d = sig.params[i].1.display();
                proof {
                    lemma_plain_ops();
                }
                self.emit_plain("PARAM_DECL", sig.params[i].0.as_str(), d.as_str(), PLACEHOLDER);
            }
            proof {
                let t0 = param_decl_texts(ps, i as int);
                let t1 = param_decl_texts(ps, i + 1);
                assert forall|k: int| 0 <= k < t1.len() implies (#[trigger] self.ir.code()[q0 + 1 + k])@ == t1[k] by {
                    if k < t0.len() {
                        assert(self.ir.code()[q0 + 1 + k] == c_before[q0 + 1 + k]);
                    }
                }
            }
            i = i + 1;
        }
        let ghost c_decl = self.ir.code();
        self.push_scope();
        let ghost t_pushed = self.table;
        proof {
            crate::symbol::lemma_visible_push(old(self).table, t_pushed);
            let info = old(self).table.functions_view()[f.name@];
            assert(sig.info() == info);
            assert(crate::symbol::params_view(sig.params@) == info.params);
            assert forall|j: int| 0 <= j < f.params@.len() implies (#[trigger] sig.params@[j]).0@ == f.params@[j].name@ by {
                assert(crate::symbol::params_view(sig.params@)[j] == info.params[j]);
            }
        }
        let mut i: usize = 0;
        while i < sig.params.len()
            invariant
                i <= sig.params@.len(),
                self.wf(),
                prefix_of(old(self).errors@, self.errors@),
                prefix_of(e_params, self.errors@),
                prefix_of(old(self).ir.code(), self.ir.code()),
                prefix_of(c_decl, self.ir.code()),
                self.ir.code().len() > q0,
                q0 == old(self).ir.code().len(),
                self.ir.code()[q0] == func_quad,
                self.table.depth() == old(self).table.depth() + 1,
                self.table.functions_view() == old(self).table.functions_view(),
                self.func_ctx == old(self).func_ctx,
                self.pending == old(self).pending,
                sig.params@.len() == f.params@.len(),
                param_skip@.len() == f.params@.len(),
                forall|j: int| 0 <= j < f.params@.len() ==> (#[trigger] sig.params@[j]).0@ == f.params@[j].name@,
                forall|k: int|
                    0 <= k < f.params@.len() && #[trigger] param_skip@[k] ==> exists|j: int|
                        0 <= j < k && (#[trigger] f.params@[j]).name@ == f.params@[k].name@,
                scopes_kept(t_pushed.scopes_view(), self.table.scopes_view(), old(self).table.depth() as int),
                visible(self.table) == visible(old(self).table).union(
                    Set::new(|n: Seq<char>| exists|j: int| 0 <= j < i && (#[trigger] f.params@[j]).name@ == n),
                ),
            decreases sig.params@.len() - i,
        {
            let ghost t_before = self.table;
            let skip_this = if i < param_skip.len() { param_skip[i] } else { false };
            if !skip_this {
                let p = &sig.params[i];
                let sym = VarSymbol::new(p.0.clone(), p.1.clone(), p.2, true);
                self.table.declare(sym);
                proof {
                    assert forall|n: Seq<char>|
                        #[trigger] visible(self.table).contains(n) == visible(t_before).insert(sym.name@).contains(n) by {
                        crate::symbol::law_declare_then_lookup(t_before, self.table, sym, n);
                    }
                }
            }
            proof {
                let s0 = Set::new(|n: Seq<char>| exists|j: int| 0 <= j < i && (#[trigger] f.params@[j]).name@ == n);
                let s1 = Set::new(|n: Seq<char>| exists|j: int| 0 <= j < i + 1 && (#[trigger] f.params@[j]).name@ == n);
                if skip_this {
                    assert(s1 =~= s0);
                } else {
                    assert(s1 =~= s0.insert(f.params@[i as int].name@));
                }
                assert(visible(self.table) =~= visible(old(self).table).union(s1));
            }
            i = i + 1;
        }
        proof {
            let s_all = Set::new(
                |n: Seq<char>| exists|j: int| 0 <= j < sig.params@.len() && (#[trigger] f.params@[j]).name@ == n,
            );
            assert(s_all =~= param_names(*f));
        }
        let ghost t_params = self.table;
        let ghost code_before_body = self.ir.code();
        let prev = self.func_ctx.take();
        self.func_ctx = Some(FuncCtx { return_type: return_type.clone(), loop_exprs: Vec::new(), loop_labels: Vec::new() });
        let ghost shape = ctx_shape(self.func_ctx);
        let mut i: usize = 0;
        while i < f.body.statements.len()
            invariant
                i <= f.body.statements@.len(),
                self.wf(),
                prefix_of(old(self).errors@, self.errors@),
                prefix_of(e_params, self.errors@),
                prefix_of(old(self).ir.code(), self.ir.code()),
                prefix_of(c_decl, self.ir.code()),
                self.ir.code().len() > q0,
                q0 == old(self).ir.code().len(),
                self.ir.code()[q0] == func_quad,
                self.table.depth() == old(self).table.depth() + 1,
                self.table.functions_view() == old(self).table.functions_view(),
                ctx_shape(self.func_ctx) == shape,
                shape is Some,
                self.pending == old(self).pending,
                loop_labels_ok(prev, old(self).ir.code(), self.pending@),
                innermost_loop(self.func_ctx) is None,
                (exists|k: int| 0 <= k < i && stray_jump_stmt(#[trigger] f.body.statements@[k])) ==> self.errors@.len()
                    > e_params.len(),
                (exists|k: int| 0 <= k < i && refused_stmt(#[trigger] f.body.statements@[k], arities(old(self).table.functions_view())))
                    ==> self.errors@.len() > e_params.len(),
                scopes_kept(t_pushed.scopes_view(), self.table.scopes_view(), old(self).table.depth() as int),
                visible(self.table) == visible(old(self).table).union(param_names(*f)).union(
                    lets_before(f.body.statements@, i as int),
                ),
                (exists|k: int|
                    0 <= k < i && undeclared_in_stmt(
                        #[trigger] f.body.statements@[k],
                        visible(old(self).table).union(param_names(*f)).union(lets_before(f.body.statements@, k)),
                        old(self).table.functions_view().dom(),
                    )) ==> self.errors@.len() > e_params.len(),
            decreases f.body.statements@.len() - i,
        {
            let ghost before = self.table;
            self.gen_stmt(&f.body.statements[i]);
            proof {
                let vp = visible(old(self).table).union(param_names(*f));
                let st = f.body.statements@[i as int];
                let l0 = lets_before(f.body.statements@, i as int);
                let l1 = lets_before(f.body.statements@, i + 1);
                match st {
                    Statement::Let { binding, .. } => {
                        assert(l1 == l0.insert(binding.name@));
                        assert(vp.union(l1) =~= vp.union(l0).insert(binding.name@));
                    },
                    _ => {
                        assert(l1 == l0);
                        assert(visible(self.table) == visible(before));
                    },
                }
            }
            i = i + 1;
        }
        match &f.body.tail {
            Some(tail) => {
                let v = self.gen_expr(&**tail);
                if !v.ty.compatible(&return_type) && v.ty.is_known() && return_type.is_known() {
                    let d1 = v.ty.display();
                    let d2 = return_type.display();
                    let m = cat(&["函数 `", f.name.as_str(), "` 末尾表达式类型 ", d1.as_str(), " 与返回类型 ", d2.as_str(), " 不一致"]);
                    proof {
                        reveal_with_fuel(concat, 8);
                        lemma_reported_push(self.errors@, SemanticError { message: m });
                    }
                    self.error(m);
                }
                proof {
                    if literal_tail_type(f.body) is Some {
                        assert(static_type(**tail, self.table) == literal_tail_type(f.body));
                    }
                }
                self.emit_plain("RETURN", v.place.as_str(), PLACEHOLDER, PLACEHOLDER);
            },
            None => {
                let n = f.body.statements.len();
                let ends_with_return = n > 0 && matches!(f.body.statements[n - 1], Statement::Return { .. });
                if return_type.is_known() && !is_unit(&return_type) && !ends_with_return {
                    let d = return_type.display();
                    let m = cat(&["函数 `", f.name.as_str(), "` 声明返回类型 ", d.as_str(), "，但函数体末尾既无 return 语句也无尾表达式（规则 1.5）"]);
                    proof {
                        reveal_with_fuel(concat, 6);
                        lemma_reported_push(self.errors@, SemanticError { message: m });
                        assert(reported(old(self).errors@, self.errors@.push(SemanticError { message: m }), m@));
                    }
                    self.error(m);
                }
                self.emit_plain("RETURN", PLACEHOLDER, PLACEHOLDER, PLACEHOLDER);
            },
        }
        let ghost ret_at = self.ir.code().len() - 1;
        let ghost ret_quad = self.ir.code()[ret_at];
        let ghost e_body = self.errors@;
        self.check_current_scope_uninferred();
        proof {
            lemma_loop_labels_extend(prev, old(self).ir.code(), self.ir.code(), self.pending@);
        }
        self.func_ctx = prev;
        let ghost inner = self.table.scopes_view();
        self.pop_scope();
        proof {
            lemma_kept_through_scope(old(self).table.scopes_view(), inner);
        }
        self.emit_plain("END_FUNC", f.name.as_str(), PLACEHOLDER, PLACEHOLDER);
        proof {
            assert(self.ir.code()[ret_at] == ret_quad);
            assert(self.ir.code()[q0] == func_quad);
            let texts = param_decl_texts(ps, f.params@.len() as int);
            assert(prefix_of(c_decl, self.ir.code()));
            assert forall|k: int| 0 <= k < texts.len() implies (#[trigger] self.ir.code()[q0 + 1 + k])@ == texts[k] by {
                assert(self.ir.code()[q0 + 1 + k] == c_decl[q0 + 1 + k]);
            }
            lemma_reported_kept_all(old(self).errors@, e_params, self.errors@);
            lemma_reported_kept_all(old(self).errors@, e_body, self.errors@);
            let rt0 = old(self).table.functions_view()[f.name@].return_type;
            assert forall|rt: Ty| #[trigger] declared_return(*f, rt) implies rt == rt0 by {
                match f.return_type {
                    Some(n) => crate::types::lemma_denotes_unique(n, rt, rt0),
                    None => {},
                }
            }
        }
    }

    // ------------------------------------------------------------------
    // statements
    // ------------------------------------------------------------------

    fn gen_stmt(&mut self, stmt: &Statement)
        requires
            old(self).wf(),
        ensures
            final(self).grew(*old(self)),
            stmt matches Statement::Let { binding, .. } ==> visible(final(self).table) == visible(old(self).table).insert(
                binding.name@,
            ),
            undeclared_in_stmt(*stmt, visible(old(self).table), old(self).table.functions_view().dom())
                ==> final(self).errors@.len() > old(self).errors@.len(),
            !(stmt is Let) ==> scopes_kept(
                old(self).table.scopes_view(),
                final(self).table.scopes_view(),
                old(self).table.depth() as int,
            ),
            refused_stmt(*stmt, arities(old(self).table.functions_view()))
                ==> final(self).errors@.len() > old(self).errors@.len(),
            innermost_loop(old(self).func_ctx) is None && stray_jump_stmt(*stmt)
                ==> final(self).errors@.len() > old(self).errors@.len(),
            stmt is Continue ==> (innermost_loop(old(self).func_ctx) matches Some(ll) ==> continue_emitted(
                final(self).ir.code(),
                old(self).ir.code().len() as int,
                ll.cont@,
            )),
        decreases stmt, 2int,
    {
        match stmt {
            Statement::Empty => {},
            Statement::Let { binding, init } => self.gen_let(binding, init),
            Statement::Assign { .. } => self.gen_assign(stmt),
            Statement::Expr { expr } => {
                let _ = self.gen_expr(&**expr);
            },
            Statement::Return { value } => self.gen_return(value),
            Statement::While { .. } => self.gen_while(stmt),
            Statement::For { .. } => self.gen_for(stmt),
            Statement::Break { value } => self.gen_break(value),
            Statement::Continue => {
                self.gen_continue();
                proof {
                    let q = self.ir.code();
                    assert(q[q.len() - 1] == q.last());
                }
            },
        }
    }

    fn gen_let(&mut self, binding: &Binding, init: &Option<Box<Expr>>)
        requires
            old(self).wf(),
        ensures
            final(self).grew(*old(self)),
            (*init matches Some(x) && undeclared_use(*x, visible(old(self).table), old(self).table.functions_view().dom()))
                ==> final(self).errors@.len() > old(self).errors@.len(),
            visible(final(self).table) == visible(old(self).table).insert(binding.name@),
            (*init matches Some(x) && refused_expr(*x, arities(old(self).table.functions_view())))
                ==> final(self).errors@.len() > old(self).errors@.len(),
            innermost_loop(old(self).func_ctx) is None && (*init matches Some(x) && stray_jump(*x))
                ==> final(self).errors@.len() > old(self).errors@.len(),
            final(self).table.lookup_spec(binding.name@) matches Some(info) && info.mutable == binding.mutable
                && info.initialized == (init is Some),
            binding.ty matches Some(n) ==> crate::types::denotes(n, final(self).table.lookup_spec(binding.name@)->0.ty),
            binding.ty is None && init is None ==> final(self).table.lookup_spec(binding.name@)->0.ty == Ty::Unknown,
            init is None ==> final(self).ir.code() == old(self).ir.code(),
            init is Some ==> final(self).ir.code().last()@.0 == "="@ && final(self).ir.code().last()@.3 == binding.name@,
            *init matches Some(x) ==> (operand_place(*x, old(self).table) matches Some(p) ==> final(self).ir.code().last()@.1
                == p),
            *init matches Some(x) ==> (*x matches Expr::Binary { op, .. } ==> (op != BinaryOp::Range ==> {
                let q = final(self).ir.code();
                &&& q.len() >= 2
                &&& q.last()@.1 == q[q.len() - 2]@.3
            })),
            old(self).table.functions_view().contains_key(binding.name@) ==> reported(old(self).errors@,
                final(self).errors@, "标识符 `"@ + binding.name@ + "` 与现有函数同名，可能导致调用/取值二义性"@),
            *init matches Some(x) ==> (binding.ty is None ==> (static_type(*x, old(self).table) matches Some(t) ==> {
                &&& t is Unit ==> reported(old(self).errors@, final(self).errors@,
                    "无法用 `()` 初始化变量 `"@ + binding.name@ + "`：函数无返回值不可作为表达式（规则 3.5）"@)
                &&& !(t is Unit) && !(t is Array && t->Array_1 == 0) ==> final(self).table.lookup_spec(
                    binding.name@,
                )->0.ty == t
                &&& t is Array && t->Array_1 == 0 && !is_known_spec(*t->Array_0) ==> reported(
                    old(self).errors@,
                    final(self).errors@,
                    "变量 `"@ + binding.name@ + "` 无法推断类型：空数组字面量没有元素类型（规则 2.1）"@,
                )
            })),
            binding.ty matches Some(n) ==> (*init matches Some(x) ==> (static_type(*x, old(self).table) matches Some(t)
                ==> (forall|d: Ty|
                #[trigger] crate::types::denotes(n, d) && is_known_spec(d) && is_known_spec(t)
                    && !crate::types::compatible_spec(d, t) && !(d is Array && t is Array) && !(t is Function)
                    ==> reported(
                    old(self).errors@,
                    final(self).errors@,
                    "变量 `"@ + binding.name@ + "` 声明类型 "@ + display_spec(d) + " 与初始化表达式类型 "@ + display_spec(t)
                        + " 不匹配"@,
                )))),
            binding.ty matches Some(n) ==> (*init matches Some(x) ==> (static_type(*x, old(self).table) matches Some(t)
                ==> (forall|d: Ty|
                #[trigger] crate::types::denotes(n, d) && is_known_spec(d) && is_known_spec(t)
                    && !crate::types::compatible_spec(d, t) && d is Array && t is Array && d->Array_1 != t->Array_1
                    && is_known_spec(*t->Array_0) ==> reported(
                    old(self).errors@,
                    final(self).errors@,
                    "变量 `"@ + binding.name@ + "` 声明类型 "@ + display_spec(d) + " 与初始化表达式类型 "@ + display_spec(t)
                        + " 不匹配：数组长度不匹配（声明 "@ + decimal(d->Array_1) + "，实际 "@ + decimal(t->Array_1) + "）"@,
                )))),
            binding.ty matches Some(n) ==> (*init matches Some(x) ==> (*x matches Expr::Identifier { name } ==> (
            old(self).table.lookup_spec(name@) is None && old(self).table.functions_view().contains_key(name@) ==> (forall|
                d: Ty,
            |
                #[trigger] crate::types::denotes(n, d) && is_known_spec(d) && !crate::types::compatible_spec(d, Ty::Function)
                    ==> reported(
                    old(self).errors@,
                    final(self).errors@,
                    "变量 `"@ + binding.name@ + "` 的初始化表达式是函数 `"@ + name@ + "`：函数不能直接用作值（请加 `()` 调用）"@,
                ))))),
        decreases init, 0int,
    {
        proof {
            lemma_plain_ops();
        }
        let declared_ty: Option<Type> = match &binding.ty {
            Some(n) => Some(from_node(n)),
            None => None,
        };
        let ghost decl_view: Option<Ty> = if declared_ty is Some {
            Some(declared_ty->0@)
        } else {
            None
        };
        let (final_ty, initialized) = match init {
            Some(expr) => {
                let v = self.gen_expr(&**expr);
                let ghost c_v = self.ir.code();
                let ghost e_init = self.errors@;
                let init_ty = v.ty.clone();
                let ty = match &declared_ty {
                    Some(decl) => {
                        if !decl.compatible(&init_ty) && decl.is_known() && init_ty.is_known() {
                            match array_lengths(decl, &init_ty) {
                                Some((n1, n2)) if n1 != n2 => {
                                    // An empty literal has no element type of its own: it is
                                    // shown with the declared one.
                                    let shown = if is_empty_array(&init_ty) {
                                        match decl {
                                            Type::Array { element, .. } => Type::Array { element: element.clone(), length: 0 },
                                            _ => init_ty.clone(),
                                        }
                                    } else {
                                        init_ty.clone()
                                    };
                                    let d1 = decl.display();
                                    let d2 = shown.display();
                                    let l1 = usize_to_string(n1);
                                    let l2 = usize_to_string(n2);
                                    let m = cat(&["变量 `", binding.name.as_str(), "` 声明类型 ", d1.as_str(), " 与初始化表达式类型 ", d2.as_str(), " 不匹配：数组长度不匹配（声明 ", l1.as_str(), "，实际 ", l2.as_str(), "）"]);
                                    proof {
                                        reveal_with_fuel(concat, 12);
                                        lemma_reported_push(self.errors@, SemanticError { message: m });
                                        assert(reported(old(self).errors@, self.errors@.push(SemanticError { message: m }), m@));
                                    }
                                    self.error(m);
                                },
                                _ => {
                                    if is_function(&init_ty) {
                                        let m = cat(&["变量 `", binding.name.as_str(), "` 的初始化表达式是函数 `", v.place.as_str(), "`：函数不能直接用作值（请加 `()` 调用）"]);
                                        proof {
                                            reveal_with_fuel(concat, 6);
                                            lemma_reported_push(self.errors@, SemanticError { message: m });
                                            assert(reported(old(self).errors@, self.errors@.push(SemanticError { message: m }), m@));
                                        }
                                        self.error(m);
                                    } else {
                                        let d1 = decl.display();
                                        let d2 = init_ty.display();
                                        let m = cat(&["变量 `", binding.name.as_str(), "` 声明类型 ", d1.as_str(), " 与初始化表达式类型 ", d2.as_str(), " 不匹配"]);
                                        proof {
                                            reveal_with_fuel(concat, 8);
                                            lemma_reported_push(self.errors@, SemanticError { message: m });
                                            assert(reported(old(self).errors@, self.errors@.push(SemanticError { message: m }), m@));
                                        }
                                        self.error(m);
                                    }
                                },
                            }
                        }
                        decl.clone()
                    },
                    None => {
                        if is_unit(&init_ty) {
                            let m = cat(&["无法用 `()` 初始化变量 `", binding.name.as_str(), "`：函数无返回值不可作为表达式（规则 3.5）"]);
                            proof {
                                reveal_with_fuel(concat, 4);
                                lemma_reported_push(self.errors@, SemanticError { message: m });
                                assert(reported(old(self).errors@, self.errors@.push(SemanticError { message: m }), m@));
                            }
                            self.error(m);
                            Type::Error
                        } else if is_empty_array(&init_ty) {
                            let m = cat(&["变量 `", binding.name.as_str(), "` 无法推断类型：空数组字面量没有元素类型（规则 2.1）"]);
                            proof {
                                reveal_with_fuel(concat, 4);
                                lemma_reported_push(self.errors@, SemanticError { message: m });
                                assert(reported(old(self).errors@, self.errors@.push(SemanticError { message: m }), m@));
                            }
                            self.error(m);
                            Type::Error
                        } else {
                            init_ty.clone()
                        }
                    },
                };
                self.emit_plain("=", v.place.as_str(), PLACEHOLDER, binding.name.as_str());
                proof {
                    let q = self.ir.code();
                    if c_v.len() > 0 {
                        assert(q[q.len() - 2] == c_v.last());
                    }
                }
                (ty, true)
            },
            None => {
                let ty = match declared_ty {
                    Some(t) => t,
                    None => Type::Unknown,
                };
                (ty, false)
            },
        };
        let ghost c1 = self.ir.code();
        let ghost e_mid = self.errors@;
        proof {
            crate::symbol::lemma_visible_kept(old(self).table, self.table);
        }
        if self.table.lookup_function(binding.name.as_str()).is_some() {
            let m = cat(&["标识符 `", binding.name.as_str(), "` 与现有函数同名，可能导致调用/取值二义性"]);
            proof {
                reveal_with_fuel(concat, 4);
                lemma_reported_push(self.errors@, SemanticError { message: m });
            }
            self.error(m);
        }
        let sym = VarSymbol::new(binding.name.clone(), final_ty, binding.mutable, initialized);
        let ghost t0 = self.table;
        self.table.declare(sym);
        proof {
            crate::symbol::law_declare_then_lookup(t0, self.table, sym, binding.name@);
            assert forall|n: Seq<char>|
                #[trigger] visible(self.table).contains(n) == visible(t0).insert(binding.name@).contains(n) by {
                crate::symbol::law_declare_then_lookup(t0, self.table, sym, n);
            }
            assert(visible(self.table) =~= visible(old(self).table).insert(binding.name@));
            lemma_reported_kept_all(old(self).errors@, e_mid, self.errors@);
            if binding.ty is Some {
                let n = binding.ty->0;
                assert forall|d: Ty| #[trigger] crate::types::denotes(n, d) implies d == decl_view->0 by {
                    crate::types::lemma_denotes_unique(n, d, decl_view->0);
                }
            }
        }
        assert(self.ir.code() == c1);
    }

    fn gen_assign(&mut self, stmt: &Statement)
        requires
            old(self).wf(),
        ensures
            final(self).grew(*old(self)),
            stmt is Assign && undeclared_in_stmt(*stmt, visible(old(self).table), old(self).table.functions_view().dom())
                ==> final(self).errors@.len() > old(self).errors@.len(),
            scopes_kept(
                old(self).table.scopes_view(),
                final(self).table.scopes_view(),
                old(self).table.depth() as int,
            ),
            stmt is Assign && refused_stmt(*stmt, arities(old(self).table.functions_view()))
                ==> final(self).errors@.len() > old(self).errors@.len(),
            innermost_loop(old(self).func_ctx) is None && stmt is Assign && stray_jump_stmt(*stmt)
                ==> final(self).errors@.len() > old(self).errors@.len(),
            stmt matches Statement::Assign { target, .. } ==> (**target matches Expr::Identifier { name } ==> {
                &&& final(self).table.lookup_spec(name@) is None ==> reported(old(self).errors@, final(self).errors@,
                    "变量 `"@ + name@ + "` 未声明（规则 2.2）"@)
                &&& final(self).table.lookup_spec(name@) matches Some(info) ==> info.initialized
                    && final(self).ir.code().last()@.0 == "="@ && final(self).ir.code().last()@.3 == name@
                &&& old(self).table.lookup_spec(name@) is None ==> reported(old(self).errors@, final(self).errors@,
                    "变量 `"@ + name@ + "` 未声明（规则 2.2）"@)
                &&& old(self).table.lookup_spec(name@) matches Some(info) ==> (info.initialized && !info.mutable
                    ==> reported(old(self).errors@, final(self).errors@, "不可变变量 `"@ + name@ + "` 不能再次赋值（规则 6.1）"@))
            }),
            stmt matches Statement::Assign { target, value } ==> (simple_operand(**value) ==> (static_type(
                **value,
                old(self).table,
            ) matches Some(t) ==> (**target matches Expr::Identifier { name } ==> (old(self).table.lookup_spec(name@) matches Some(
                info,
            ) ==> {
                &&& is_known_spec(info.ty) && is_known_spec(t) && !crate::types::compatible_spec(info.ty, t) ==> reported(
                    old(self).errors@,
                    final(self).errors@,
                    "变量 `"@ + name@ + "` 类型 "@ + display_spec(info.ty) + " 与表达式类型 "@ + display_spec(t) + " 不匹配（规则 2.2）"@,
                )
                &&& !is_known_spec(info.ty) && !(t is Unit) ==> final(self).table.lookup_spec(name@)->0.ty == t
            })))),
            stmt matches Statement::Assign { target, value } ==> (simple_operand(**value) ==> (static_type(
                **value,
                old(self).table,
            ) matches Some(t) ==> (**target matches Expr::Unary { op: UnaryOp::Deref, expr: inner } ==> (*inner matches Expr::Identifier {
                name,
            } ==> (old(self).table.lookup_spec(name@) matches Some(info) ==> {
                &&& info.ty matches Ty::Ref(m, _) ==> (!m ==> reported(old(self).errors@, final(self).errors@,
                    "不能通过不可变引用修改数据（规则 6.4）"@))
                &&& info.ty matches Ty::Ref(m, pointee) ==> (m && is_known_spec(*pointee) && is_known_spec(t)
                    && !crate::types::compatible_spec(*pointee, t) ==> reported(
                    old(self).errors@,
                    final(self).errors@,
                    "解引用赋值：目标类型 "@ + display_spec(*pointee) + " 与表达式类型 "@ + display_spec(t) + " 不匹配（规则 6.4）"@,
                ))
                &&& !(info.ty is Ref) && is_known_spec(info.ty) ==> reported(
                    old(self).errors@,
                    final(self).errors@,
                    "无法解引用非引用类型 "@ + display_spec(info.ty) + "（规则 6.4）"@,
                )
            }))))),
            stmt matches Statement::Assign { target, value } ==> (**target matches Expr::Identifier { name } ==> (
            clean_operand(**value, old(self).table) ==> match old(self).table.lookup_spec(name@) {
                None => final(self).errors@.len() == old(self).errors@.len() + 1 && final(self).ir.code()
                    == old(self).ir.code() && final(self).table == old(self).table,
                Some(info) => {
                    let t = static_type(**value, old(self).table)->0;
                    &&& final(self).errors@.len() == old(self).errors@.len() + (if info.initialized && !info.mutable {
                        1int
                    } else {
                        0int
                    }) + (if is_known_spec(info.ty) {
                        if is_known_spec(t) && !compatible_spec(info.ty, t) {
                            1int
                        } else {
                            0int
                        }
                    } else if t is Unit {
                        1int
                    } else {
                        0int
                    })
                    &&& final(self).ir.code() == old(self).ir.code().push(final(self).ir.code().last())
                    &&& final(self).ir.code().last()@ == ("="@, operand_place(**value, old(self).table)->0, PLACEHOLDER@, name@)
                    &&& final(self).table.lookup_spec(name@) == Some(SymInfo {
                        ty: if is_known_spec(info.ty) {
                            info.ty
                        } else if t is Unit {
                            Ty::Error
                        } else {
                            t
                        },
                        mutable: info.mutable,
                        initialized: true,
                    })
                },
            })),
            stmt matches Statement::Assign { target, value } ==> (simple_operand(**value) && operand_place(
                **value,
                old(self).table,
            ) is Some ==> (store_target(**target, old(self).table) matches Some(st) ==> final(self).ir.code().last()@
                == (st.0, operand_place(**value, old(self).table)->0, st.1, st.2))),
            stmt matches Statement::Assign { target, value } ==> (clean_operand(**value, old(self).table)
                && fitting_element_store(**target, **value, old(self).table) ==> final(self).errors@ == old(
                self,
            ).errors@),
            stmt matches Statement::Assign { target, value } ==> (clean_operand(**value, old(self).table) ==> (
            fitting_deref_store(**target, **value, old(self).table) matches Some(pn) ==> final(self).errors@ == old(
                self,
            ).errors@ && final(self).ir.code().last()@ == ("*="@, operand_place(**value, old(self).table)->0,
                PLACEHOLDER@, pn))),
            stmt matches Statement::Assign { target, .. } ==> ((**target is Index || **target is Field) ==> (root_ident(
                **target,
            ) matches Some(n) ==> (old(self).table.lookup_spec(n) matches Some(info) ==> (!info.mutable ==> reported(
                old(self).errors@,
                final(self).errors@,
                "不可变变量 `"@ + n + "` 的元素不能被赋值（规则 8.3/9.3）"@,
            ))))),
            stmt matches Statement::Assign { target, value } ==> (**target is Identifier && final(self).table.lookup_spec(
                target->Identifier_name@,
            ) is Some ==> (**value matches Expr::Binary { op, .. } ==> (op != BinaryOp::Range ==> {
                let q = final(self).ir.code();
                &&& q.len() >= 2
                &&& q.last()@.1 == q[q.len() - 2]@.3
            }))),
            stmt matches Statement::Assign { target, .. } ==> (!crate::ast::assignable(**target) ==> reported(
                old(self).errors@,
                final(self).errors@,
                "赋值语句左侧不是合法左值"@,
            )),
        decreases stmt, 1int,
    {
        proof {
            lemma_plain_ops();
        }
        let (target, value) = match stmt {
            Statement::Assign { target, value } => (&**target, &**value),
            _ => {
                return;
            },
        };
        let value_val = self.gen_expr(value);
        let ghost c_v = self.ir.code();
        match target {
            Expr::Identifier { name } => {
                proof {
                    crate::symbol::lemma_lookup_kept(old(self).table.scopes_view(), self.table.scopes_view(), name@);
                }
                let info = match self.table.lookup(name.as_str()) {
                    Some(s) => Some((s.ty.clone(), s.mutable, s.initialized)),
                    None => None,
                };
                let (cur_ty, mutable, initialized) = match info {
                    Some(x) => x,
                    None => {
                        let m = cat(&["变量 `", name.as_str(), "` 未声明（规则 2.2）"]);
                        proof {
                            reveal_with_fuel(concat, 4);
                            lemma_reported_push(self.errors@, SemanticError { message: m });
                        }
                        self.error(m);
                        return;
                    },
                };
                let ghost m_imm = "不可变变量 `"@ + name@ + "` 不能再次赋值（规则 6.1）"@;
                if initialized && !mutable {
                    let m = cat(&["不可变变量 `", name.as_str(), "` 不能再次赋值（规则 6.1）"]);
                    proof {
                        reveal_with_fuel(concat, 4);
                        lemma_reported_push(self.errors@, SemanticError { message: m });
                        assert(reported(old(self).errors@, self.errors@.push(SemanticError { message: m }), m_imm));
                    }
                    self.error(m);
                }
                let ghost e_imm = self.errors@;
                let new_ty = if cur_ty.is_known() {
                    if !cur_ty.compatible(&value_val.ty) && value_val.ty.is_known() {
                        let d1 = cur_ty.display();
                        let d2 = value_val.ty.display();
                        let m = cat(&["变量 `", name.as_str(), "` 类型 ", d1.as_str(), " 与表达式类型 ", d2.as_str(), " 不匹配（规则 2.2）"]);
                        proof {
                            reveal_with_fuel(concat, 8);
                            lemma_reported_push(self.errors@, SemanticError { message: m });
                            assert(reported(old(self).errors@, self.errors@.push(SemanticError { message: m }), m@));
                        }
                        self.error(m);
                    }
                    cur_ty
                } else {
                    if is_unit(&value_val.ty) {
                        let m = cat(&["无法用 `()` 初始化变量 `", name.as_str(), "`：函数无返回值不可作为表达式"]);
                        self.error(m);
                        Type::Error
                    } else {
                        value_val.ty.clone()
                    }
                };
                let ghost e_ty = self.errors@;
                self.table.assign_binding(name.as_str(), new_ty);
                self.emit_plain("=", value_val.place.as_str(), PLACEHOLDER, name.as_str());
                proof {
                    let q = self.ir.code();
                    if c_v.len() > 0 {
                        assert(q[q.len() - 2] == c_v.last());
                    }
                    if initialized && !mutable {
                        lemma_reported_kept(old(self).errors@, e_imm, self.errors@, m_imm);
                    }
                    lemma_reported_kept_all(old(self).errors@, e_ty, self.errors@);
                }
            },
            Expr::Unary { op: UnaryOp::Deref, expr } => {
                let inner = self.gen_expr(&**expr);
                match &inner.ty {
                    Type::Ref { mutable: true, inner: pointee } => {
                        if pointee.is_known() && value_val.ty.is_known() && !pointee.compatible(&value_val.ty) {
                            let d1 = pointee.display();
                            let d2 = value_val.ty.display();
                            let m = cat(&["解引用赋值：目标类型 ", d1.as_str(), " 与表达式类型 ", d2.as_str(), " 不匹配（规则 6.4）"]);
                            proof {
                                reveal_with_fuel(concat, 6);
                                lemma_reported_push(self.errors@, SemanticError { message: m });
                                assert(reported(old(self).errors@, self.errors@.push(SemanticError { message: m }), m@));
                            }
                            self.error(m);
                        }
                        self.emit_plain("*=", value_val.place.as_str(), PLACEHOLDER, inner.place.as_str());
                    },
                    Type::Ref { mutable: false, .. } => {
                        let m = String::from_str("不能通过不可变引用修改数据（规则 6.4）");
                        proof {
                            lemma_reported_push(self.errors@, SemanticError { message: m });
                            assert(reported(old(self).errors@, self.errors@.push(SemanticError { message: m }), m@));
                        }
                        self.error(m);
                    },
                    other => {
                        if other.is_known() {
                            let d = other.display();
                            let m = cat(&["无法解引用非引用类型 ", d.as_str(), "（规则 6.4）"]);
                            proof {
                                reveal_with_fuel(concat, 4);
                                lemma_reported_push(self.errors@, SemanticError { message: m });
                            }
                            self.error(m);
                        }
                    },
                }
            },
            Expr::Index { .. } | Expr::Field { .. } => {
                proof {
                    reveal_with_fuel(root_ident, 2);
                }
                match root_identifier(target) {
                    Some(name) => {
                        proof {
                            crate::symbol::lemma_lookup_kept(old(self).table.scopes_view(), self.table.scopes_view(), name@);
                        }
                        let immutable = match self.table.lookup(name) {
                            Some(sym) => !sym.mutable,
                            None => false,
                        };
                        if immutable {
                            let m = cat(&["不可变变量 `", name, "` 的元素不能被赋值（规则 8.3/9.3）"]);
                            proof {
                                reveal_with_fuel(concat, 4);
                                lemma_reported_push(self.errors@, SemanticError { message: m });
                            }
                            self.error(m);
                        }
                    },
                    None => {},
                }
                let ghost e_imm = self.errors@;
                // The element is stored into its aggregate (`[]=` or `.=`),
                // then each enclosing aggregate gets the modified one back.
                let ghost fits = clean_operand(*value, old(self).table) && fitting_element_store(*target, *value, old(self).table);
                assert(fits ==> self.errors@ == old(self).errors@ && self.table == old(self).table);
                let mut writes: Vec<(&'static str, String, String, String)> = Vec::new();
                let stored: Option<Type> = match target {
                    Expr::Index { base, index } => {
                        let c = self.gen_container(&**base, &mut writes);
                        assert(fits ==> self.errors@ == old(self).errors@ && self.table == old(self).table);
                        let i = self.gen_expr(&**index);
                        assert(fits ==> self.errors@ == old(self).errors@ && i.ty@ == Ty::I32 && c.ty@ is Array);
                        match self.check_index(&c, &i, &**base, &**index) {
                            Some(elem_ty) => {
                                self.emit_plain("[]=", value_val.place.as_str(), i.place.as_str(), c.place.as_str());
                                Some(elem_ty)
                            },
                            None => None,
                        }
                    },
                    Expr::Field { base, field } => {
                        let c = self.gen_container(&**base, &mut writes);
                        assert(fits ==> self.errors@ == old(self).errors@ && c.ty@ is Tuple);
                        match self.check_field(&c.ty, field.as_str()) {
                            Some(elem_ty) => {
                                self.emit_plain(".=", value_val.place.as_str(), field.as_str(), c.place.as_str());
                                Some(elem_ty)
                            },
                            None => None,
                        }
                    },
                    _ => None,
                };
                assert(fits ==> self.errors@ == old(self).errors@ && stored is Some && writes@.len() == 0);
                let ghost e_w = self.errors@;
                let ghost c_w = self.ir.code();
                let mut k: usize = writes.len();
                while k > 0
                    invariant
                        k <= writes@.len(),
                        writes@.len() == 0 ==> self.ir.code() == c_w && self.errors@ == e_w,
                        self.grew(*old(self)),
                        scopes_kept(old(self).table.scopes_view(), self.table.scopes_view(), old(self).table.depth() as int),
                        prefix_of(e_w, self.errors@),
                        forall|j: int| 0 <= j < writes@.len() ==> plain_op((#[trigger] writes@[j]).0@),
                    decreases k,
                {
                    k = k - 1;
                    let w = &writes[k];
                    self.emit_plain(w.0, w.3.as_str(), w.1.as_str(), w.2.as_str());
                }
                match stored {
                    Some(slot_ty) => {
                        if slot_ty.is_known() && value_val.ty.is_known() && !slot_ty.compatible(&value_val.ty) {
                            let d1 = slot_ty.display();
                            let d2 = value_val.ty.display();
                            let m = cat(&["赋值目标类型 ", d1.as_str(), " 与表达式类型 ", d2.as_str(), " 不匹配"]);
                            self.error(m);
                        }
                    },
                    None => {},
                }
                proof {
                    lemma_reported_kept_all(old(self).errors@, e_imm, self.errors@);
                }
            },
            _ => {
                let m = String::from_str("赋值语句左侧不是合法左值");
                proof {
                    lemma_reported_push(self.errors@, SemanticError { message: m });
                }
                self.error(m);
            },
        }
    }

    fn gen_return(&mut self, value: &Option<Box<Expr>>)
        requires
            old(self).wf(),
        ensures
            final(self).grew(*old(self)),
            (*value matches Some(x) && undeclared_use(*x, visible(old(self).table), old(self).table.functions_view().dom()))
                ==> final(self).errors@.len() > old(self).errors@.len(),
            scopes_kept(
                old(self).table.scopes_view(),
                final(self).table.scopes_view(),
                old(self).table.depth() as int,
            ),
            (*value matches Some(x) && refused_expr(*x, arities(old(self).table.functions_view())))
                ==> final(self).errors@.len() > old(self).errors@.len(),
            innermost_loop(old(self).func_ctx) is None && (*value matches Some(x) && stray_jump(*x))
                ==> final(self).errors@.len() > old(self).errors@.len(),
            final(self).ir.code().last()@.0 == "RETURN"@,
            value is None ==> final(self).ir.code().last()@ == ("RETURN"@, PLACEHOLDER@, PLACEHOLDER@, PLACEHOLDER@),
            *value matches Some(x) ==> (operand_place(*x, old(self).table) matches Some(p) ==> final(self).ir.code().last()@
                == ("RETURN"@, p, PLACEHOLDER@, PLACEHOLDER@)),
            *value matches Some(x) ==> (*x matches Expr::Binary { op, .. } ==> (op != BinaryOp::Range ==> {
                let q = final(self).ir.code();
                &&& q.len() >= 2
                &&& q.last()@.1 == q[q.len() - 2]@.3
            })),
            value is None && !(expected_return(old(self).func_ctx) is Unit) ==> reported(old(self).errors@,
                final(self).errors@, "函数声明返回类型 "@ + display_spec(expected_return(old(self).func_ctx))
                    + "，return 必须带表达式（规则 1.5）"@),
            value is None && expected_return(old(self).func_ctx) is Unit ==> final(self).errors == old(self).errors,
            *value matches Some(x) ==> (static_type(*x, old(self).table) matches Some(t) ==> {
                let expected = expected_return(old(self).func_ctx);
                &&& expected is Unit && is_known_spec(t) && !(t is Unit) ==> reported(old(self).errors@,
                    final(self).errors@, "函数无返回类型，return 不能带表达式（规则 1.5）"@)
                &&& !(expected is Unit) && is_known_spec(expected) && is_known_spec(t)
                    && !crate::types::compatible_spec(expected, t) ==> reported(
                    old(self).errors@,
                    final(self).errors@,
                    "return 表达式类型 "@ + display_spec(t) + " 与函数声明返回类型 "@ + display_spec(expected)
                        + " 不一致（规则 1.5）"@,
                )
            }),
        decreases value, 0int,
    {
        proof {
            lemma_plain_ops();
        }
        let expected = match &self.func_ctx {
            Some(c) => c.return_type.clone(),
            None => Type::Unit,
        };
        match value {
            Some(expr) => {
                let v = self.gen_expr(&**expr);
                let ghost c_v = self.ir.code();
                if is_unit(&expected) {
                    if v.ty.is_known() && !is_unit(&v.ty) {
                        let m = String::from_str("函数无返回类型，return 不能带表达式（规则 1.5）");
                        proof {
                            lemma_reported_push(self.errors@, SemanticError { message: m });
                            assert(reported(old(self).errors@, self.errors@.push(SemanticError { message: m }), m@));
                        }
                        self.error(m);
                    }
                } else if !expected.compatible(&v.ty) && v.ty.is_known() && expected.is_known() {
                    let d1 = v.ty.display();
                    let d2 = expected.display();
                    let m = cat(&["return 表达式类型 ", d1.as_str(), " 与函数声明返回类型 ", d2.as_str(), " 不一致（规则 1.5）"]);
                    proof {
                        reveal_with_fuel(concat, 6);
                        lemma_reported_push(self.errors@, SemanticError { message: m });
                        assert(reported(old(self).errors@, self.errors@.push(SemanticError { message: m }), m@));
                    }
                    self.error(m);
                }
                self.emit_plain("RETURN", v.place.as_str(), PLACEHOLDER, PLACEHOLDER);
                proof {
                    let q = self.ir.code();
                    if c_v.len() > 0 {
                        assert(q[q.len() - 2] == c_v.last());
                    }
                }
            },
            None => {
                if !is_unit(&expected) {
                    let d = expected.display();
                    let m = cat(&["函数声明返回类型 ", d.as_str(), "，return 必须带表达式（规则 1.5）"]);
                    proof {
                        reveal_with_fuel(concat, 4);
                        lemma_reported_push(self.errors@, SemanticError { message: m });
                    }
                    self.error(m);
                }
                let ghost e1 = self.errors@;
                self.emit_plain("RETURN", PLACEHOLDER, PLACEHOLDER, PLACEHOLDER);
                assert(self.errors@ == e1);
            },
        }
    }

    /// Enters a loop: its labels become the targets of `break`/`continue`,
    /// and for a `loop` expression its value's place is recorded.
    fn enter_loop(&mut self, start: String, end: String, result_place: Option<String>)
        requires
            old(self).wf(),
            start@ != PLACEHOLDER@,
            end@ != PLACEHOLDER@,
            covered(old(self).ir.code(), old(self).pending@, start@),
            covered(old(self).ir.code(), old(self).pending@, end@),
        ensures
            final(self).wf(),
            final(self).pending == old(self).pending,
            final(self).errors == old(self).errors,
            final(self).ir == old(self).ir,
            final(self).table == old(self).table,
            final(self).borrow_scopes == old(self).borrow_scopes,
            ctx_shape(final(self).func_ctx) == (match ctx_shape(old(self).func_ctx) {
                Some((t, l, e)) => Some((t, l + 1, if result_place is Some { e + 1 } else { e })),
                None => None::<(Ty, nat, nat)>,
            }),
            old(self).func_ctx is Some ==> loop_targets(final(self).func_ctx) == loop_targets(old(self).func_ctx).push(
                LoopLabels { cont: start, end, is_expr: result_place is Some },
            ),
            old(self).func_ctx is None ==> final(self).func_ctx is None,
    {
        let ghost q = self.ir.code();
        let ghost p = self.pending@;
        match &mut self.func_ctx {
            Some(ctx) => {
                let ghost before = ctx.loop_labels@;
                ctx.loop_labels.push(LoopLabels { cont: start, end, is_expr: result_place.is_some() });
                assert forall|k: int| 0 <= k < ctx.loop_labels@.len() implies {
                    let ll = #[trigger] ctx.loop_labels@[k];
                    &&& covered(q, p, ll.cont@)
                    &&& covered(q, p, ll.end@)
                    &&& ll.cont@ != PLACEHOLDER@
                    &&& ll.end@ != PLACEHOLDER@
                } by {
                    if k < before.len() {
                        assert(ctx.loop_labels@[k] == before[k]);
                    }
                }
                match result_place {
                    Some(p) => {
                        ctx.loop_exprs.push(LoopExprCtx { result_place: p, break_type: None });
                    },
                    None => {},
                }
            },
            None => {},
        }
    }

    /// Leaves a loop entered by `enter_loop`, giving the type of the first
    /// `break` value of a `loop` expression.
    fn leave_loop(&mut self, is_expr: bool) -> (r: Option<Type>)
        requires
            old(self).wf(),
            old(self).func_ctx matches Some(c) ==> c.loop_labels@.len() >= 1 && (is_expr ==> c.loop_exprs@.len() >= 1),
        ensures
            final(self).wf(),
            final(self).pending == old(self).pending,
            final(self).errors == old(self).errors,
            final(self).ir == old(self).ir,
            final(self).table == old(self).table,
            final(self).borrow_scopes == old(self).borrow_scopes,
            ctx_shape(final(self).func_ctx) == (match ctx_shape(old(self).func_ctx) {
                Some((t, l, e)) => Some((t, (l - 1) as nat, if is_expr { (e - 1) as nat } else { e })),
                None => None::<(Ty, nat, nat)>,
            }),
            old(self).func_ctx is Some ==> loop_targets(final(self).func_ctx) == loop_targets(old(self).func_ctx).drop_last(),
            old(self).func_ctx is None ==> final(self).func_ctx is None,
    {
        match &mut self.func_ctx {
            Some(ctx) => {
                ctx.loop_labels.pop();
                if is_expr {
                    match ctx.loop_exprs.pop() {
                        Some(le) => le.break_type,
                        None => None,
                    }
                } else {
                    None
                }
            },
            None => None,
        }
    }

    /// `while condition { body }`: the condition is tested at the start
    /// label; `continue` goes there and `break` to the end label.
    fn gen_while(&mut self, stmt: &Statement)
        requires
            old(self).wf(),
        ensures
            final(self).grew(*old(self)),
            stmt is While && undeclared_in_stmt(*stmt, visible(old(self).table), old(self).table.functions_view().dom())
                ==> final(self).errors@.len() > old(self).errors@.len(),
            scopes_kept(
                old(self).table.scopes_view(),
                final(self).table.scopes_view(),
                old(self).table.depth() as int,
            ),
            stmt is While && refused_stmt(*stmt, arities(old(self).table.functions_view()))
                ==> final(self).errors@.len() > old(self).errors@.len(),
            innermost_loop(old(self).func_ctx) is None && stmt is While && stray_jump_stmt(*stmt)
                ==> final(self).errors@.len() > old(self).errors@.len(),
            stmt matches Statement::While { condition, .. } ==> (static_type(**condition, old(self).table) matches Some(
                t,
            ) ==> (is_known_spec(t) && !(t is Bool || t is I32) ==> reported(
                old(self).errors@,
                final(self).errors@,
                condition_message("while"@, t),
            ))),
            stmt is While ==> loop_frame(final(self).ir.code(), old(self).ir.code().len() as int),
            stmt matches Statement::While { condition, .. } ==> exists|k: int|
                old(self).ir.code().len() < k < final(self).ir.code().len() - 2
                    && (#[trigger] final(self).ir.code()[k])@.0 == "IF_FALSE"@ && final(self).ir.code()[k]@.3
                    == final(self).ir.code().last()@.1 && (operand_place(**condition, old(self).table) matches Some(pc)
                    ==> final(self).ir.code()[k]@.1 == pc) && (**condition matches Expr::Binary { op, .. } ==> (op
                    != BinaryOp::Range ==> final(self).ir.code()[k]@.1 == final(self).ir.code()[k - 1]@.3)),
        decreases stmt, 1int,
    {
        proof {
            lemma_plain_ops();
        }
        let (condition, body) = match stmt {
            Statement::While { condition, body } => (&**condition, body),
            _ => {
                return;
            },
        };
        let label_start = self.ir.new_label();
        let ghost l1 = self.ir.labels();
        proof {
            lemma_label_not_placeholder(self.ir.labels() as nat);
        }
        let label_end = self.ir.new_label();
        proof {
            lemma_label_not_placeholder(self.ir.labels() as nat);
            lemma_label_names_distinct(l1 as nat, self.ir.labels() as nat);
        }
        let ghost p0 = self.pending@;
        let ghost extra = set![label_end@];
        let ghost n0 = self.ir.code().len() as int;
        self.define_label(label_start.as_str());
        let ghost c1 = self.ir.code();
        let cond = self.gen_expr(condition);
        self.check_condition_type(&cond.ty, "while");
        let ghost e1 = self.errors@;
        proof {
            lemma_widen(self.func_ctx, self.ir.code(), p0, extra);
        }
        self.pending = Ghost(p0.union(extra));
        let ghost kf = self.ir.code().len() as int;
        let ghost c_cond = self.ir.code();
        self.emit_jump("IF_FALSE", cond.place.as_str(), label_end.as_str());
        let ghost c2 = self.ir.code();
        proof {
            lemma_label_defined_extend(c1, self.ir.code(), label_start@);
        }
        let ghost targets0 = loop_targets(self.func_ctx);
        self.enter_loop(label_start.clone(), label_end.clone(), None);
        self.gen_block_stmt(body);
        let _ = self.leave_loop(false);
        proof {
            if self.func_ctx is Some {
                assert(loop_targets(self.func_ctx) =~= targets0);
            }
        }
        proof {
            lemma_label_defined_extend(c1, self.ir.code(), label_start@);
        }
        self.emit_jump("GOTO", PLACEHOLDER, label_start.as_str());
        self.define_label(label_end.as_str());
        proof {
            lemma_settle(self.func_ctx, self.ir.code(), p0, extra);
        }
        self.pending = Ghost(p0);
        let ghost q = self.ir.code();
        assert(q[n0] == c1[n0]);
        assert(q[kf] == c2[kf]);
        assert(loop_frame(q, n0));
        assert(q[kf - 1] == c_cond[kf - 1]);
        assert(q[kf]@.1 == cond.place@);
        assert(operand_place(*condition, old(self).table) matches Some(pc) ==> cond.place@ == pc);
        assert(condition matches Expr::Binary { op, .. } ==> (op != BinaryOp::Range ==> c_cond.last()@.3 == cond.place@));
        proof {
            if let Some(t) = static_type(*condition, old(self).table) {
                if is_known_spec(t) && !(t is Bool || t is I32) {
                    lemma_reported_kept(old(self).errors@, e1, self.errors@,
                        condition_message("while"@, t));
                }
            }
        }
    }

    /// Evaluates the iterable of a `for`: a range `a..b` of integers, or an
    /// array. Gives whether it can be iterated, the element type, the start
    /// and bound of the counter, and the array's place for an array.
    fn gen_iterable(&mut self, iterable: &Expr) -> (r: (bool, Type, String, String, Option<String>))
        requires
            old(self).wf(),
        ensures
            final(self).grew(*old(self)),
            scopes_kept(
                old(self).table.scopes_view(),
                final(self).table.scopes_view(),
                old(self).table.depth() as int,
            ),
            undeclared_use(*iterable, visible(old(self).table), old(self).table.functions_view().dom())
                ==> final(self).errors@.len() > old(self).errors@.len(),
            refused_expr(*iterable, arities(old(self).table.functions_view()))
                ==> final(self).errors@.len() > old(self).errors@.len(),
            innermost_loop(old(self).func_ctx) is None && stray_jump(*iterable)
                ==> final(self).errors@.len() > old(self).errors@.len(),
            !r.0 ==> final(self).errors@.len() > old(self).errors@.len(),
            iterable matches Expr::Binary { left, op, right } ==> (*op == BinaryOp::Range ==> {
                &&& r.0 && r.1@ == Ty::I32 && r.4 is None
                &&& operand_place(**left, old(self).table) matches Some(pa) ==> r.2@ == pa
                &&& simple_operand(**left) ==> (operand_place(**right, old(self).table) matches Some(pb) ==> r.3@ == pb)
            }),
            !(iterable matches Expr::Binary { op, .. } && op == BinaryOp::Range) ==> (static_type(
                *iterable,
                old(self).table,
            ) matches Some(t) ==> if t is Array {
                &&& r.0 && r.1@ == *t->Array_0
                &&& r.2@ == "0"@ && r.3@ == decimal(t->Array_1)
                &&& r.4 matches Some(p) && (operand_place(*iterable, old(self).table) matches Some(pa) ==> p@ == pa)
            } else {
                !r.0
            }),
            iterable_reported(*iterable, old(self).table, old(self).errors@, final(self).errors@),
        decreases iterable, 3int,
    {
        match iterable {
            Expr::Binary { left, op: BinaryOp::Range, right } => {
                let l = self.gen_expr(&**left);
                let r = self.gen_expr(&**right);
                let ghost e1 = self.errors@;
                if l.ty.is_known() && !l.ty.is_integer() {
                    let d = l.ty.display();
                    let m = cat(&["for 迭代结构起点类型 ", d.as_str(), " 不是整数（规则 5.2）"]);
                    proof {
                        reveal_with_fuel(concat, 4);
                        lemma_reported_push(self.errors@, SemanticError { message: m });
                    }
                    self.error(m);
                }
                let ghost e2 = self.errors@;
                if r.ty.is_known() && !r.ty.is_integer() {
                    let d = r.ty.display();
                    let m = cat(&["for 迭代结构终点类型 ", d.as_str(), " 不是整数（规则 5.2）"]);
                    proof {
                        reveal_with_fuel(concat, 4);
                        lemma_reported_push(self.errors@, SemanticError { message: m });
                    }
                    self.error(m);
                }
                proof {
                    if is_known_spec(l.ty@) && !(l.ty@ is I32) {
                        lemma_reported_kept(old(self).errors@, e2, self.errors@,
                            "for 迭代结构起点类型 "@ + display_spec(l.ty@) + " 不是整数（规则 5.2）"@);
                    }
                }
                (true, Type::I32, l.place, r.place, None)
            },
            other => {
                let v = self.gen_expr(other);
                match &v.ty {
                    Type::Array { element, length } => {
                        let n = usize_to_string(*length);
                        (true, (**element).clone(), String::from_str("0"), n, Some(v.place.clone()))
                    },
                    _ => {
                        let d = v.ty.display();
                        let m = cat(&["for 迭代结构必须是范围 `a..b` 或数组（实际类型 ", d.as_str(), "）"]);
                        proof {
                            reveal_with_fuel(concat, 4);
                            lemma_reported_push(self.errors@, SemanticError { message: m });
                        }
                        self.error(m);
                        (false, Type::Error, String::from_str(PLACEHOLDER), String::from_str(PLACEHOLDER), None)
                    },
                }
            },
        }
    }

    /// `for binding in iterable { body }` over a range `a..b` or an array.
    /// The loop variable (or, for an array, a hidden index) is compared with
    /// the bound before each pass; `continue` goes to the increment. An
    /// iterable of another kind is reported and only the body is analyzed.
    #[verifier::rlimit(40)]
    fn gen_for(&mut self, stmt: &Statement)
        requires
            old(self).wf(),
        ensures
            final(self).grew(*old(self)),
            stmt is For && undeclared_in_stmt(*stmt, visible(old(self).table), old(self).table.functions_view().dom())
                ==> final(self).errors@.len() > old(self).errors@.len(),
            scopes_kept(
                old(self).table.scopes_view(),
                final(self).table.scopes_view(),
                old(self).table.depth() as int,
            ),
            stmt is For && refused_stmt(*stmt, arities(old(self).table.functions_view()))
                ==> final(self).errors@.len() > old(self).errors@.len(),
            innermost_loop(old(self).func_ctx) is None && stmt is For && stray_jump_stmt(*stmt)
                ==> final(self).errors@.len() > old(self).errors@.len(),
            stmt is For ==> (exists|n1: int|
                old(self).ir.code().len() <= n1 && #[trigger] counted_loop_frame(final(self).ir.code(), n1))
                || final(self).errors@.len() > old(self).errors@.len(),
            stmt matches Statement::For { binding, iterable, .. } ==> (**iterable matches Expr::Binary {
                op: BinaryOp::Range,
                ..
            } ==> (exists|n1: int|
                old(self).ir.code().len() <= n1 && #[trigger] counted_loop_frame(final(self).ir.code(), n1))
                && final(self).ir.code()[final(self).ir.code().len() - 4]@.1 == binding.name@),
            stmt matches Statement::For { binding, iterable, .. } ==> (**iterable matches Expr::Binary {
                left,
                op: BinaryOp::Range,
                right,
            } ==> (exists|n1: int|
                old(self).ir.code().len() <= n1 && #[trigger] counted_loop_frame(final(self).ir.code(), n1) && {
                    let q = final(self).ir.code();
                    &&& q[n1 - 1]@.3 == binding.name@
                    &&& operand_place(*left, old(self).table) matches Some(pa) ==> q[n1 - 1]@.1 == pa
                    &&& simple_operand(*left) ==> (operand_place(*right, old(self).table) matches Some(pb) ==> q[n1 + 1]@.2
                        == pb)
                })),
            stmt matches Statement::For { binding, iterable, .. } ==> (!(**iterable matches Expr::Binary { op, .. } && op
                == BinaryOp::Range) ==> (static_type(**iterable, old(self).table) matches Some(t) ==> (t is Array ==> exists|
                n1: int,
            |
                old(self).ir.code().len() <= n1 && #[trigger] counted_loop_frame(final(self).ir.code(), n1) && {
                    let q = final(self).ir.code();
                    &&& q[n1 - 1]@.1 == "0"@
                    &&& q[n1 + 1]@.2 == decimal(t->Array_1)
                    &&& q[n1 + 3]@.0 == "INDEX"@ && q[n1 + 3]@.2 == q[n1 - 1]@.3 && q[n1 + 3]@.3 == binding.name@
                    &&& operand_place(**iterable, old(self).table) matches Some(pa) ==> q[n1 + 3]@.1 == pa
                }))),
            stmt matches Statement::For { iterable, body, .. } ==> (**iterable matches Expr::Binary {
                op: BinaryOp::Range,
                ..
            } ==> (old(self).func_ctx is Some && (exists|k: int|
                0 <= k < body.statements@.len() && #[trigger] body.statements@[k] is Continue) ==> continue_emitted(
                final(self).ir.code(),
                old(self).ir.code().len() as int,
                final(self).ir.code()[final(self).ir.code().len() - 5]@.1,
            ))),
            stmt matches Statement::For { iterable, .. } ==> iterable_reported(
                **iterable,
                old(self).table,
                old(self).errors@,
                final(self).errors@,
            ),
        decreases stmt, 1int,
    {
        proof {
            lemma_plain_ops();
        }
        let (binding, iterable, body) = match stmt {
            Statement::For { binding, iterable, body } => (binding, &**iterable, body),
            _ => {
                return;
            },
        };
        let (valid, elem_ty, start_place, bound_place, array_place) = self.gen_iterable(iterable);
        let ghost e_it = self.errors@;
        match &binding.ty {
            Some(n) => {
                let annotated = from_node(n);
                if valid && annotated.is_known() && elem_ty.is_known() && !annotated.compatible(&elem_ty) {
                    let d1 = annotated.display();
                    let d2 = elem_ty.display();
                    let m = cat(&["for 循环变量 `", binding.name.as_str(), "` 类型注解 ", d1.as_str(), " 与迭代元素类型 ", d2.as_str(), " 不一致"]);
                    self.error(m);
                }
            },
            None => {},
        }
        let ghost t_iter = self.table;
        self.push_scope();
        let ghost pushed = self.table.scopes_view();
        let ghost t_pushed = self.table;
        proof {
            crate::symbol::lemma_visible_push(t_iter, t_pushed);
        }
        let sym = VarSymbol::new(binding.name.clone(), elem_ty, binding.mutable, true);
        self.table.declare(sym);
        assert(scopes_kept(pushed, self.table.scopes_view(), old(self).table.depth() as int));
        proof {
            assert forall|n: Seq<char>|
                #[trigger] visible(self.table).contains(n) == visible(t_pushed).insert(binding.name@).contains(n) by {
                crate::symbol::law_declare_then_lookup(t_pushed, self.table, sym, n);
            }
            assert(visible(self.table) =~= visible(old(self).table).insert(binding.name@));
        }
        let label_start = self.ir.new_label();
        let ghost l1 = self.ir.labels();
        proof {
            lemma_label_not_placeholder(self.ir.labels() as nat);
        }
        let label_end = self.ir.new_label();
        proof {
            lemma_label_not_placeholder(self.ir.labels() as nat);
            lemma_label_names_distinct(l1 as nat, self.ir.labels() as nat);
        }
        let label_cont = self.ir.new_label();
        proof {
            lemma_label_not_placeholder(self.ir.labels() as nat);
        }
        let counter: String = match &array_place {
            Some(_) => self.ir.new_temp(),
            None => binding.name.clone(),
        };
        if valid {
            self.emit_plain("=", start_place.as_str(), PLACEHOLDER, counter.as_str());
        }
        let ghost p0 = self.pending@;
        let ghost extra = set![label_end@, label_cont@];
        let ghost n1 = self.ir.code().len() as int;
        let ghost e0 = self.errors@;
        self.define_label(label_start.as_str());
        let ghost c1 = self.ir.code();
        proof {
            lemma_widen(self.func_ctx, self.ir.code(), p0, extra);
        }
        self.pending = Ghost(p0.union(extra));
        let ghost kc = self.ir.code().len() as int;
        if valid {
            let t = self.ir.new_temp();
            self.emit_plain("<", counter.as_str(), bound_place.as_str(), t.as_str());
            self.emit_jump("IF_FALSE", t.as_str(), label_end.as_str());
            match &array_place {
                Some(a) => {
                    self.emit_plain("INDEX", a.as_str(), counter.as_str(), binding.name.as_str());
                },
                None => {},
            }
        }
        let ghost c_head = self.ir.code();
        let ghost targets0 = loop_targets(self.func_ctx);
        self.enter_loop(label_cont.clone(), label_end.clone(), None);
        let ghost c_body = self.ir.code();
        self.gen_block_stmt(body);
        let ghost c_after_body = self.ir.code();
        let _ = self.leave_loop(false);
        proof {
            if self.func_ctx is Some {
                assert(loop_targets(self.func_ctx) =~= targets0);
            }
        }
        let ghost k_cont = self.ir.code().len() as int;
        self.define_label(label_cont.as_str());
        let ghost c2 = self.ir.code();
        if valid {
            let t2 = self.ir.new_temp();
            self.emit_plain("+", counter.as_str(), "1", t2.as_str());
            self.emit_plain("=", t2.as_str(), PLACEHOLDER, counter.as_str());
            proof {
                lemma_label_defined_extend(c1, self.ir.code(), label_start@);
            }
            self.emit_jump("GOTO", PLACEHOLDER, label_start.as_str());
        }
        self.define_label(label_end.as_str());
        proof {
            lemma_label_defined_extend(c2, self.ir.code(), label_cont@);
            lemma_settle(self.func_ctx, self.ir.code(), p0, extra);
        }
        self.pending = Ghost(p0);
        let ghost inner = self.table.scopes_view();
        self.pop_scope();
        proof {
            lemma_kept_through_scope(old(self).table.scopes_view(), inner);
        }
        proof {
            let q = self.ir.code();
            assert(q[n1] == c1[n1]);
            if valid {
                assert(counted_loop_frame(q, n1));
                if array_place is Some {
                    assert(q[n1 + 3] == c_head[n1 + 3]);
                }
            } else {
                assert(e0.len() > old(self).errors@.len());
            }
            lemma_iterable_kept(*iterable, old(self).table, old(self).errors@, e_it, self.errors@);
            if old(self).func_ctx is Some && (exists|k: int|
                0 <= k < body.statements@.len() && #[trigger] body.statements@[k] is Continue) {
                lemma_continue_kept(c_after_body, q, c_body.len() as int, old(self).ir.code().len() as int, label_cont@);
                assert(q[k_cont] == c2[k_cont]);
            }
        }
    }

    /// `break`, with or without a value. A value is only allowed in a
    /// `loop` expression, where every `break` (a bare one counting as `()`)
    /// must agree on the type, and the value is written to the loop's result.
    fn gen_break(&mut self, value: &Option<Box<Expr>>)
        requires
            old(self).wf(),
        ensures
            final(self).grew(*old(self)),
            (*value matches Some(x) && undeclared_use(*x, visible(old(self).table), old(self).table.functions_view().dom()))
                ==> final(self).errors@.len() > old(self).errors@.len(),
            scopes_kept(
                old(self).table.scopes_view(),
                final(self).table.scopes_view(),
                old(self).table.depth() as int,
            ),
            (*value matches Some(x) && refused_expr(*x, arities(old(self).table.functions_view())))
                ==> final(self).errors@.len() > old(self).errors@.len(),
            final(self).ir.code().last()@.0 == "BREAK"@,
            innermost_loop(old(self).func_ctx) is None ==> reported(old(self).errors@, final(self).errors@,
                "`break` 必须位于循环体内（规则 5.4）"@) && final(self).ir.code().last()@.3 == PLACEHOLDER@,
            innermost_loop(old(self).func_ctx) matches Some(ll) ==> final(self).ir.code().last()@.3 == ll.end@,
            innermost_loop(old(self).func_ctx) matches Some(ll) && !ll.is_expr && value is Some ==> reported(
                old(self).errors@,
                final(self).errors@,
                "`break <expr>` 仅在 `loop` 表达式中允许（规则 7.4）"@,
            ),
            value is None ==> final(self).ir.code().last()@.1 == PLACEHOLDER@,
        decreases value, 0int,
    {
        proof {
            lemma_plain_ops();
        }
        let (in_loop, in_loop_expr) = match &self.func_ctx {
            Some(c) => {
                if c.loop_labels.len() > 0 {
                    (true, c.loop_labels[c.loop_labels.len() - 1].is_expr)
                } else {
                    (false, false)
                }
            },
            None => (false, false),
        };
        let ghost m_outside = "`break` 必须位于循环体内（规则 5.4）"@;
        let ghost m_value = "`break <expr>` 仅在 `loop` 表达式中允许（规则 7.4）"@;
        if !in_loop {
            let m = String::from_str("`break` 必须位于循环体内（规则 5.4）");
            proof {
                lemma_reported_push(self.errors@, SemanticError { message: m });
            }
            self.error(m);
        }
        let (arg, arg_ty): (String, Type) = match value {
            Some(e) => {
                let ghost prev = self.errors@;
                let v = self.gen_expr(&**e);
                proof {
                    if !in_loop {
                        lemma_reported_kept(old(self).errors@, prev, self.errors@, m_outside);
                    }
                }
                if in_loop && !in_loop_expr {
                    let m = String::from_str("`break <expr>` 仅在 `loop` 表达式中允许（规则 7.4）");
                    proof {
                        lemma_reported_push(self.errors@, SemanticError { message: m });
                    }
                    self.error(m);
                }
                (v.place, v.ty)
            },
            None => (String::from_str(PLACEHOLDER), Type::Unit),
        };
        let ghost e_mid = self.errors@;
        assert(!in_loop ==> reported(old(self).errors@, e_mid, m_outside));
        assert(in_loop && !in_loop_expr && value is Some ==> reported(old(self).errors@, e_mid, m_value));
        if in_loop_expr {
            let mut result_place: Option<String> = None;
            let mut type_error: Option<(Type, Type)> = None;
            match &mut self.func_ctx {
                Some(ctx) => {
                    if ctx.loop_exprs.len() > 0 {
                        let mut le = ctx.loop_exprs.pop().unwrap();
                        match &le.break_type {
                            Some(ty) => {
                                if ty.is_known() && arg_ty.is_known() && !ty.compatible(&arg_ty) {
                                    type_error = Some((ty.clone(), arg_ty.clone()));
                                }
                            },
                            None => {},
                        }
                        if le.break_type.is_none() {
                            le.break_type = Some(arg_ty.clone());
                        }
                        result_place = Some(le.result_place.clone());
                        ctx.loop_exprs.push(le);
                    }
                },
                None => {},
            }
            let has_type_error = type_error.is_some();
            match type_error {
                Some((expected, actual)) => {
                    let d1 = expected.display();
                    let d2 = actual.display();
                    let m = cat(&["loop 表达式多个 break 类型不一致：", d1.as_str(), " vs ", d2.as_str(), "（规则 7.4）"]);
                    self.error(m);
                },
                None => {},
            }
            if !has_type_error && value.is_some() {
                match result_place {
                    Some(rp) => {
                        self.emit_plain("=", arg.as_str(), PLACEHOLDER, rp.as_str());
                    },
                    None => {},
                }
            }
        }
        let end_label = match &self.func_ctx {
            Some(c) => {
                if c.loop_labels.len() > 0 {
                    c.loop_labels[c.loop_labels.len() - 1].end.clone()
                } else {
                    String::from_str(PLACEHOLDER)
                }
            },
            None => String::from_str(PLACEHOLDER),
        };
        self.emit_jump("BREAK", arg.as_str(), end_label.as_str());
        proof {
            if !in_loop {
                lemma_reported_kept(old(self).errors@, e_mid, self.errors@, m_outside);
            }
            if in_loop && !in_loop_expr && value is Some {
                lemma_reported_kept(old(self).errors@, e_mid, self.errors@, m_value);
            }
        }
    }

    fn gen_continue(&mut self)
        requires
            old(self).wf(),
        ensures
            final(self).grew(*old(self)),
            scopes_kept(
                old(self).table.scopes_view(),
                final(self).table.scopes_view(),
                old(self).table.depth() as int,
            ),
            final(self).ir.code().len() == old(self).ir.code().len() + 1,
            innermost_loop(old(self).func_ctx) matches Some(ll) ==> final(self).errors == old(self).errors
                && final(self).ir.code().last()@ == ("CONTINUE"@, PLACEHOLDER@, PLACEHOLDER@, ll.cont@),
            innermost_loop(old(self).func_ctx) is None ==> reported(old(self).errors@, final(self).errors@,
                "`continue` 必须位于循环体内（规则 5.4）"@)
                && final(self).ir.code().last()@ == ("CONTINUE"@, PLACEHOLDER@, PLACEHOLDER@, PLACEHOLDER@),
    {
        proof {
            lemma_plain_ops();
        }
        let in_loop = match &self.func_ctx {
            Some(c) => c.loop_labels.len() > 0,
            None => false,
        };
        if !in_loop {
            let m = String::from_str("`continue` 必须位于循环体内（规则 5.4）");
            proof {
                lemma_reported_push(self.errors@, SemanticError { message: m });
            }
            self.error(m);
        }
        let ghost e1 = self.errors@;
        let start_label = match &self.func_ctx {
            Some(c) => {
                if c.loop_labels.len() > 0 {
                    c.loop_labels[c.loop_labels.len() - 1].cont.clone()
                } else {
                    String::from_str(PLACEHOLDER)
                }
            },
            None => String::from_str(PLACEHOLDER),
        };
        self.emit_jump("CONTINUE", PLACEHOLDER, start_label.as_str());
        assert(self.errors@ == e1);
    }

    /// A block used as a statement, in a scope of its own; a tail
    /// expression is evaluated and its value dropped.
    fn gen_block_stmt(&mut self, block: &Block)
        requires
            old(self).wf(),
        ensures
            final(self).grew(*old(self)),
            undeclared_in_block(*block, visible(old(self).table), old(self).table.functions_view().dom())
                ==> final(self).errors@.len() > old(self).errors@.len(),
            refused_block(*block, arities(old(self).table.functions_view()))
                ==> final(self).errors@.len() > old(self).errors@.len(),
            scopes_kept(
                old(self).table.scopes_view(),
                final(self).table.scopes_view(),
                old(self).table.depth() as int,
            ),
            innermost_loop(old(self).func_ctx) is None && stray_jump_block(*block)
                ==> final(self).errors@.len() > old(self).errors@.len(),
            (exists|k: int| 0 <= k < block.statements@.len() && #[trigger] block.statements@[k] is Continue)
                ==> (innermost_loop(old(self).func_ctx) matches Some(ll) ==> continue_emitted(
                final(self).ir.code(),
                old(self).ir.code().len() as int,
                ll.cont@,
            )),
        decreases block, 0int,
    {
        self.push_scope();
        proof {
            crate::symbol::lemma_visible_push(old(self).table, self.table);
        }
        let mut i: usize = 0;
        while i < block.statements.len()
            invariant
                i <= block.statements@.len(),
                self.wf(),
                prefix_of(old(self).errors@, self.errors@),
                prefix_of(old(self).ir.code(), self.ir.code()),
                self.table.depth() == old(self).table.depth() + 1,
                self.table.functions_view() == old(self).table.functions_view(),
                ctx_shape(self.func_ctx) == ctx_shape(old(self).func_ctx),
                loop_targets(self.func_ctx) == loop_targets(old(self).func_ctx),
                self.pending == old(self).pending,
                scopes_kept(
                    old(self).table.scopes_view().push(Map::empty()),
                    self.table.scopes_view(),
                    old(self).table.depth() as int,
                ),
                innermost_loop(old(self).func_ctx) is None && (exists|k: int|
                    0 <= k < i && stray_jump_stmt(#[trigger] block.statements@[k])) ==> self.errors@.len()
                    > old(self).errors@.len(),
                (exists|k: int| 0 <= k < i && refused_stmt(#[trigger] block.statements@[k], arities(old(self).table.functions_view())))
                    ==> self.errors@.len() > old(self).errors@.len(),
                visible(self.table) == visible(old(self).table).union(lets_before(block.statements@, i as int)),
                (exists|k: int|
                    0 <= k < i && undeclared_in_stmt(
                        #[trigger] block.statements@[k],
                        visible(old(self).table).union(lets_before(block.statements@, k)),
                        old(self).table.functions_view().dom(),
                    )) ==> self.errors@.len() > old(self).errors@.len(),
                (exists|k: int| 0 <= k < i && #[trigger] block.statements@[k] is Continue)
                    ==> (innermost_loop(old(self).func_ctx) matches Some(ll) ==> continue_emitted(
                    self.ir.code(),
                    old(self).ir.code().len() as int,
                    ll.cont@,
                )),
            decreases block.statements@.len() - i,
        {
            let ghost before = self.table;
            let ghost c_before = self.ir.code();
            self.gen_stmt(&block.statements[i]);
            proof {
                if let Some(ll) = innermost_loop(old(self).func_ctx) {
                    if exists|k: int| 0 <= k < i && #[trigger] block.statements@[k] is Continue {
                        lemma_continue_kept(c_before, self.ir.code(), old(self).ir.code().len() as int,
                            old(self).ir.code().len() as int, ll.cont@);
                    }
                    if block.statements@[i as int] is Continue {
                        lemma_continue_kept(self.ir.code(), self.ir.code(), c_before.len() as int,
                            old(self).ir.code().len() as int, ll.cont@);
                    }
                }
            }
            proof {
                let st = block.statements@[i as int];
                let l0 = lets_before(block.statements@, i as int);
                let l1 = lets_before(block.statements@, i + 1);
                match st {
                    Statement::Let { binding, .. } => {
                        assert(l1 == l0.insert(binding.name@));
                        assert(visible(old(self).table).union(l1) =~= visible(old(self).table).union(l0).insert(
                            binding.name@,
                        ));
                    },
                    _ => {
                        assert(l1 == l0);
                        assert(visible(self.table) == visible(before));
                    },
                }
            }
            i = i + 1;
        }
        let ghost c_stmts = self.ir.code();
        match &block.tail {
            Some(tail) => {
                let _ = self.gen_expr(&**tail);
            },
            None => {},
        }
        self.check_current_scope_uninferred();
        let ghost inner = self.table.scopes_view();
        self.pop_scope();
        proof {
            lemma_kept_through_scope(old(self).table.scopes_view(), inner);
            if let Some(ll) = innermost_loop(old(self).func_ctx) {
                if exists|k: int| 0 <= k < block.statements@.len() && #[trigger] block.statements@[k] is Continue {
                    lemma_continue_kept(c_stmts, self.ir.code(), old(self).ir.code().len() as int,
                        old(self).ir.code().len() as int, ll.cont@);
                }
            }
        }
    }

    // ------------------------------------------------------------------
    // expressions
    // ------------------------------------------------------------------

    fn gen_expr(&mut self, expr: &Expr) -> (v: ExprValue)
        requires
            old(self).wf(),
        ensures
            final(self).grew(*old(self)),
            undeclared_use(*expr, visible(old(self).table), old(self).table.functions_view().dom())
                ==> final(self).errors@.len() > old(self).errors@.len(),
            refused_expr(*expr, arities(old(self).table.functions_view()))
                ==> final(self).errors@.len() > old(self).errors@.len(),
            static_type(*expr, old(self).table) matches Some(t) ==> v.ty@ == t,
            scopes_kept(
                old(self).table.scopes_view(),
                final(self).table.scopes_view(),
                old(self).table.depth() as int,
            ),
            innermost_loop(old(self).func_ctx) is None && stray_jump(*expr)
                ==> final(self).errors@.len() > old(self).errors@.len(),
            expr is Number ==> v.ty@ == Ty::I32 && v.place == expr->Number_value,
            expr matches Expr::Identifier { name } ==> (old(self).table.lookup_spec(name@) is None
                && old(self).table.functions_view().contains_key(name@) ==> v.ty@ == Ty::Function && v.place@ == name@
                && final(self).errors == old(self).errors),
            expr matches Expr::Identifier { name } ==> (old(self).table.lookup_spec(name@) matches Some(info) ==> v.ty@
                == info.ty && v.place@ == name@),
            expr matches Expr::Identifier { name } ==> (old(self).table.lookup_spec(name@) matches Some(info)
                && !info.initialized ==> reported(
                old(self).errors@,
                final(self).errors@,
                "变量 `"@ + name@ + "` 在赋值前被使用（规则 2.2）"@,
            )),
            expr matches Expr::Identifier { name } ==> (old(self).table.lookup_spec(name@) is None
                && !old(self).table.functions_view().contains_key(name@) ==> reported(
                old(self).errors@,
                final(self).errors@,
                "变量 `"@ + name@ + "` 未声明（规则 2.2）"@,
            )),
            expr is Identifier ==> final(self).table == old(self).table && final(self).borrow_scopes
                == old(self).borrow_scopes,
            operand_place(*expr, old(self).table) matches Some(p) ==> v.place@ == p,
            simple_operand(*expr) ==> final(self).ir == old(self).ir,
            clean_operand(*expr, old(self).table) ==> final(self).errors@ == old(self).errors@,
            expr matches Expr::Binary { op, .. } ==> (*op != BinaryOp::Range ==> final(self).ir.code().last()@.3
                == v.place@ && final(self).ir.code().len() > old(self).ir.code().len()),
            expr is Number ==> final(self).table == old(self).table,
            expr matches Expr::Number { value } ==> if crate::text::parse_unsigned(value@, 2147483647) is None {
                reported(old(self).errors@, final(self).errors@, "整数字面量 `"@ + value@ + "` 超出 i32 范围（规则 0.1）"@)
            } else {
                final(self).errors == old(self).errors
            },
        decreases expr, 2int,
    {
        match expr {
            Expr::Number { value } => {
                if parse_bounded(value.as_str(), 2147483647).is_none() {
                    let m = cat(&["整数字面量 `", value.as_str(), "` 超出 i32 范围（规则 0.1）"]);
                    proof {
                        reveal_with_fuel(concat, 4);
                        lemma_reported_push(self.errors@, SemanticError { message: m });
                    }
                    self.error(m);
                }
                ExprValue::new(Type::I32, value.clone())
            },
            Expr::Identifier { name } => self.gen_identifier(name.as_str()),
            Expr::Unary { .. } => self.gen_unary(expr),
            Expr::Binary { .. } => self.gen_binary(expr),
            Expr::Call { .. } => self.gen_call(expr),
            Expr::Index { .. } => self.gen_index(expr),
            Expr::Field { .. } => self.gen_field(expr),
            Expr::Array { elements } => self.gen_array(elements),
            Expr::Tuple { elements } => self.gen_tuple(elements),
            Expr::Block { block } => self.gen_block_expr(block),
            Expr::If { .. } => self.gen_if_expr(expr),
            Expr::Loop { body } => self.gen_loop_expr(body),
        }
    }

    /// A variable is its own place; a function name used as a value has type
    /// `Function`; anything else undeclared is reported.
    fn gen_identifier(&mut self, name: &str) -> (v: ExprValue)
        requires
            old(self).wf(),
        ensures
            final(self).grew(*old(self)),
            final(self).ir == old(self).ir,
            final(self).table == old(self).table,
            final(self).borrow_scopes == old(self).borrow_scopes,
            old(self).table.lookup_spec(name@) matches Some(info) ==> v.ty@ == info.ty && v.place@ == name@
                && final(self).errors@.len() == old(self).errors@.len() + (if info.initialized { 0int } else { 1int }),
            old(self).table.lookup_spec(name@) matches Some(info) && !info.initialized ==> reported(
                old(self).errors@,
                final(self).errors@,
                "变量 `"@ + name@ + "` 在赋值前被使用（规则 2.2）"@,
            ),
            old(self).table.lookup_spec(name@) is None && old(self).table.functions_view().contains_key(name@)
                ==> v.ty@ == Ty::Function && v.place@ == name@ && final(self).errors == old(self).errors,
            old(self).table.lookup_spec(name@) is None && !old(self).table.functions_view().contains_key(name@)
                ==> v.ty@ == Ty::Error && final(self).errors@.len() == old(self).errors@.len() + 1 && reported(
                old(self).errors@,
                final(self).errors@,
                "变量 `"@ + name@ + "` 未声明（规则 2.2）"@,
            ),
    {
        let info = match self.table.lookup(name) {
            Some(s) => Some((s.ty.clone(), s.initialized)),
            None => None,
        };
        match info {
            None => {
                if self.table.lookup_function(name).is_some() {
                    return ExprValue::new(Type::Function, String::from_str(name));
                }
                let m = cat(&["变量 `", name, "` 未声明（规则 2.2）"]);
                proof {
                    reveal_with_fuel(concat, 4);
                    lemma_reported_push(self.errors@, SemanticError { message: m });
                }
                self.error(m);
                ExprValue::error()
            },
            Some((ty, initialized)) => {
                if !initialized {
                    let m = cat(&["变量 `", name, "` 在赋值前被使用（规则 2.2）"]);
                    proof {
                        reveal_with_fuel(concat, 4);
                        lemma_reported_push(self.errors@, SemanticError { message: m });
                    }
                    self.error(m);
                }
                ExprValue::new(ty, String::from_str(name))
            },
        }
    }

    fn gen_unary(&mut self, expr: &Expr) -> (v: ExprValue)
        requires
            old(self).wf(),
        ensures
            final(self).grew(*old(self)),
            expr is Unary && undeclared_use(*expr, visible(old(self).table), old(self).table.functions_view().dom())
                ==> final(self).errors@.len() > old(self).errors@.len(),
            expr is Unary && refused_expr(*expr, arities(old(self).table.functions_view()))
                ==> final(self).errors@.len() > old(self).errors@.len(),
            expr is Unary ==> (static_type(*expr, old(self).table) matches Some(t) ==> v.ty@ == t),
            scopes_kept(
                old(self).table.scopes_view(),
                final(self).table.scopes_view(),
                old(self).table.depth() as int,
            ),
            innermost_loop(old(self).func_ctx) is None && expr is Unary && stray_jump(*expr)
                ==> final(self).errors@.len() > old(self).errors@.len(),
            expr matches Expr::Unary { op, .. } ==> (*op == UnaryOp::Neg ==> v.ty@ == Ty::I32) && (*op
                == UnaryOp::Ref ==> v.ty@ is Ref && !v.ty@->Ref_0) && (*op == UnaryOp::RefMut ==> v.ty@ is Ref
                && v.ty@->Ref_0),
            expr matches Expr::Unary { op, expr: inner } ==> (**inner matches Expr::Identifier { name } ==> (
            old(self).table.lookup_spec(name@) matches Some(info) ==> {
                &&& *op == UnaryOp::RefMut && !info.mutable ==> reported(old(self).errors@, final(self).errors@,
                    "不能对不可变变量 `"@ + name@ + "` 创建可变引用（规则 6.3）"@)
                &&& *op == UnaryOp::Deref && is_known_spec(info.ty) && !(info.ty is Ref) ==> reported(
                    old(self).errors@,
                    final(self).errors@,
                    "无法解引用非引用类型 "@ + display_spec(info.ty) + "（规则 6.4）"@,
                )
                &&& *op == UnaryOp::Deref ==> (info.ty matches Ty::Ref(_, target) ==> v.ty@ == *target)
                &&& *op == UnaryOp::Neg && is_known_spec(info.ty) && !(info.ty is I32) ==> reported(
                    old(self).errors@,
                    final(self).errors@,
                    "一元 `-` 仅支持 i32，实际类型 "@ + display_spec(info.ty),
                )
            })),
            expr matches Expr::Unary { op, expr: inner } ==> (**inner matches Expr::Identifier { name } ==> {
                &&& *op == UnaryOp::Ref && borrow_conflict(old(self).borrow_scopes@, name@, false) ==> reported(
                    old(self).errors@,
                    final(self).errors@,
                    "不能在可变引用存在时创建变量 `"@ + name@ + "` 的其他引用（规则 6.3）"@,
                )
                &&& *op == UnaryOp::RefMut && borrow_conflict(old(self).borrow_scopes@, name@, true) ==> reported(
                    old(self).errors@,
                    final(self).errors@,
                    "不能在已有引用存在时创建变量 `"@ + name@ + "` 的可变引用（规则 6.3）"@,
                )
            }),
            expr matches Expr::Unary { op, expr: inner } ==> (*op == UnaryOp::Neg ==> {
                let q = final(self).ir.code().last()@;
                &&& q.0 == "NEG"@ && q.2 == PLACEHOLDER@ && q.3 == v.place@
                &&& operand_place(**inner, old(self).table) matches Some(p) ==> q.1 == p
            }),
            expr matches Expr::Unary { op, expr: inner } ==> (operand_place(**inner, old(self).table) matches Some(p) ==> {
                &&& *op == UnaryOp::Ref ==> v.place@ == "&"@ + p
                &&& *op == UnaryOp::RefMut ==> v.place@ == "&mut "@ + p
            }),
            expr matches Expr::Unary { op, expr: inner } ==> (*op == UnaryOp::Deref ==> (**inner matches Expr::Identifier {
                name,
            } ==> (old(self).table.lookup_spec(name@) matches Some(info) ==> (info.ty is Ref
                ==> final(self).ir.code().last()@ == ("DEREF"@, name@, PLACEHOLDER@, v.place@))))),
            expr matches Expr::Unary { op, expr: inner } ==> (*op == UnaryOp::Neg ==> (**inner matches Expr::Number {
                value,
            } ==> if crate::text::parse_unsigned(value@, 2147483648) is None {
                reported(old(self).errors@, final(self).errors@, "整数字面量 `-"@ + value@ + "` 超出 i32 范围（规则 0.1）"@)
            } else {
                final(self).errors == old(self).errors
            })),
        decreases expr, 1int,
    {
        proof {
            lemma_plain_ops();
        }
        let (op, inner) = match expr {
            Expr::Unary { op, expr: inner } => (*op, &**inner),
            _ => {
                return ExprValue::error();
            },
        };
        let v = match (op, inner) {
            (UnaryOp::Neg, Expr::Number { value }) => {
                // `-2147483648` is the one literal whose magnitude exceeds `i32::MAX`.
                if parse_bounded(value.as_str(), 2147483648).is_none() {
                    let m = cat(&["整数字面量 `-", value.as_str(), "` 超出 i32 范围（规则 0.1）"]);
                    proof {
                        reveal_with_fuel(concat, 4);
                        lemma_reported_push(self.errors@, SemanticError { message: m });
                    }
                    self.error(m);
                }
                ExprValue::new(Type::I32, value.clone())
            },
            _ => self.gen_expr(inner),
        };
        proof {
            if innermost_loop(old(self).func_ctx) is None && stray_jump(*expr) {
                assert(stray_jump(*inner));
                assert(!(inner is Number));
                assert(self.errors@.len() > old(self).errors@.len());
            }
            if undeclared_use(*expr, visible(old(self).table), old(self).table.functions_view().dom()) {
                assert(undeclared_use(*inner, visible(old(self).table), old(self).table.functions_view().dom()));
                assert(self.errors@.len() > old(self).errors@.len());
            }
            if refused_expr(*expr, arities(old(self).table.functions_view())) {
                if !(inner is Number) {
                    assert(refused_expr(*inner, arities(old(self).table.functions_view())));
                }
                assert(self.errors@.len() > old(self).errors@.len());
            }
        }
        match op {
            UnaryOp::Neg => {
                let ghost e1 = self.errors@;
                if v.ty.is_known() && !v.ty.is_integer() {
                    let d = v.ty.display();
                    let m = cat(&["一元 `-` 仅支持 i32，实际类型 ", d.as_str()]);
                    proof {
                        reveal_with_fuel(concat, 3);
                        lemma_reported_push(self.errors@, SemanticError { message: m });
                    }
                    self.error(m);
                }
                proof {
                    if inner is Number {
                        let value = inner->Number_value;
                        if crate::text::parse_unsigned(value@, 2147483648) is None {
                            lemma_reported_kept(old(self).errors@, e1, self.errors@,
                                "整数字面量 `-"@ + value@ + "` 超出 i32 范围（规则 0.1）"@);
                        }
                    }
                }
                let t = self.ir.new_temp();
                self.emit_plain("NEG", v.place.as_str(), PLACEHOLDER, t.as_str());
                ExprValue::new(Type::I32, t)
            },
            UnaryOp::Ref => {
                match root_identifier(inner) {
                    Some(name) => self.register_borrow(name, false),
                    None => {},
                }
                let place = cat(&["&", v.place.as_str()]);
                proof {
                    reveal_with_fuel(concat, 3);
                }
                ExprValue::new(Type::Ref { mutable: false, inner: Box::new(v.ty) }, place)
            },
            UnaryOp::RefMut => {
                match root_identifier(inner) {
                    Some(name) => {
                        let immutable = match self.table.lookup(name) {
                            Some(sym) => !sym.mutable,
                            None => false,
                        };
                        if immutable {
                            let m = cat(&["不能对不可变变量 `", name, "` 创建可变引用（规则 6.3）"]);
                            proof {
                                reveal_with_fuel(concat, 4);
                                lemma_reported_push(self.errors@, SemanticError { message: m });
                                assert(reported(old(self).errors@, self.errors@.push(SemanticError { message: m }), m@));
                            }
                            self.error(m);
                        }
                        let ghost e1 = self.errors@;
                        self.register_borrow(name, true);
                        proof {
                            if immutable {
                                lemma_reported_kept(old(self).errors@, e1, self.errors@,
                                    "不能对不可变变量 `"@ + name@ + "` 创建可变引用（规则 6.3）"@);
                            }
                        }
                    },
                    None => {},
                }
                let place = cat(&["&mut ", v.place.as_str()]);
                proof {
                    reveal_with_fuel(concat, 3);
                }
                ExprValue::new(Type::Ref { mutable: true, inner: Box::new(v.ty) }, place)
            },
            UnaryOp::Deref => {
                match v.ty {
                    Type::Ref { inner: target, .. } => {
                        let t = self.ir.new_temp();
                        self.emit_plain("DEREF", v.place.as_str(), PLACEHOLDER, t.as_str());
                        ExprValue::new(*target, t)
                    },
                    Type::Error => ExprValue::error(),
                    other => {
                        if other.is_known() {
                            let d = other.display();
                            let m = cat(&["无法解引用非引用类型 ", d.as_str(), "（规则 6.4）"]);
                            proof {
                                reveal_with_fuel(concat, 4);
                                lemma_reported_push(self.errors@, SemanticError { message: m });
                                assert(reported(old(self).errors@, self.errors@.push(SemanticError { message: m }), m@));
                            }
                            self.error(m);
                        }
                        ExprValue::error()
                    },
                }
            },
        }
    }

    fn gen_binary(&mut self, expr: &Expr) -> (v: ExprValue)
        requires
            old(self).wf(),
        ensures
            final(self).grew(*old(self)),
            expr is Binary && undeclared_use(*expr, visible(old(self).table), old(self).table.functions_view().dom())
                ==> final(self).errors@.len() > old(self).errors@.len(),
            expr is Binary && refused_expr(*expr, arities(old(self).table.functions_view()))
                ==> final(self).errors@.len() > old(self).errors@.len(),
            expr is Binary ==> (static_type(*expr, old(self).table) matches Some(t) ==> v.ty@ == t),
            scopes_kept(
                old(self).table.scopes_view(),
                final(self).table.scopes_view(),
                old(self).table.depth() as int,
            ),
            innermost_loop(old(self).func_ctx) is None && expr is Binary && stray_jump(*expr)
                ==> final(self).errors@.len() > old(self).errors@.len(),
            expr matches Expr::Binary { op, .. } ==> (if *op == BinaryOp::Range {
                v.ty@ == Ty::Range
            } else if bin_op_spec(*op).1 {
                v.ty@ == Ty::Bool
            } else {
                v.ty@ == Ty::I32
            }),
            expr matches Expr::Binary { op, .. } ==> (*op != BinaryOp::Range ==> final(self).ir.code().last()@.0
                == bin_op_spec(*op).0 && final(self).ir.code().last()@.3 == v.place@ && final(self).ir.code().len()
                > old(self).ir.code().len()),
            expr matches Expr::Binary { left, op, right } ==> (*op != BinaryOp::Range ==> {
                let q = final(self).ir.code().last()@;
                &&& q.0 == crate::lexer::punct_text(crate::syntax::op_token(*op))
                &&& operand_place(**left, old(self).table) matches Some(pl) ==> q.1 == pl
                &&& simple_operand(**left) ==> (operand_place(**right, old(self).table) matches Some(pr) ==> q.2 == pr)
            }),
            expr matches Expr::Binary { left, op, .. } ==> (**left matches Expr::Identifier { name } ==> (*op
                != BinaryOp::Range && old(self).table.lookup_spec(name@) is None
                && old(self).table.functions_view().contains_key(name@) ==> reported(
                old(self).errors@,
                final(self).errors@,
                "运算 `"@ + bin_op_spec(*op).0 + "` 的操作数是函数名 `"@ + name@ + "`（请加 `()` 调用）"@,
            ))),
            expr matches Expr::Binary { left, op, right } ==> (*op != BinaryOp::Range && (**left is Identifier
                || **left is Number) ==> (static_type(**left, old(self).table) matches Some(tl) ==> (static_type(
                **right,
                old(self).table,
            ) matches Some(tr) ==> (is_known_spec(tl) && is_known_spec(tr) && !(tl is Function) && !(tr is Function)
                && (!(tl is I32) || !(tr is I32)) ==> reported(
                old(self).errors@,
                final(self).errors@,
                "运算 `"@ + bin_op_spec(*op).0 + "` 仅支持 i32，实际类型 "@ + display_spec(tl) + " 与 "@ + display_spec(tr),
            ))))),
        decreases expr, 1int,
    {
        proof {
            lemma_plain_ops();
        }
        let (left, op, right) = match expr {
            Expr::Binary { left, op, right } => (&**left, *op, &**right),
            _ => {
                return ExprValue::error();
            },
        };
        if op == BinaryOp::Range {
            let _ = self.gen_expr(left);
            let _ = self.gen_expr(right);
            return ExprValue::new(Type::Range, String::from_str(PLACEHOLDER));
        }
        let l = self.gen_expr(left);
        let ghost e_l = self.errors@;
        let r = self.gen_expr(right);
        let (op_str, compares) = bin_op_info(op);
        let both_known = l.ty.is_known() && r.ty.is_known();
        let l_fn = is_function(&l.ty);
        let r_fn = is_function(&r.ty);
        let ghost e_r = self.errors@;
        if l_fn {
            let m = cat(&["运算 `", op_str, "` 的操作数是函数名 `", l.place.as_str(), "`（请加 `()` 调用）"]);
            proof {
                reveal_with_fuel(concat, 6);
                lemma_reported_push(self.errors@, SemanticError { message: m });
            }
            self.error(m);
        }
        let ghost e_lf = self.errors@;
        if r_fn {
            let m = cat(&["运算 `", op_str, "` 的操作数是函数名 `", r.place.as_str(), "`（请加 `()` 调用）"]);
            self.error(m);
        }
        let ghost e_rf = self.errors@;
        let ghost om = "运算 `"@ + op_str@ + "` 仅支持 i32，实际类型 "@ + display_spec(l.ty@) + " 与 "@ + display_spec(r.ty@);
        if both_known && !l_fn && !r_fn && (!l.ty.is_integer() || !r.ty.is_integer()) {
            let d1 = l.ty.display();
            let d2 = r.ty.display();
            let m = cat(&["运算 `", op_str, "` 仅支持 i32，实际类型 ", d1.as_str(), " 与 ", d2.as_str()]);
            proof {
                reveal_with_fuel(concat, 7);
                lemma_reported_push(self.errors@, SemanticError { message: m });
                assert(reported(old(self).errors@, self.errors@.push(SemanticError { message: m }), om));
            }
            self.error(m);
        }
        let ghost e_op = self.errors@;
        let t = self.ir.new_temp();
        self.emit_plain(op_str, l.place.as_str(), r.place.as_str(), t.as_str());
        proof {
            if both_known && !l_fn && !r_fn && (!(l.ty@ is I32) || !(r.ty@ is I32)) {
                lemma_reported_kept(old(self).errors@, e_op, self.errors@, om);
            }
        }
        proof {
            let lm = "运算 `"@ + op_str@ + "` 的操作数是函数名 `"@ + l.place@ + "`（请加 `()` 调用）"@;
            if l_fn {
                assert(e_lf[e_r.len() as int].message@ == lm);
                assert(reported(old(self).errors@, e_lf, lm));
                lemma_reported_kept(old(self).errors@, e_lf, self.errors@, lm);
            }
        }
        let result_ty = if compares { Type::Bool } else { Type::I32 };
        ExprValue::new(result_ty, t)
    }

    #[verifier::loop_isolation(false)]
    #[verifier::rlimit(40)]
    fn gen_call(&mut self, expr: &Expr) -> (v: ExprValue)
        requires
            old(self).wf(),
        ensures
            final(self).grew(*old(self)),
            expr is Call && undeclared_use(*expr, visible(old(self).table), old(self).table.functions_view().dom())
                ==> final(self).errors@.len() > old(self).errors@.len(),
            expr is Call && refused_expr(*expr, arities(old(self).table.functions_view()))
                ==> final(self).errors@.len() > old(self).errors@.len(),
            expr is Call ==> (static_type(*expr, old(self).table) matches Some(t) ==> v.ty@ == t),
            scopes_kept(
                old(self).table.scopes_view(),
                final(self).table.scopes_view(),
                old(self).table.depth() as int,
            ),
            innermost_loop(old(self).func_ctx) is None && expr is Call && stray_jump(*expr)
                ==> final(self).errors@.len() > old(self).errors@.len(),
            expr matches Expr::Call { callee, .. } && !(**callee is Identifier) ==> v.ty@ == Ty::Error
                && reported(old(self).errors@, final(self).errors@, "仅支持具名函数调用"@),
            expr matches Expr::Call { callee, args } ==> (**callee matches Expr::Identifier { name } ==> {
                let fns = old(self).table.functions_view();
                if !fns.contains_key(name@) {
                    &&& v.ty@ == Ty::Error
                    &&& old(self).table.lookup_spec(name@) is Some ==> reported(old(self).errors@, final(self).errors@,
                        "变量 `"@ + name@ + "` 不是函数，不能被调用（规则 3.5）"@)
                    &&& old(self).table.lookup_spec(name@) is None ==> reported(old(self).errors@, final(self).errors@,
                        "调用未声明的函数 `"@ + name@ + "`（规则 3.5）"@)
                    &&& (forall|k: int| 0 <= k < args@.len() ==> simple_operand(#[trigger] args@[k]))
                        ==> final(self).ir.code() == old(self).ir.code()
                    &&& (forall|k: int| 0 <= k < args@.len() ==> clean_operand(#[trigger] args@[k], old(self).table))
                        ==> final(self).errors@.len() == old(self).errors@.len() + 1
                } else {
                    let sig = fns[name@];
                    &&& v.ty@ == sig.return_type
                    &&& sig.params.len() != args@.len() ==> reported(old(self).errors@, final(self).errors@,
                        "函数 `"@ + name@ + "` 形参数量 "@ + decimal(sig.params.len()) + "，实参数量 "@ + decimal(args@.len())
                            + " 不一致（规则 3.5）"@)
                    &&& final(self).ir.code().last()@.0 == "CALL"@
                    &&& final(self).ir.code().last()@.1 == name@
                    &&& final(self).ir.code().last()@.2 == decimal(args@.len())
                    &&& final(self).ir.code().last()@.3 == v.place@
                    &&& sig.return_type is Unit ==> v.place@ == PLACEHOLDER@
                    &&& (forall|k: int| 0 <= k < args@.len() ==> clean_operand(#[trigger] args@[k], old(self).table))
                        && arguments_fit(args@, sig, old(self).table) ==> final(self).errors@ == old(self).errors@
                    &&& (forall|k: int| 0 <= k < args@.len() ==> (operand_place(#[trigger] args@[k], old(self).table) is Some))
                        ==> {
                        let n0 = old(self).ir.code().len();
                        &&& final(self).ir.code().len() == n0 + args@.len() + 1
                        &&& forall|j: int|
                            0 <= j < args@.len() ==> (#[trigger] final(self).ir.code()[n0 + j])@ == (
                                "PARAM"@,
                                operand_place(args@[j], old(self).table)->0,
                                PLACEHOLDER@,
                                PLACEHOLDER@,
                            )
                    }
                    &&& (forall|k: int| 0 <= k < args@.len() ==> simple_operand(#[trigger] args@[k])) ==> forall|j: int|
                        0 <= j < args@.len() && j < sig.params.len() ==> (static_type(#[trigger] args@[j], old(self).table)
                            matches Some(ta) ==> (is_known_spec(sig.params[j].1) && is_known_spec(ta)
                            && !crate::types::compatible_spec(sig.params[j].1, ta) ==> reported(
                            old(self).errors@,
                            final(self).errors@,
                            argument_mismatch_message(name@, j, ta, sig.params[j].0, sig.params[j].1),
                        )))
                }
            }),
        decreases expr, 1int,
    {
        proof {
            lemma_plain_ops();
        }
        let (callee, args) = match expr {
            Expr::Call { callee, args } => (&**callee, args),
            _ => {
                return ExprValue::error();
            },
        };
        let name: &str = match callee {
            Expr::Identifier { name } => name.as_str(),
            _ => {
                let m = String::from_str("仅支持具名函数调用");
                proof {
                    lemma_reported_push(self.errors@, SemanticError { message: m });
                }
                self.error(m);
                return ExprValue::error();
            },
        };
        let sig = match self.table.lookup_function(name) {
            Some(s) => s.clone(),
            None => {
                let is_var = self.table.lookup(name).is_some();
                let m = if is_var {
                    let m1 = cat(&["变量 `", name, "` 不是函数，不能被调用（规则 3.5）"]);
                    proof {
                        reveal_with_fuel(concat, 4);
                    }
                    assert(m1@ == "变量 `"@ + name@ + "` 不是函数，不能被调用（规则 3.5）"@);
                    m1
                } else {
                    let m2 = cat(&["调用未声明的函数 `", name, "`（规则 3.5）"]);
                    proof {
                        reveal_with_fuel(concat, 4);
                    }
                    assert(m2@ == "调用未声明的函数 `"@ + name@ + "`（规则 3.5）"@);
                    m2
                };
                proof {
                    lemma_reported_push(self.errors@, SemanticError { message: m });
                }
                let ghost mm = m@;
                self.error(m);
                let mut i: usize = 0;
                while i < args.len()
                    invariant
                        i <= args@.len(),
                        self.grew(*old(self)),
                        scopes_kept(old(self).table.scopes_view(), self.table.scopes_view(), old(self).table.depth() as int),
                        reported(old(self).errors@, self.errors@, mm),
                        (forall|k: int| 0 <= k < args@.len() ==> simple_operand(#[trigger] args@[k])) ==> self.ir.code()
                            == old(self).ir.code() && self.table == old(self).table,
                        (forall|k: int| 0 <= k < args@.len() ==> clean_operand(#[trigger] args@[k], old(self).table))
                            ==> self.errors@.len() == old(self).errors@.len() + 1,
                        innermost_loop(old(self).func_ctx) is None && (exists|k: int|
                            0 <= k < i && stray_jump(#[trigger] args@[k])) ==> self.errors@.len() > old(self).errors@.len(),
                        (exists|k: int| 0 <= k < i && refused_expr(#[trigger] args@[k], arities(old(self).table.functions_view())))
                            ==> self.errors@.len() > old(self).errors@.len(),
                        (exists|k: int| 0 <= k < i && undeclared_use(#[trigger] args@[k], visible(old(self).table), old(self).table.functions_view().dom()))
                            ==> self.errors@.len() > old(self).errors@.len(),
                    decreases args@.len() - i,
                {
                    let ghost prev = self.errors@;
                    let _ = self.gen_expr(&args[i]);
                    proof {
                        lemma_reported_kept(old(self).errors@, prev, self.errors@, mm);
                    }
                    i = i + 1;
                }
                return ExprValue::error();
            },
        };
        let ghost arity_msg = "函数 `"@ + name@ + "` 形参数量 "@ + decimal(sig.params@.len()) + "，实参数量 "@ + decimal(
            args@.len(),
        ) + " 不一致（规则 3.5）"@;
        if sig.params.len() != args.len() {
            let n1 = usize_to_string(sig.params.len());
            let n2 = usize_to_string(args.len());
            let m = cat(&["函数 `", name, "` 形参数量 ", n1.as_str(), "，实参数量 ", n2.as_str(), " 不一致（规则 3.5）"]);
            proof {
                reveal_with_fuel(concat, 8);
                lemma_reported_push(self.errors@, SemanticError { message: m });
            }
            self.error(m);
        }
        let mut arg_places: Vec<String> = Vec::new();
        let mut i: usize = 0;
        while i < args.len()
            invariant
                i <= args@.len(),
                arg_places@.len() == i,
                self.grew(*old(self)),
                scopes_kept(old(self).table.scopes_view(), self.table.scopes_view(), old(self).table.depth() as int),
                sig.params@.len() != args@.len() ==> reported(old(self).errors@, self.errors@, arity_msg),
                (forall|k: int| 0 <= k < args@.len() ==> simple_operand(#[trigger] args@[k])) ==> self.table
                    == old(self).table,
                sig.info() == old(self).table.functions_view()[name@],
                sig.name@ == name@,
                (forall|k: int| 0 <= k < args@.len() ==> clean_operand(#[trigger] args@[k], old(self).table))
                    && arguments_fit(args@, sig.info(), old(self).table) ==> self.errors@ == old(self).errors@,
                (forall|k: int| 0 <= k < args@.len() ==> (operand_place(#[trigger] args@[k], old(self).table) is Some))
                    ==> self.ir.code() == old(self).ir.code() && forall|j: int|
                    0 <= j < i ==> (#[trigger] arg_places@[j])@ == operand_place(args@[j], old(self).table)->0,
                (forall|k: int| 0 <= k < args@.len() ==> simple_operand(#[trigger] args@[k])) ==> forall|jj: int|
                    0 <= jj < i && jj < sig.params@.len() ==> (static_type(#[trigger] args@[jj], old(self).table)
                        matches Some(ta) ==> (is_known_spec(sig.params@[jj].1@) && is_known_spec(ta)
                        && !crate::types::compatible_spec(sig.params@[jj].1@, ta) ==> reported(
                        old(self).errors@,
                        self.errors@,
                        argument_mismatch_message(name@, jj, ta, sig.params@[jj].0@, sig.params@[jj].1@),
                    ))),
                innermost_loop(old(self).func_ctx) is None && (exists|k: int|
                    0 <= k < i && stray_jump(#[trigger] args@[k])) ==> self.errors@.len() > old(self).errors@.len(),
                (exists|k: int| 0 <= k < i && refused_expr(#[trigger] args@[k], arities(old(self).table.functions_view())))
                    ==> self.errors@.len() > old(self).errors@.len(),
                (exists|k: int| 0 <= k < i && undeclared_use(#[trigger] args@[k], visible(old(self).table), old(self).table.functions_view().dom()))
                    ==> self.errors@.len() > old(self).errors@.len(),
            decreases args@.len() - i,
        {
            let ghost prev = self.errors@;
            let v = self.gen_expr(&args[i]);
            if i < sig.params.len() {
                let pty = &sig.params[i].1;
                if pty.is_known() && v.ty.is_known() && !pty.compatible(&v.ty) {
                    let n = usize_to_string(i + 1);
                    let d1 = v.ty.display();
                    let d2 = pty.display();
                    let m = cat(&["函数 `", name, "` 第 ", n.as_str(), " 个实参类型 ", d1.as_str(), " 与形参 `", sig.params[i].0.as_str(), "` 类型 ", d2.as_str(), " 不匹配（规则 3.5）"]);
                    proof {
                        reveal_with_fuel(concat, 12);
                        assert(m@ == argument_mismatch_message(name@, i as int, v.ty@, sig.params@[i as int].0@, sig.params@[i as int].1@));
                        lemma_reported_push(self.errors@, SemanticError { message: m });
                        assert(reported(old(self).errors@, self.errors@.push(SemanticError { message: m }), m@));
                    }
                    self.error(m);
                }
            }
            proof {
                if sig.params@.len() != args@.len() {
                    lemma_reported_kept(old(self).errors@, prev, self.errors@, arity_msg);
                }
                lemma_reported_kept_all(old(self).errors@, prev, self.errors@);
            }
            arg_places.push(v.place);
            i = i + 1;
        }
        let ghost e_args = self.errors@;
        let ghost c_args = self.ir.code();
        let mut i: usize = 0;
        while i < arg_places.len()
            invariant
                i <= arg_places@.len(),
                self.grew(*old(self)),
                scopes_kept(old(self).table.scopes_view(), self.table.scopes_view(), old(self).table.depth() as int),
                self.errors@ == e_args,
                self.ir.code().len() == c_args.len() + i,
                prefix_of(c_args, self.ir.code()),
                forall|j: int|
                    0 <= j < i ==> (#[trigger] self.ir.code()[c_args.len() + j])@ == (
                        "PARAM"@,
                        arg_places@[j]@,
                        PLACEHOLDER@,
                        PLACEHOLDER@,
                    ),
            decreases arg_places@.len() - i,
        {
            proof {
                lemma_plain_ops();
            }
            self.emit_plain("PARAM", arg_places[i].as_str(), PLACEHOLDER, PLACEHOLDER);
            i = i + 1;
        }
        proof {
            if innermost_loop(old(self).func_ctx) is None && stray_jump(*expr) {
                assert(!stray_jump(*callee));
                let k = choose|k: int| 0 <= k < args@.len() && stray_jump(#[trigger] args@[k]);
                assert(self.errors@.len() > old(self).errors@.len());
            }
            if undeclared_use(*expr, visible(old(self).table), old(self).table.functions_view().dom()) {
                let k = choose|k: int| 0 <= k < args@.len() && undeclared_use(#[trigger] args@[k], visible(old(self).table), old(self).table.functions_view().dom());
                assert(self.errors@.len() > old(self).errors@.len());
            }
            if refused_expr(*expr, arities(old(self).table.functions_view())) {
                assert(!refused_expr(*callee, arities(old(self).table.functions_view())));
                if !refused_call(*callee, args@.len(), arities(old(self).table.functions_view())) {
                    let k = choose|k: int| 0 <= k < args@.len() && refused_expr(#[trigger] args@[k], arities(old(self).table.functions_view()));
                }
                assert(self.errors@.len() > old(self).errors@.len());
            }
        }
        let argc = usize_to_string(arg_places.len());
        if is_unit(&sig.return_type) {
            self.emit_plain("CALL", name, argc.as_str(), PLACEHOLDER);
            ExprValue::new(Type::Unit, String::from_str(PLACEHOLDER))
        } else {
            let t = self.ir.new_temp();
            self.emit_plain("CALL", name, argc.as_str(), t.as_str());
            ExprValue::new(sig.return_type, t)
        }
    }

    /// Checks an index expression `base[index]` whose parts were evaluated
    /// to `b` and `i`: the index must be an integer, the base an array, and
    /// a literal index within its length. Gives the element type, or `None`
    /// when the base cannot be indexed (nothing is then to be emitted).
    fn check_index(&mut self, b: &ExprValue, i: &ExprValue, base: &Expr, index: &Expr) -> (r: Option<Type>)
        requires
            old(self).wf(),
        ensures
            final(self).grew(*old(self)),
            final(self).ir == old(self).ir,
            final(self).table == old(self).table,
            final(self).errors@.len() == old(self).errors@.len() + index_error_count(b.ty@, i.ty@, *index),
            is_known_spec(i.ty@) && !(i.ty@ is I32) ==> reported(old(self).errors@, final(self).errors@,
                "数组下标类型 "@ + display_spec(i.ty@) + " 不是整数（规则 8.3）"@),
            b.ty@ matches Ty::Array(e, n) ==> (r matches Some(t) && t@ == *e),
            b.ty@ matches Ty::Array(e, n) ==> (literal_out_of_bounds(*index, n) matches Some(shown) ==> reported(
                old(self).errors@,
                final(self).errors@,
                out_of_bounds_message(*base, shown, n),
            )),
            b.ty@ is Error ==> r is None,
            !(b.ty@ is Array) && !(b.ty@ is Error) && is_known_spec(b.ty@) ==> r is None && reported(
                old(self).errors@,
                final(self).errors@,
                "类型 "@ + display_spec(b.ty@) + " 不可索引（规则 8.3）"@,
            ),
            !(b.ty@ is Array) && !is_known_spec(b.ty@) && !(b.ty@ is Error) ==> (r matches Some(t) && t@ == Ty::Error),
    {
        let ghost m_idx = "数组下标类型 "@ + display_spec(i.ty@) + " 不是整数（规则 8.3）"@;
        if i.ty.is_known() && !i.ty.is_integer() {
            let d = i.ty.display();
            let m = cat(&["数组下标类型 ", d.as_str(), " 不是整数（规则 8.3）"]);
            proof {
                reveal_with_fuel(concat, 4);
                lemma_reported_push(self.errors@, SemanticError { message: m });
            }
            self.error(m);
        }
        let ghost e1 = self.errors@;
        let (elem_ty, len): (Type, Option<usize>) = match &b.ty {
            Type::Array { element, length } => ((**element).clone(), Some(*length)),
            Type::Error => {
                return None;
            },
            other => {
                if other.is_known() {
                    let d = other.display();
                    let m = cat(&["类型 ", d.as_str(), " 不可索引（规则 8.3）"]);
                    proof {
                        reveal_with_fuel(concat, 4);
                        lemma_reported_push(self.errors@, SemanticError { message: m });
                        if is_known_spec(i.ty@) && !(i.ty@ is I32) {
                            lemma_reported_kept(old(self).errors@, e1, self.errors@.push(SemanticError { message: m }), m_idx);
                        }
                    }
                    self.error(m);
                    return None;
                }
                (Type::Error, None)
            },
        };
        match len {
            Some(len) => {
                let oob: Option<(bool, String)> = match index {
                    Expr::Number { value } => {
                        let out = match parse_bounded(value.as_str(), u128::MAX) {
                            Some(n) => n >= len as u128,
                            None => true,
                        };
                        Some((out, value.clone()))
                    },
                    Expr::Unary { op: UnaryOp::Neg, expr: e } => match &**e {
                        Expr::Number { value } => Some((true, cat(&["-", value.as_str()]))),
                        _ => None,
                    },
                    _ => None,
                };
                match oob {
                    Some((true, shown)) => {
                        let prefix = match root_identifier(base) {
                            Some(n) => {
                                let p = cat(&["数组 `", n, "` "]);
                                proof {
                                    reveal_with_fuel(concat, 4);
                                }
                                p
                            },
                            None => String::new(),
                        };
                        let l = usize_to_string(len);
                        let m = cat(&[prefix.as_str(), "下标 ", shown.as_str(), " 越界，合法范围 [0,", l.as_str(), ")（规则 8.3）"]);
                        proof {
                            reveal_with_fuel(concat, 7);
                            assert(m@ == out_of_bounds_message(*base, shown@, len as nat));
                            lemma_reported_push(self.errors@, SemanticError { message: m });
                            if is_known_spec(i.ty@) && !(i.ty@ is I32) {
                                lemma_reported_kept(old(self).errors@, e1, self.errors@.push(SemanticError { message: m }), m_idx);
                            }
                        }
                        self.error(m);
                    },
                    _ => {},
                }
            },
            None => {},
        }
        Some(elem_ty)
    }

    fn gen_index(&mut self, expr: &Expr) -> (v: ExprValue)
        requires
            old(self).wf(),
        ensures
            final(self).grew(*old(self)),
            expr is Index && undeclared_use(*expr, visible(old(self).table), old(self).table.functions_view().dom())
                ==> final(self).errors@.len() > old(self).errors@.len(),
            expr is Index && refused_expr(*expr, arities(old(self).table.functions_view()))
                ==> final(self).errors@.len() > old(self).errors@.len(),
            expr is Index ==> (static_type(*expr, old(self).table) matches Some(t) ==> v.ty@ == t),
            scopes_kept(
                old(self).table.scopes_view(),
                final(self).table.scopes_view(),
                old(self).table.depth() as int,
            ),
            innermost_loop(old(self).func_ctx) is None && expr is Index && stray_jump(*expr)
                ==> final(self).errors@.len() > old(self).errors@.len(),
            expr matches Expr::Index { base, index } ==> (static_type(**base, old(self).table) matches Some(bt) ==> {
                &&& bt matches Ty::Array(e, n) ==> (literal_out_of_bounds(**index, n) matches Some(shown) ==> reported(
                    old(self).errors@,
                    final(self).errors@,
                    out_of_bounds_message(**base, shown, n),
                ))
                &&& !(bt is Array) && !(bt is Error) && is_known_spec(bt) ==> v.ty@ == Ty::Error && reported(
                    old(self).errors@,
                    final(self).errors@,
                    "类型 "@ + display_spec(bt) + " 不可索引（规则 8.3）"@,
                )
                &&& bt is Array ==> (operand_place(**base, old(self).table) matches Some(pb) ==> (operand_place(
                    **index,
                    old(self).table,
                ) matches Some(pi) ==> final(self).ir.code().last()@ == ("INDEX"@, pb, pi, v.place@)))
            }),
            expr matches Expr::Index { base, index } ==> (simple_operand(**base) ==> (static_type(**index, old(self).table)
                matches Some(it) ==> (is_known_spec(it) && !(it is I32) ==> reported(
                old(self).errors@,
                final(self).errors@,
                "数组下标类型 "@ + display_spec(it) + " 不是整数（规则 8.3）"@,
            )))),
        decreases expr, 1int,
    {
        proof {
            lemma_plain_ops();
        }
        let (base, index) = match expr {
            Expr::Index { base, index } => (&**base, &**index),
            _ => {
                return ExprValue::error();
            },
        };
        let b = self.gen_expr(base);
        let i = self.gen_expr(index);
        match self.check_index(&b, &i, base, index) {
            Some(elem_ty) => {
                let t = self.ir.new_temp();
                self.emit_plain("INDEX", b.place.as_str(), i.place.as_str(), t.as_str());
                ExprValue::new(elem_ty, t)
            },
            None => ExprValue::error(),
        }
    }

    /// Checks a field access `.field` on a value of type `base_ty`: the
    /// field must be a decimal index within a tuple's arity. Gives the
    /// field's type, or `None` when nothing is to be emitted.
    fn check_field(&mut self, base_ty: &Type, field: &str) -> (r: Option<Type>)
        requires
            old(self).wf(),
        ensures
            final(self).grew(*old(self)),
            final(self).ir == old(self).ir,
            final(self).table == old(self).table,
            final(self).errors@.len() == old(self).errors@.len() + field_error_count(base_ty@, field@),
            crate::text::parse_unsigned(field@, usize::MAX as nat) is None ==> r is None && reported(
                old(self).errors@,
                final(self).errors@,
                "元组字段 `"@ + field@ + "` 不是合法整数下标（规则 9.3）"@,
            ),
            crate::text::parse_unsigned(field@, usize::MAX as nat) matches Some(k) ==> match base_ty@ {
                Ty::Tuple(es) => if k < es.len() {
                    r matches Some(t) && t@ == es[k as int]
                } else {
                    (r matches Some(t) && t@ == Ty::Error) && reported(old(self).errors@, final(self).errors@,
                        "元组下标 "@ + decimal(k) + " 越界，合法范围 [0,"@ + decimal(es.len()) + ")（规则 9.3）"@)
                },
                Ty::Error => r is None,
                _ => (r matches Some(t) && t@ == Ty::Error) && (is_known_spec(base_ty@) ==> reported(
                    old(self).errors@,
                    final(self).errors@,
                    "类型 "@ + display_spec(base_ty@) + " 不支持点字段访问（规则 9.3）"@,
                )),
            },
    {
        let idx: usize = match parse_bounded(field, usize::MAX as u128) {
            Some(i) => i as usize,
            None => {
                let m = cat(&["元组字段 `", field, "` 不是合法整数下标（规则 9.3）"]);
                proof {
                    reveal_with_fuel(concat, 4);
                    lemma_reported_push(self.errors@, SemanticError { message: m });
                }
                self.error(m);
                return None;
            },
        };
        match base_ty {
            Type::Tuple { elements } => {
                proof {
                    crate::types::lemma_tys_view(elements@);
                }
                if idx >= elements.len() {
                    let n1 = usize_to_string(idx);
                    let n2 = usize_to_string(elements.len());
                    let m = cat(&["元组下标 ", n1.as_str(), " 越界，合法范围 [0,", n2.as_str(), ")（规则 9.3）"]);
                    proof {
                        reveal_with_fuel(concat, 6);
                        lemma_reported_push(self.errors@, SemanticError { message: m });
                    }
                    self.error(m);
                    Some(Type::Error)
                } else {
                    Some(elements[idx].clone())
                }
            },
            Type::Error => None,
            other => {
                if other.is_known() {
                    let d = other.display();
                    let m = cat(&["类型 ", d.as_str(), " 不支持点字段访问（规则 9.3）"]);
                    proof {
                        reveal_with_fuel(concat, 4);
                        lemma_reported_push(self.errors@, SemanticError { message: m });
                    }
                    self.error(m);
                }
                Some(Type::Error)
            },
        }
    }

    fn gen_field(&mut self, expr: &Expr) -> (v: ExprValue)
        requires
            old(self).wf(),
        ensures
            final(self).grew(*old(self)),
            expr is Field && undeclared_use(*expr, visible(old(self).table), old(self).table.functions_view().dom())
                ==> final(self).errors@.len() > old(self).errors@.len(),
            expr is Field && refused_expr(*expr, arities(old(self).table.functions_view()))
                ==> final(self).errors@.len() > old(self).errors@.len(),
            expr is Field ==> (static_type(*expr, old(self).table) matches Some(t) ==> v.ty@ == t),
            scopes_kept(
                old(self).table.scopes_view(),
                final(self).table.scopes_view(),
                old(self).table.depth() as int,
            ),
            innermost_loop(old(self).func_ctx) is None && expr is Field && stray_jump(*expr)
                ==> final(self).errors@.len() > old(self).errors@.len(),
            expr matches Expr::Field { base, field } ==> (operand_place(**base, old(self).table) matches Some(pb) ==> (
            static_type(**base, old(self).table) matches Some(Ty::Tuple(es)) ==> (crate::text::parse_unsigned(
                field@,
                usize::MAX as nat,
            ) matches Some(k) ==> (k < es.len() ==> final(self).ir.code().last()@ == ("FIELD"@, pb, field@, v.place@))))),
        decreases expr, 1int,
    {
        proof {
            lemma_plain_ops();
        }
        let (base, field) = match expr {
            Expr::Field { base, field } => (&**base, field.as_str()),
            _ => {
                return ExprValue::error();
            },
        };
        let b = self.gen_expr(base);
        match self.check_field(&b.ty, field) {
            Some(elem_ty) => {
                let t = self.ir.new_temp();
                self.emit_plain("FIELD", b.place.as_str(), field, t.as_str());
                ExprValue::new(elem_ty, t)
            },
            None => ExprValue::error(),
        }
    }

    /// Evaluates `e`, the aggregate part of an assignment target, loading
    /// each nested element into a temporary. Every load of an element of an
    /// aggregate is recorded in `writes` as the store that puts the (then
    /// modified) temporary back: `(op, key, aggregate place, temporary)`.
    fn gen_container(&mut self, e: &Expr, writes: &mut Vec<(&'static str, String, String, String)>) -> (v: ExprValue)
        requires
            old(self).wf(),
            forall|k: int| 0 <= k < old(writes)@.len() ==> plain_op((#[trigger] old(writes)@[k]).0@),
        ensures
            final(self).grew(*old(self)),
            undeclared_use(*e, visible(old(self).table), old(self).table.functions_view().dom())
                ==> final(self).errors@.len() > old(self).errors@.len(),
            refused_expr(*e, arities(old(self).table.functions_view()))
                ==> final(self).errors@.len() > old(self).errors@.len(),
            scopes_kept(
                old(self).table.scopes_view(),
                final(self).table.scopes_view(),
                old(self).table.depth() as int,
            ),
            innermost_loop(old(self).func_ctx) is None && stray_jump(*e)
                ==> final(self).errors@.len() > old(self).errors@.len(),
            forall|k: int| 0 <= k < final(writes)@.len() ==> plain_op((#[trigger] final(writes)@[k]).0@),
            !(e is Index || e is Field) ==> final(writes)@ == old(writes)@,
            simple_operand(*e) ==> final(self).table == old(self).table,
            clean_operand(*e, old(self).table) ==> final(self).errors@ == old(self).errors@,
            !(e is Index || e is Field) ==> (operand_place(*e, old(self).table) matches Some(p) ==> v.place@ == p),
            !(e is Index || e is Field) ==> (static_type(*e, old(self).table) matches Some(t) ==> v.ty@ == t),
        decreases e, 3int,
    {
        proof {
            lemma_plain_ops();
        }
        match e {
            Expr::Index { base, index } => {
                let c = self.gen_container(&**base, writes);
                let i = self.gen_expr(&**index);
                match self.check_index(&c, &i, &**base, &**index) {
                    Some(elem_ty) => {
                        let t = self.ir.new_temp();
                        self.emit_plain("INDEX", c.place.as_str(), i.place.as_str(), t.as_str());
                        writes.push(("[]=", i.place, c.place, t.clone()));
                        ExprValue::new(elem_ty, t)
                    },
                    None => ExprValue::error(),
                }
            },
            Expr::Field { base, field } => {
                let c = self.gen_container(&**base, writes);
                match self.check_field(&c.ty, field.as_str()) {
                    Some(elem_ty) => {
                        let t = self.ir.new_temp();
                        self.emit_plain("FIELD", c.place.as_str(), field.as_str(), t.as_str());
                        writes.push((".=", field.clone(), c.place, t.clone()));
                        ExprValue::new(elem_ty, t)
                    },
                    None => ExprValue::error(),
                }
            },
            _ => self.gen_expr(e),
        }
    }

    fn gen_array(&mut self, elements: &Vec<Expr>) -> (v: ExprValue)
        requires
            old(self).wf(),
        ensures
            final(self).grew(*old(self)),
            (exists|i: int| 0 <= i < elements@.len() && undeclared_use(#[trigger] elements@[i], visible(old(self).table), old(self).table.functions_view().dom()))
                ==> final(self).errors@.len() > old(self).errors@.len(),
            (exists|i: int| 0 <= i < elements@.len() && refused_expr(#[trigger] elements@[i], arities(old(self).table.functions_view())))
                ==> final(self).errors@.len() > old(self).errors@.len(),
            scopes_kept(
                old(self).table.scopes_view(),
                final(self).table.scopes_view(),
                old(self).table.depth() as int,
            ),
            innermost_loop(old(self).func_ctx) is None && (exists|i: int| 0 <= i < elements@.len() && stray_jump(#[trigger] elements@[i]))
                ==> final(self).errors@.len() > old(self).errors@.len(),
            v.ty@ is Array && v.ty@->Array_1 == elements@.len(),
            elements@.len() == 0 ==> v.ty@ == Ty::Array(Box::new(Ty::Error), 0),
            elements@.len() > 0 ==> (static_type(elements@[0], old(self).table) matches Some(t0) ==> (is_known_spec(t0)
                ==> v.ty@ == Ty::Array(Box::new(t0), elements@.len()))),
            elements@.len() > 0 ==> (form_type(elements@[0]) matches Some(t0) ==> forall|j: int|
                0 < j < elements@.len() && (form_type(#[trigger] elements@[j]) matches Some(tj) && !compatible_spec(t0, tj))
                    ==> reported(
                    old(self).errors@,
                    final(self).errors@,
                    "数组元素类型不一致："@ + display_spec(t0) + " vs "@ + display_spec(form_type(elements@[j])->0)
                        + "（规则 8.2）"@,
                )),
        decreases elements, 1int,
    {
        proof {
            lemma_plain_ops();
        }
        let mut elem_ty: Option<Type> = None;
        let mut places: Vec<String> = Vec::new();
        let mut i: usize = 0;
        while i < elements.len()
            invariant
                i <= elements@.len(),
                i == 0 ==> elem_ty is None,
                innermost_loop(old(self).func_ctx) is None && (exists|k: int|
                    0 <= k < i && stray_jump(#[trigger] elements@[k])) ==> self.errors@.len() > old(self).errors@.len(),
                (exists|k: int| 0 <= k < i && refused_expr(#[trigger] elements@[k], arities(old(self).table.functions_view())))
                    ==> self.errors@.len() > old(self).errors@.len(),
                (exists|k: int| 0 <= k < i && undeclared_use(#[trigger] elements@[k], visible(old(self).table), old(self).table.functions_view().dom()))
                    ==> self.errors@.len() > old(self).errors@.len(),
                self.grew(*old(self)),
                scopes_kept(old(self).table.scopes_view(), self.table.scopes_view(), old(self).table.depth() as int),
                i > 0 ==> (form_type(elements@[0]) matches Some(t0) ==> elem_ty matches Some(et) && et@ == t0),
                i > 0 ==> (static_type(elements@[0], old(self).table) matches Some(t0) ==> (is_known_spec(t0)
                    ==> (elem_ty matches Some(et) && et@ == t0))),
                i == 0 ==> self.table == old(self).table,
                i > 0 ==> (form_type(elements@[0]) matches Some(t0) ==> forall|j: int|
                    0 < j < i && (form_type(#[trigger] elements@[j]) matches Some(tj) && !compatible_spec(t0, tj))
                        ==> reported(
                        old(self).errors@,
                        self.errors@,
                        "数组元素类型不一致："@ + display_spec(t0) + " vs "@ + display_spec(form_type(elements@[j])->0)
                            + "（规则 8.2）"@,
                    )),
            decreases elements@.len() - i,
        {
            let ghost e_before = self.errors@;
            let v = self.gen_expr(&elements[i]);
            proof {
                lemma_reported_kept_all(old(self).errors@, e_before, self.errors@);
                if form_type(elements@[i as int]) is Some {
                    assert(static_type(elements@[i as int], self.table) == form_type(elements@[i as int]));
                }
            }
            let ghost e_mid = self.errors@;
            match &elem_ty {
                Some(et) => {
                    if et.is_known() && v.ty.is_known() && !et.compatible(&v.ty) {
                        let d1 = et.display();
                        let d2 = v.ty.display();
                        let m = cat(&["数组元素类型不一致：", d1.as_str(), " vs ", d2.as_str(), "（规则 8.2）"]);
                        proof {
                            reveal_with_fuel(concat, 6);
                            lemma_reported_push(self.errors@, SemanticError { message: m });
                            lemma_reported_kept_all(old(self).errors@, e_mid, self.errors@.push(SemanticError { message: m }));
                        }
                        self.error(m);
                    }
                },
                None => {
                    if v.ty.is_known() {
                        elem_ty = Some(v.ty.clone());
                    }
                },
            }
            places.push(v.place);
            i = i + 1;
        }
        let element = match elem_ty {
            Some(t) => t,
            None => Type::Error,
        };
        let inferred = Type::Array { element: Box::new(element), length: elements.len() };
        assert(elements@.len() == 0 ==> element@ == Ty::Error);
        assert(elements@.len() == 0 ==> inferred@ == Ty::Array(Box::new(Ty::Error), 0));
        let t = self.ir.new_temp();
        let joined = join_strings(&places, ",");
        let n = usize_to_string(elements.len());
        self.emit_plain("ARRAY", joined.as_str(), n.as_str(), t.as_str());
        ExprValue::new(inferred, t)
    }

    fn gen_tuple(&mut self, elements: &Vec<Expr>) -> (v: ExprValue)
        requires
            old(self).wf(),
        ensures
            final(self).grew(*old(self)),
            (exists|i: int| 0 <= i < elements@.len() && undeclared_use(#[trigger] elements@[i], visible(old(self).table), old(self).table.functions_view().dom()))
                ==> final(self).errors@.len() > old(self).errors@.len(),
            (exists|i: int| 0 <= i < elements@.len() && refused_expr(#[trigger] elements@[i], arities(old(self).table.functions_view())))
                ==> final(self).errors@.len() > old(self).errors@.len(),
            scopes_kept(
                old(self).table.scopes_view(),
                final(self).table.scopes_view(),
                old(self).table.depth() as int,
            ),
            innermost_loop(old(self).func_ctx) is None && (exists|i: int| 0 <= i < elements@.len() && stray_jump(#[trigger] elements@[i]))
                ==> final(self).errors@.len() > old(self).errors@.len(),
            elements@.len() == 0 ==> v.ty@ == Ty::Unit,
            elements@.len() > 0 ==> v.ty@ is Tuple && v.ty@->Tuple_0.len() == elements@.len(),
        decreases elements, 1int,
    {
        proof {
            lemma_plain_ops();
        }
        let mut tys: Vec<Type> = Vec::new();
        let mut places: Vec<String> = Vec::new();
        let mut i: usize = 0;
        while i < elements.len()
            invariant
                i <= elements@.len(),
                innermost_loop(old(self).func_ctx) is None && (exists|k: int|
                    0 <= k < i && stray_jump(#[trigger] elements@[k])) ==> self.errors@.len() > old(self).errors@.len(),
                (exists|k: int| 0 <= k < i && refused_expr(#[trigger] elements@[k], arities(old(self).table.functions_view())))
                    ==> self.errors@.len() > old(self).errors@.len(),
                (exists|k: int| 0 <= k < i && undeclared_use(#[trigger] elements@[k], visible(old(self).table), old(self).table.functions_view().dom()))
                    ==> self.errors@.len() > old(self).errors@.len(),
                tys@.len() == i,
                self.grew(*old(self)),
                scopes_kept(old(self).table.scopes_view(), self.table.scopes_view(), old(self).table.depth() as int),
            decreases elements@.len() - i,
        {
            let v = self.gen_expr(&elements[i]);
            tys.push(v.ty);
            places.push(v.place);
            i = i + 1;
        }
        let ty = if tys.len() == 0 {
            Type::Unit
        } else {
            Type::Tuple { elements: tys }
        };
        proof {
            crate::types::lemma_tys_view(tys@);
        }
        let t = self.ir.new_temp();
        let joined = join_strings(&places, ",");
        let n = usize_to_string(elements.len());
        self.emit_plain("TUPLE", joined.as_str(), n.as_str(), t.as_str());
        ExprValue::new(ty, t)
    }

    /// A block used as an expression: its value is the tail's, or `()`.
    fn gen_block_expr(&mut self, block: &Block) -> (v: ExprValue)
        requires
            old(self).wf(),
        ensures
            final(self).grew(*old(self)),
            undeclared_in_block(*block, visible(old(self).table), old(self).table.functions_view().dom())
                ==> final(self).errors@.len() > old(self).errors@.len(),
            refused_block(*block, arities(old(self).table.functions_view()))
                ==> final(self).errors@.len() > old(self).errors@.len(),
            scopes_kept(
                old(self).table.scopes_view(),
                final(self).table.scopes_view(),
                old(self).table.depth() as int,
            ),
            innermost_loop(old(self).func_ctx) is None && stray_jump_block(*block)
                ==> final(self).errors@.len() > old(self).errors@.len(),
            block.tail is None ==> v.ty@ == Ty::Unit,
            literal_tail_type(*block) matches Some(t) ==> v.ty@ == t,
            literal_tail(*block) matches Some(x) ==> v.place@ == x,
        decreases block, 1int,
    {
        self.push_scope();
        proof {
            crate::symbol::lemma_visible_push(old(self).table, self.table);
        }
        let mut i: usize = 0;
        while i < block.statements.len()
            invariant
                i <= block.statements@.len(),
                self.wf(),
                prefix_of(old(self).errors@, self.errors@),
                prefix_of(old(self).ir.code(), self.ir.code()),
                self.table.depth() == old(self).table.depth() + 1,
                self.table.functions_view() == old(self).table.functions_view(),
                ctx_shape(self.func_ctx) == ctx_shape(old(self).func_ctx),
                loop_targets(self.func_ctx) == loop_targets(old(self).func_ctx),
                self.pending == old(self).pending,
                scopes_kept(
                    old(self).table.scopes_view().push(Map::empty()),
                    self.table.scopes_view(),
                    old(self).table.depth() as int,
                ),
                innermost_loop(old(self).func_ctx) is None && (exists|k: int|
                    0 <= k < i && stray_jump_stmt(#[trigger] block.statements@[k])) ==> self.errors@.len()
                    > old(self).errors@.len(),
                (exists|k: int| 0 <= k < i && refused_stmt(#[trigger] block.statements@[k], arities(old(self).table.functions_view())))
                    ==> self.errors@.len() > old(self).errors@.len(),
                visible(self.table) == visible(old(self).table).union(lets_before(block.statements@, i as int)),
                (exists|k: int|
                    0 <= k < i && undeclared_in_stmt(
                        #[trigger] block.statements@[k],
                        visible(old(self).table).union(lets_before(block.statements@, k)),
                        old(self).table.functions_view().dom(),
                    )) ==> self.errors@.len() > old(self).errors@.len(),
            decreases block.statements@.len() - i,
        {
            let ghost before = self.table;
            self.gen_stmt(&block.statements[i]);
            proof {
                let st = block.statements@[i as int];
                let l0 = lets_before(block.statements@, i as int);
                let l1 = lets_before(block.statements@, i + 1);
                match st {
                    Statement::Let { binding, .. } => {
                        assert(l1 == l0.insert(binding.name@));
                        assert(visible(old(self).table).union(l1) =~= visible(old(self).table).union(l0).insert(
                            binding.name@,
                        ));
                    },
                    _ => {
                        assert(l1 == l0);
                        assert(visible(self.table) == visible(before));
                    },
                }
            }
            i = i + 1;
        }
        let result = match &block.tail {
            Some(tail) => self.gen_expr(&**tail),
            None => ExprValue::new(Type::Unit, String::from_str(PLACEHOLDER)),
        };
        self.check_current_scope_uninferred();
        let ghost inner = self.table.scopes_view();
        self.pop_scope();
        proof {
            lemma_kept_through_scope(old(self).table.scopes_view(), inner);
        }
        result
    }

    fn gen_if_expr(&mut self, expr: &Expr) -> (v: ExprValue)
        requires
            old(self).wf(),
        ensures
            final(self).grew(*old(self)),
            expr is If && undeclared_use(*expr, visible(old(self).table), old(self).table.functions_view().dom())
                ==> final(self).errors@.len() > old(self).errors@.len(),
            expr is If && refused_expr(*expr, arities(old(self).table.functions_view()))
                ==> final(self).errors@.len() > old(self).errors@.len(),
            scopes_kept(
                old(self).table.scopes_view(),
                final(self).table.scopes_view(),
                old(self).table.depth() as int,
            ),
            innermost_loop(old(self).func_ctx) is None && expr is If && stray_jump(*expr)
                ==> final(self).errors@.len() > old(self).errors@.len(),
            expr matches Expr::If { condition, then_branch, else_branch } ==> {
                let q = final(self).ir.code();
                &&& q.last()@.0 == "LABEL"@
                &&& exists|k: int|
                    old(self).ir.code().len() <= k < q.len() - 1 && (#[trigger] q[k])@.0 == "IF_FALSE"@ && (operand_place(
                        **condition,
                        old(self).table,
                    ) matches Some(pc) ==> q[k]@.1 == pc) && (**condition matches Expr::Binary { op, .. } ==> (op
                        != BinaryOp::Range ==> 0 < k && q[k]@.1 == q[k - 1]@.3)) && if else_branch
                        is NoElse {
                        q[k]@.3 == q.last()@.1
                    } else {
                        exists|j: int|
                            k < j < q.len() - 2 && (#[trigger] q[j])@ == ("GOTO"@, PLACEHOLDER@, PLACEHOLDER@, q.last()@.1)
                                && q[j + 1]@.0 == "LABEL"@ && q[j + 1]@.1 == q[k]@.3
                    }
                &&& else_branch is NoElse && then_branch.tail is None ==> v.ty@ == Ty::Unit
            },
            expr matches Expr::If { then_branch, else_branch, .. } ==> (else_branch matches ElseBranch::Block { block }
                ==> (literal_tail(*then_branch) matches Some(x) ==> (literal_tail(*block) matches Some(y) ==> {
                let q = final(self).ir.code();
                &&& q[q.len() - 2]@ == ("="@, y, PLACEHOLDER@, v.place@)
                &&& exists|j: int|
                    old(self).ir.code().len() <= j < q.len() - 2 && (#[trigger] q[j])@ == ("="@, x, PLACEHOLDER@, v.place@)
                        && q[j + 1]@ == ("GOTO"@, PLACEHOLDER@, PLACEHOLDER@, q.last()@.1)
            }))),
            expr matches Expr::If { then_branch, else_branch, .. } ==> (else_branch is NoElse ==> (literal_tail_type(
                *then_branch,
            ) matches Some(t) ==> reported(
                old(self).errors@,
                final(self).errors@,
                "无 `else` 分支的 if 表达式尾值必须为 `()`，实际类型 "@ + display_spec(t),
            ))),
            expr matches Expr::If { then_branch, else_branch, .. } ==> (else_branch matches ElseBranch::Block { block }
                ==> (literal_tail_type(*then_branch) matches Some(t1) ==> (literal_tail_type(*block) matches Some(t2)
                ==> (!compatible_spec(t1, t2) ==> reported(
                old(self).errors@,
                final(self).errors@,
                "if 表达式分支类型不一致："@ + display_spec(t1) + " vs "@ + display_spec(t2),
            ))))),
            expr matches Expr::If { condition, .. } ==> (static_type(**condition, old(self).table) matches Some(t)
                ==> (is_known_spec(t) && !(t is Bool || t is I32) ==> reported(
                old(self).errors@,
                final(self).errors@,
                condition_message("if"@, t),
            ))),
        decreases expr, 1int,
    {
        proof {
            lemma_plain_ops();
        }
        let (condition, then_branch, else_branch) = match expr {
            Expr::If { condition, then_branch, else_branch } => (&**condition, then_branch, else_branch),
            _ => {
                return ExprValue::error();
            },
        };
        let cond = self.gen_expr(condition);
        self.check_condition_type(&cond.ty, "if");
        let ghost e1 = self.errors@;
        let label_else = self.ir.new_label();
        proof {
            lemma_label_not_placeholder(self.ir.labels() as nat);
        }
        let label_end = self.ir.new_label();
        proof {
            lemma_label_not_placeholder(self.ir.labels() as nat);
        }
        let has_else = match else_branch {
            ElseBranch::NoElse => false,
            _ => true,
        };
        let ghost p0 = self.pending@;
        let ghost extra = if has_else { set![label_else@, label_end@] } else { set![label_end@] };
        proof {
            lemma_widen(self.func_ctx, self.ir.code(), p0, extra);
        }
        self.pending = Ghost(p0.union(extra));
        let ghost mut c_else: Seq<Quadruple> = Seq::empty();
        let ghost kf = self.ir.code().len() as int;
        let ghost c_cond = self.ir.code();
        let ghost mut kg: int = 0;
        if has_else {
            self.emit_jump("IF_FALSE", cond.place.as_str(), label_else.as_str());
        } else {
            self.emit_jump("IF_FALSE", cond.place.as_str(), label_end.as_str());
        }
        let ghost c_jump = self.ir.code();
        let ghost e_c = self.errors@;
        assert(innermost_loop(old(self).func_ctx) is None && stray_jump(*condition) ==> e_c.len() > old(self).errors@.len());
        assert(refused_expr(*condition, arities(old(self).table.functions_view())) ==> e_c.len() > old(self).errors@.len());
        assert(undeclared_use(*condition, visible(old(self).table), old(self).table.functions_view().dom()) ==> e_c.len() > old(self).errors@.len());
        let then_val = self.gen_block_expr(then_branch);
        let ghost e_t = self.errors@;
        assert(innermost_loop(old(self).func_ctx) is None && stray_jump_block(*then_branch) ==> e_t.len()
            > old(self).errors@.len());
        assert(refused_block(*then_branch, arities(old(self).table.functions_view())) ==> e_t.len() > old(self).errors@.len());
        assert(undeclared_in_block(*then_branch, visible(old(self).table), old(self).table.functions_view().dom()) ==> e_t.len() > old(self).errors@.len());
        let mut result_temp: Option<String> = None;
        let mut result_ty = then_val.ty.clone();
        let ghost kt = self.ir.code().len() as int;
        if !is_unit(&then_val.ty) {
            let t = self.ir.new_temp();
            self.emit_plain("=", then_val.place.as_str(), PLACEHOLDER, t.as_str());
            result_temp = Some(t);
        }
        let ghost c_then = self.ir.code();
        let else_val: Option<ExprValue> = match else_branch {
            ElseBranch::NoElse => None,
            ElseBranch::Block { block } => {
                proof {
                    kg = self.ir.code().len() as int;
                }
                self.emit_jump("GOTO", PLACEHOLDER, label_end.as_str());
                self.define_label(label_else.as_str());
                proof {
                    c_else = self.ir.code();
                }
                Some(self.gen_block_expr(block))
            },
            ElseBranch::ElseIf { expr: inner } => {
                proof {
                    kg = self.ir.code().len() as int;
                }
                self.emit_jump("GOTO", PLACEHOLDER, label_end.as_str());
                self.define_label(label_else.as_str());
                proof {
                    c_else = self.ir.code();
                }
                Some(self.gen_expr(&**inner))
            },
        };
        let ghost e_e = self.errors@;
        assert(innermost_loop(old(self).func_ctx) is None && crate::ast::stray_jump_else(*else_branch) ==> e_e.len()
            > old(self).errors@.len());
        assert(refused_else(*else_branch, arities(old(self).table.functions_view())) ==> e_e.len() > old(self).errors@.len());
        assert(undeclared_in_else(*else_branch, visible(old(self).table), old(self).table.functions_view().dom()) ==> e_e.len() > old(self).errors@.len());
        match else_val {
            Some(ev) => {
                if ev.ty.is_known() && result_ty.is_known() && !result_ty.compatible(&ev.ty) {
                    let d1 = result_ty.display();
                    let d2 = ev.ty.display();
                    let m = cat(&["if 表达式分支类型不一致：", d1.as_str(), " vs ", d2.as_str()]);
                    proof {
                        reveal_with_fuel(concat, 5);
                        lemma_reported_push(self.errors@, SemanticError { message: m });
                    }
                    self.error(m);
                }
                if is_unit(&result_ty) {
                    result_ty = ev.ty.clone();
                }
                if !is_unit(&ev.ty) {
                    let t = match &result_temp {
                        Some(t) => t.clone(),
                        None => self.ir.new_temp(),
                    };
                    self.emit_plain("=", ev.place.as_str(), PLACEHOLDER, t.as_str());
                    result_temp = Some(t);
                }
                proof {
                    if literal_tail(*then_branch) is Some {
                        if let ElseBranch::Block { block } = else_branch {
                            if literal_tail(*block) is Some {
                                assert(self.ir.code()[kt] == c_then[kt]);
                                assert(self.ir.code()[kg] == c_else[kg]);
                            }
                        }
                    }
                }
            },
            None => {
                if result_ty.is_known() && !is_unit(&result_ty) {
                    let d = result_ty.display();
                    let m = cat(&["无 `else` 分支的 if 表达式尾值必须为 `()`，实际类型 ", d.as_str()]);
                    proof {
                        reveal_with_fuel(concat, 3);
                        lemma_reported_push(self.errors@, SemanticError { message: m });
                    }
                    self.error(m);
                    result_ty = Type::Error;
                }
            },
        }
        self.define_label(label_end.as_str());
        proof {
            if has_else {
                lemma_label_defined_extend(c_else, self.ir.code(), label_else@);
            }
            lemma_settle(self.func_ctx, self.ir.code(), p0, extra);
        }
        self.pending = Ghost(p0);
        proof {
            let q = self.ir.code();
            assert(q[kf] == c_jump[kf]);
            if kf > 0 {
                assert(q[kf - 1] == c_cond[kf - 1]);
            }
            if has_else {
                assert(q[kg] == c_else[kg]);
                assert(q[kg + 1] == c_else[kg + 1]);
                if kt < c_then.len() {
                    assert(q[kt] == c_then[kt]);
                }
            }
            if let Some(t) = static_type(*condition, old(self).table) {
                if is_known_spec(t) && !(t is Bool || t is I32) {
                    lemma_reported_kept(old(self).errors@, e1, self.errors@, condition_message("if"@, t));
                }
            }
        }
        let place = match result_temp {
            Some(t) => t,
            None => String::from_str(PLACEHOLDER),
        };
        ExprValue::new(result_ty, place)
    }

    fn gen_loop_expr(&mut self, body: &Block) -> (v: ExprValue)
        requires
            old(self).wf(),
        ensures
            final(self).grew(*old(self)),
            undeclared_in_block(*body, visible(old(self).table), old(self).table.functions_view().dom())
                ==> final(self).errors@.len() > old(self).errors@.len(),
            refused_block(*body, arities(old(self).table.functions_view()))
                ==> final(self).errors@.len() > old(self).errors@.len(),
            scopes_kept(
                old(self).table.scopes_view(),
                final(self).table.scopes_view(),
                old(self).table.depth() as int,
            ),
            loop_frame(final(self).ir.code(), old(self).ir.code().len() as int),
        decreases body, 1int,
    {
        proof {
            lemma_plain_ops();
        }
        let label_start = self.ir.new_label();
        let ghost l1 = self.ir.labels();
        proof {
            lemma_label_not_placeholder(self.ir.labels() as nat);
        }
        let label_end = self.ir.new_label();
        proof {
            lemma_label_not_placeholder(self.ir.labels() as nat);
            lemma_label_names_distinct(l1 as nat, self.ir.labels() as nat);
        }
        let result_place = self.ir.new_temp();
        let ghost p0 = self.pending@;
        let ghost extra = set![label_end@];
        let ghost n0 = self.ir.code().len() as int;
        self.define_label(label_start.as_str());
        let ghost c1 = self.ir.code();
        proof {
            lemma_widen(self.func_ctx, self.ir.code(), p0, extra);
        }
        self.pending = Ghost(p0.union(extra));
        let ghost targets0 = loop_targets(self.func_ctx);
        self.enter_loop(label_start.clone(), label_end.clone(), Some(result_place.clone()));
        self.gen_block_stmt(body);
        let break_type = self.leave_loop(true);
        proof {
            if self.func_ctx is Some {
                assert(loop_targets(self.func_ctx) =~= targets0);
            }
        }
        proof {
            lemma_label_defined_extend(c1, self.ir.code(), label_start@);
        }
        self.emit_jump("GOTO", PLACEHOLDER, label_start.as_str());
        self.define_label(label_end.as_str());
        proof {
            lemma_settle(self.func_ctx, self.ir.code(), p0, extra);
        }
        self.pending = Ghost(p0);
        assert(self.ir.code()[n0] == c1[n0]);
        let ty = match break_type {
            Some(t) => t,
            None => Type::Unit,
        };
        ExprValue::new(ty, result_place)
    }
}

/// The function at index `k` has a name taken by an earlier function of the
/// list or by one already registered (`known`).
pub open spec fn taken_before(fs: Seq<FunctionDecl>, known: Set<Seq<char>>, k: int) -> bool {
    known.contains(fs[k].name@) || exists|j: int| 0 <= j < k && (#[trigger] fs[j]).name@ == fs[k].name@
}

/// The names of the functions that get analyzed, in order: those whose name
/// is not taken before them.
pub open spec fn fresh_names(fs: Seq<FunctionDecl>, known: Set<Seq<char>>) -> Seq<Seq<char>>
    decreases fs.len(),
{
    if fs.len() == 0 {
        Seq::empty()
    } else if taken_before(fs, known, fs.len() - 1) {
        fresh_names(fs.drop_last(), known)
    } else {
        fresh_names(fs.drop_last(), known).push(fs.last().name@)
    }
}

/// Quadruples `from..to` of `q` are the code of the function `name`: they
/// open with `(FUNC, name, _, _)` and close with a `RETURN` followed by
/// `(END_FUNC, name, _, _)`.
pub open spec fn is_function_segment(q: Seq<Quadruple>, from: int, to: int, name: Seq<char>) -> bool {
    &&& 0 <= from
    &&& from + 3 <= to <= q.len()
    &&& q[from]@ == ("FUNC"@, name, PLACEHOLDER@, PLACEHOLDER@)
    &&& q[to - 2]@.0 == "RETURN"@
    &&& q[to - 1]@ == ("END_FUNC"@, name, PLACEHOLDER@, PLACEHOLDER@)
}

/// From position `start` on, `q` is the concatenation of one function
/// segment per name of `names`, in order, split at `bounds`.
pub open spec fn segmented(q: Seq<Quadruple>, start: int, names: Seq<Seq<char>>, bounds: Seq<int>) -> bool {
    &&& bounds.len() == names.len() + 1
    &&& bounds[0] == start
    &&& bounds.last() == q.len()
    &&& forall|k: int| 0 <= k < names.len() ==> is_function_segment(q, #[trigger] bounds[k], bounds[k + 1], names[k])
}

proof fn lemma_fresh_names_step(fs: Seq<FunctionDecl>, known: Set<Seq<char>>, i: int)
    requires
        0 <= i < fs.len(),
    ensures
        fresh_names(fs.subrange(0, i + 1), known) == if taken_before(fs, known, i) {
            fresh_names(fs.subrange(0, i), known)
        } else {
            fresh_names(fs.subrange(0, i), known).push(fs[i].name@)
        },
{
    let p = fs.subrange(0, i + 1);
    assert(p.drop_last() =~= fs.subrange(0, i));
    assert(taken_before(p, known, i) == taken_before(fs, known, i)) by {
        if taken_before(fs, known, i) && !known.contains(fs[i].name@) {
            let j = choose|j: int| 0 <= j < i && (#[trigger] fs[j]).name@ == fs[i].name@;
            assert(p[j] == fs[j]);
        }
        if taken_before(p, known, i) && !known.contains(fs[i].name@) {
            let j = choose|j: int| 0 <= j < i && (#[trigger] p[j]).name@ == p[i].name@;
            assert(p[j] == fs[j]);
        }
    }
}

proof fn lemma_segmented_extend(
    before: Seq<Quadruple>,
    after: Seq<Quadruple>,
    start: int,
    names: Seq<Seq<char>>,
    bounds: Seq<int>,
    name: Seq<char>,
)
    requires
        segmented(before, start, names, bounds),
        prefix_of(before, after),
        is_function_segment(after, before.len() as int, after.len() as int, name),
    ensures
        segmented(after, start, names.push(name), bounds.push(after.len() as int)),
{
    let nb = bounds.push(after.len() as int);
    let nn = names.push(name);
    assert forall|k: int| 0 <= k < nn.len() implies is_function_segment(after, #[trigger] nb[k], nb[k + 1], nn[k]) by {
        if k < names.len() {
            assert(is_function_segment(before, bounds[k], bounds[k + 1], names[k]));
            assert(nb[k] == bounds[k]);
            assert(nb[k + 1] == bounds[k + 1]);
            assert(after[bounds[k]] == before[bounds[k]]);
            assert(after[bounds[k + 1] - 2] == before[bounds[k + 1] - 2]);
            assert(after[bounds[k + 1] - 1] == before[bounds[k + 1] - 1]);
        }
    }
}

} // verus!
