//! The abstract syntax tree produced by the parser.
use vstd::prelude::*;

verus! {

/// A whole program: a list of function declarations.
#[derive(Debug)]
pub struct Program {
    pub kind: &'static str,
    pub functions: Vec<FunctionDecl>,
}

/// `fn name(params) -> return_type body`
#[derive(Debug)]
pub struct FunctionDecl {
    pub kind: &'static str,
    pub name: String,
    pub params: Vec<Binding>,
    pub return_type: Option<TypeNode>,
    pub body: Block,
}

/// A variable binding: `mut name: ty`, the type being optional.
#[derive(Debug)]
pub struct Binding {
    pub kind: &'static str,
    pub mutable: bool,
    pub name: String,
    pub ty: Option<TypeNode>,
}

/// `{ statements tail }`, where the tail is the optional final expression.
#[derive(Debug)]
pub struct Block {
    pub kind: &'static str,
    pub statements: Vec<Statement>,
    pub tail: Option<Box<Expr>>,
}

#[allow(inconsistent_fields)]
#[derive(Debug)]
pub enum Statement {
    Empty,
    Let { binding: Binding, init: Option<Box<Expr>> },
    Assign { target: Box<Expr>, value: Box<Expr> },
    Expr { expr: Box<Expr> },
    Return { value: Option<Box<Expr>> },
    While { condition: Box<Expr>, body: Block },
    For { binding: Binding, iterable: Box<Expr>, body: Block },
    Break { value: Option<Box<Expr>> },
    Continue,
}

#[allow(inconsistent_fields)]
#[derive(Debug)]
pub enum Expr {
    Identifier { name: String },
    Number { value: String },
    Unary { op: UnaryOp, expr: Box<Expr> },
    Binary { left: Box<Expr>, op: BinaryOp, right: Box<Expr> },
    Call { callee: Box<Expr>, args: Vec<Expr> },
    Index { base: Box<Expr>, index: Box<Expr> },
    Field { base: Box<Expr>, field: String },
    Array { elements: Vec<Expr> },
    Tuple { elements: Vec<Expr> },
    Block { block: Block },
    If { condition: Box<Expr>, then_branch: Block, else_branch: ElseBranch },
    Loop { body: Block },
}

#[derive(Debug)]
pub enum ElseBranch {
    NoElse,
    Block { block: Block },
    ElseIf { expr: Box<Expr> },
}

#[derive(Debug, Clone, Copy, PartialEq, Eq, Structural)]
pub enum UnaryOp {
    Ref,
    RefMut,
    Deref,
    Neg,
}

#[derive(Debug, Clone, Copy, PartialEq, Eq, Structural)]
pub enum BinaryOp {
    Add,
    Sub,
    Mul,
    Div,
    Lt,
    Le,
    Gt,
    Ge,
    Eq,
    Ne,
    Range,
}

#[derive(Debug)]
pub enum TypeNode {
    Named { name: String },
    Reference { mutable: bool, ty: Box<TypeNode> },
    Array { element: Box<TypeNode>, length: usize },
    Tuple { elements: Vec<TypeNode> },
    Unit,
}

/// Expressions that may stand on the left of `=`: a variable, a dereference,
/// an index or a tuple field.
pub open spec fn assignable(e: Expr) -> bool {
    match e {
        Expr::Identifier { .. } => true,
        Expr::Unary { op, .. } => op == UnaryOp::Deref,
        Expr::Index { .. } => true,
        Expr::Field { .. } => true,
        _ => false,
    }
}

/// Expressions that may be followed by a call's argument list.
pub open spec fn callable(e: Expr) -> bool {
    e is Identifier || e is Field || e is Index
}

/// Block-like expressions, which may stand as statements without `;`.
pub open spec fn block_like(e: Expr) -> bool {
    e is Block || e is If || e is Loop
}

/// The shape every expression built by the parser has: assignment targets
/// are assignable, callees are callable, `else if` holds an `if`, and a range
/// `a..b` appears only as the iterable of a `for` loop.
pub open spec fn expr_wf(e: Expr) -> bool
    decreases e,
{
    match e {
        Expr::Identifier { .. } => true,
        Expr::Number { .. } => true,
        Expr::Unary { expr, .. } => expr_wf(*expr),
        Expr::Binary { left, op, right } => op != BinaryOp::Range && expr_wf(*left) && expr_wf(*right),
        Expr::Call { callee, args } => callable(*callee) && expr_wf(*callee) && forall|i: int|
            0 <= i < args@.len() ==> expr_wf(#[trigger] args@[i]),
        Expr::Index { base, index } => expr_wf(*base) && expr_wf(*index),
        Expr::Field { base, .. } => expr_wf(*base),
        Expr::Array { elements } => forall|i: int|
            0 <= i < elements@.len() ==> expr_wf(#[trigger] elements@[i]),
        Expr::Tuple { elements } => forall|i: int|
            0 <= i < elements@.len() ==> expr_wf(#[trigger] elements@[i]),
        Expr::Block { block } => block_wf(block),
        Expr::If { condition, then_branch, else_branch } => expr_wf(*condition) && block_wf(then_branch)
            && else_wf(else_branch),
        Expr::Loop { body } => block_wf(body),
    }
}

pub open spec fn else_wf(e: ElseBranch) -> bool
    decreases e,
{
    match e {
        ElseBranch::NoElse => true,
        ElseBranch::Block { block } => block_wf(block),
        ElseBranch::ElseIf { expr } => (*expr is If) && expr_wf(*expr),
    }
}

pub open spec fn block_wf(b: Block) -> bool
    decreases b,
{
    &&& forall|i: int| 0 <= i < b.statements@.len() ==> stmt_wf(#[trigger] b.statements@[i])
    &&& match b.tail {
        Some(t) => expr_wf(*t),
        None => true,
    }
}

pub open spec fn opt_expr_wf(e: Option<Box<Expr>>) -> bool {
    match e {
        Some(x) => expr_wf(*x),
        None => true,
    }
}

/// A `for` iterable: a range `a..b` of well-formed operands, or a
/// well-formed expression.
pub open spec fn iterable_wf(e: Expr) -> bool {
    match e {
        Expr::Binary { left, op: BinaryOp::Range, right } => expr_wf(*left) && expr_wf(*right),
        _ => expr_wf(e),
    }
}

pub open spec fn stmt_wf(s: Statement) -> bool
    decreases s,
{
    match s {
        Statement::Empty => true,
        Statement::Let { init, .. } => match init {
            Some(x) => expr_wf(*x),
            None => true,
        },
        Statement::Assign { target, value } => assignable(*target) && expr_wf(*target) && expr_wf(*value),
        Statement::Expr { expr } => expr_wf(*expr),
        Statement::Return { value } => match value {
            Some(x) => expr_wf(*x),
            None => true,
        },
        Statement::While { condition, body } => expr_wf(*condition) && block_wf(body),
        Statement::For { iterable, body, .. } => match *iterable {
            Expr::Binary { left, op: BinaryOp::Range, right } => expr_wf(*left) && expr_wf(*right) && block_wf(body),
            _ => expr_wf(*iterable) && block_wf(body),
        },
        Statement::Break { value } => match value {
            Some(x) => expr_wf(*x),
            None => true,
        },
        Statement::Continue => true,
    }
}

/// `e` holds a `break` or `continue` that no loop within `e` encloses: one
/// that, evaluated outside any loop, has nowhere to jump.
pub open spec fn stray_jump(e: Expr) -> bool
    decreases e,
{
    match e {
        Expr::Identifier { .. } => false,
        Expr::Number { .. } => false,
        Expr::Unary { expr, .. } => stray_jump(*expr),
        Expr::Binary { left, right, .. } => stray_jump(*left) || stray_jump(*right),
        Expr::Call { callee, args } => stray_jump(*callee) || exists|i: int|
            0 <= i < args@.len() && stray_jump(#[trigger] args@[i]),
        Expr::Index { base, index } => stray_jump(*base) || stray_jump(*index),
        Expr::Field { base, .. } => stray_jump(*base),
        Expr::Array { elements } => exists|i: int| 0 <= i < elements@.len() && stray_jump(#[trigger] elements@[i]),
        Expr::Tuple { elements } => exists|i: int| 0 <= i < elements@.len() && stray_jump(#[trigger] elements@[i]),
        Expr::Block { block } => stray_jump_block(block),
        Expr::If { condition, then_branch, else_branch } => stray_jump(*condition) || stray_jump_block(then_branch)
            || stray_jump_else(else_branch),
        Expr::Loop { .. } => false,
    }
}

/// The `else` part holds a stray `break` or `continue`.
pub open spec fn stray_jump_else(e: ElseBranch) -> bool
    decreases e,
{
    match e {
        ElseBranch::NoElse => false,
        ElseBranch::Block { block } => stray_jump_block(block),
        ElseBranch::ElseIf { expr } => stray_jump(*expr),
    }
}

/// The block holds a stray `break` or `continue`.
pub open spec fn stray_jump_block(b: Block) -> bool
    decreases b,
{
    ||| exists|i: int| 0 <= i < b.statements@.len() && stray_jump_stmt(#[trigger] b.statements@[i])
    ||| match b.tail {
        Some(t) => stray_jump(*t),
        None => false,
    }
}

/// The statement is, or holds outside any loop body, a `break` or
/// `continue`. A loop's condition or iterable is outside its body.
pub open spec fn stray_jump_stmt(s: Statement) -> bool
    decreases s,
{
    match s {
        Statement::Empty => false,
        Statement::Let { init, .. } => match init {
            Some(x) => stray_jump(*x),
            None => false,
        },
        Statement::Assign { target, value } => stray_jump(*target) || stray_jump(*value),
        Statement::Expr { expr } => stray_jump(*expr),
        Statement::Return { value } => match value {
            Some(x) => stray_jump(*x),
            None => false,
        },
        Statement::While { condition, .. } => stray_jump(*condition),
        Statement::For { iterable, .. } => stray_jump(*iterable),
        Statement::Break { .. } => true,
        Statement::Continue => true,
    }
}

/// Every parameter of a function carries a type.
pub open spec fn function_wf(f: FunctionDecl) -> bool {
    &&& forall|i: int| 0 <= i < f.params@.len() ==> (#[trigger] f.params@[i]).ty is Some
    &&& block_wf(f.body)
}

pub open spec fn program_wf(p: Program) -> bool {
    forall|i: int| 0 <= i < p.functions@.len() ==> function_wf(#[trigger] p.functions@[i])
}

impl Program {
    pub(crate) fn new(functions: Vec<FunctionDecl>) -> (p: Self)
        ensures
            p.functions == functions,
    {
        Program { kind: "Program", functions }
    }
}

impl FunctionDecl {
    pub(crate) fn new(name: String, params: Vec<Binding>, return_type: Option<TypeNode>, body: Block) -> (f: Self)
        ensures
            f.name == name,
            f.params == params,
            f.return_type == return_type,
            f.body == body,
    {
        FunctionDecl { kind: "FunctionDecl", name, params, return_type, body }
    }
}

impl Binding {
    pub(crate) fn new(name: String, mutable: bool, ty: Option<TypeNode>) -> (b: Self)
        ensures
            b.name == name,
            b.mutable == mutable,
            b.ty == ty,
    {
        Binding { kind: "Binding", mutable, name, ty }
    }
}

impl Block {
    pub(crate) fn new(statements: Vec<Statement>, tail: Option<Box<Expr>>) -> (b: Self)
        ensures
            b.statements == statements,
            b.tail == tail,
    {
        Block { kind: "Block", statements, tail }
    }
}

impl Expr {
    /// Whether the expression may stand on the left of `=`.
    pub fn is_assignable(&self) -> (r: bool)
        ensures
            r == assignable(*self),
    {
        match self {
            Expr::Identifier { .. } => true,
            Expr::Unary { op: UnaryOp::Deref, .. } => true,
            Expr::Index { .. } => true,
            Expr::Field { .. } => true,
            _ => false,
        }
    }

    /// Whether the expression is block-like and may stand as a statement
    /// without a terminating `;`.
    pub fn can_stand_without_semicolon(&self) -> (r: bool)
        ensures
            r == block_like(*self),
    {
        match self {
            Expr::Block { .. } => true,
            Expr::If { .. } => true,
            Expr::Loop { .. } => true,
            _ => false,
        }
    }
}

} // verus!
