//! Rust source as far as tracing looks at it.

use vstd::prelude::*;

verus! {

/// A part of the source: lines count from one, columns from zero, in characters.
#[derive(Debug, Clone, Copy, PartialEq, Eq, Structural)]
pub struct Place {
    pub start_line: usize,
    pub start_col: usize,
    pub end_line: usize,
    pub end_col: usize,
}

/// A token of a macro's input.
#[derive(Debug)]
pub enum Token {
    Ident(String),
    Punct(char),
    /// A literal as it is written, with its quotes.
    Literal(String),
    /// What stands between brackets.
    Group(Vec<Token>),
}

/// A call of a macro.
#[derive(Debug)]
pub struct MacroCall {
    pub path: Vec<String>,
    pub tokens: Vec<Token>,
}

/// An expression.
#[derive(Debug)]
pub struct Expression {
    pub span: Place,
    pub kind: ExprKind,
}

/// The kinds of expressions.
#[derive(Debug)]
pub enum ExprKind {
    /// A path, by its segments; `qself` where it begins with `<T as ..>`.
    Path { segments: Vec<String>, qself: bool },
    Call { func: Box<Expression>, args: Vec<Expression> },
    MethodCall { receiver: Box<Expression>, method: String, args: Vec<Expression> },
    Macro(MacroCall),
    Struct,
    Closure(Box<Expression>),
    Block(Body),
    Unsafe(Body),
    Loop(Body),
    If { cond: Box<Expression>, body: Body, otherwise: Option<Box<Expression>> },
    Match { expr: Box<Expression>, arms: Vec<MatchArm> },
    While { cond: Box<Expression>, body: Body },
    ForLoop { expr: Box<Expression>, body: Body },
    Return(Option<Box<Expression>>),
    Try(Box<Expression>),
    Await(Box<Expression>),
    Unary(Box<Expression>),
    Let(Box<Expression>),
    Reference(Box<Expression>),
    Paren(Box<Expression>),
    Binary(Box<Expression>, Box<Expression>),
    Assign(Box<Expression>, Box<Expression>),
    Tuple(Vec<Expression>),
    Array(Vec<Expression>),
    Other,
}

/// An arm of a `match`.
#[derive(Debug)]
pub struct MatchArm {
    pub guard: Option<Box<Expression>>,
    pub body: Box<Expression>,
}

/// A block of statements.
#[derive(Debug)]
pub struct Body {
    pub stmts: Vec<Statement>,
}

/// A statement. Its span holds the `;` that ends it.
#[derive(Debug)]
pub struct Statement {
    pub span: Place,
    pub kind: StmtKind,
}

/// The kinds of statements.
#[derive(Debug)]
pub enum StmtKind {
    Local { pat: Pattern, init: Option<Box<Expression>> },
    /// An expression, and whether a `;` follows.
    Expr { expr: Box<Expression>, semi: bool },
    Macro(MacroCall),
    Item,
}

/// A pattern of a `let` or of a parameter.
#[derive(Debug)]
pub enum Pattern {
    Ident(String),
    Typed(Box<Pattern>),
    Other,
}

/// A type.
#[derive(Debug)]
pub enum Ty {
    /// A path, by its segments.
    Path(Vec<String>),
    Other,
}

/// A parameter of a function.
#[derive(Debug)]
pub enum Arg {
    Typed { pat: Pattern, ty: Ty },
    Receiver,
}

/// An attribute.
#[derive(Debug)]
pub struct Marker {
    pub span: Place,
    pub path: Vec<String>,
}

/// What the header of a function says, without places.
#[derive(Debug)]
pub struct Signature {
    pub ident: String,
    pub is_async: bool,
    pub inputs: Vec<Arg>,
}

/// A function.
#[derive(Debug)]
pub struct Function {
    pub attrs: Vec<Marker>,
    pub ident: String,
    pub ident_span: Place,
    pub is_async: bool,
    pub inputs: Vec<Arg>,
    pub output: Option<Ty>,
    pub block: Body,
}

/// What a `use` names.
#[derive(Debug)]
pub enum Imported {
    Path { ident: String, tree: Box<Imported> },
    Name(String),
    Rename { ident: String, rename: String },
    Group(Vec<Imported>),
    Glob,
}

/// An item of a file.
#[derive(Debug)]
pub enum Entry {
    Fn(Function),
    Use(Imported),
    Macro(MacroCall),
    Other,
}

/// A file.
#[derive(Debug)]
pub struct File {
    pub items: Vec<Entry>,
}

} // verus!
