//! Reading Rust source with the `syn` crate.

use syn::spanned::Spanned;
use vstd::prelude::*;

use crate::instrument::syntax::{
    Arg, Body, Entry, ExprKind, Expression, File, Function, Imported, MacroCall, Marker, MatchArm,
    Pattern, Place, Signature, Statement, StmtKind, Token, Ty,
};

verus! {

#[verifier::external_type_specification]
#[verifier::external_body]
pub struct ExSpan(proc_macro2::Span);

#[verifier::external_type_specification]
#[verifier::external_body]
pub struct ExTokenStream(proc_macro2::TokenStream);

#[verifier::external_type_specification]
#[verifier::external_body]
pub struct ExTokenTree(proc_macro2::TokenTree);

#[verifier::external_type_specification]
#[verifier::external_body]
pub struct ExPath(syn::Path);

#[verifier::external_type_specification]
#[verifier::external_body]
pub struct ExMacro(syn::Macro);

#[verifier::external_type_specification]
#[verifier::external_body]
pub struct ExPat(syn::Pat);

#[verifier::external_type_specification]
#[verifier::external_body]
pub struct ExType(syn::Type);

#[verifier::external_type_specification]
#[verifier::external_body]
pub struct ExFnArg(syn::FnArg);

#[verifier::external_type_specification]
#[verifier::external_body]
pub struct ExArm(syn::Arm);

#[verifier::external_type_specification]
#[verifier::external_body]
pub struct ExBlock(syn::Block);

#[verifier::external_type_specification]
#[verifier::external_body]
pub struct ExStmt(syn::Stmt);

#[verifier::external_type_specification]
#[verifier::external_body]
pub struct ExExpr(syn::Expr);

#[verifier::external_type_specification]
#[verifier::external_body]
pub struct ExAttribute(syn::Attribute);

#[verifier::external_type_specification]
#[verifier::external_body]
pub struct ExItemFn(syn::ItemFn);

#[verifier::external_type_specification]
#[verifier::external_body]
pub struct ExUseTree(syn::UseTree);

#[verifier::external_type_specification]
#[verifier::external_body]
pub struct ExItem(syn::Item);

/// What `syn::parse_file` reads from a text with spans of `proc_macro2`'s own: the file in the
/// library's own types, or the text of the error.
pub uninterp spec fn parsed_file(src: Seq<char>) -> Result<File, Seq<char>>;

/// Calls `syn::parse_file` and hands its file out in the library's own types. It is called between
/// `proc_macro2::fallback::force` and `unforce`, so that no span is the compiler's, also where a
/// procedural macro calls: what is read from a text, the places too, depends on that text alone.
#[verifier::external_body]
pub(crate) fn read_file(src: &str) -> (r: Result<File, String>)
    ensures
        match r {
            Ok(f) => parsed_file(src@) == Ok::<File, Seq<char>>(f),
            Err(m) => parsed_file(src@) == Err::<File, Seq<char>>(m@),
        },
{
    proc_macro2::fallback::force();
    let r = match syn::parse_file(src) {
        Ok(f) => Ok(File { items: f.items.iter().map(item_of).collect() }),
        Err(e) => Err(e.to_string()),
    };
    proc_macro2::fallback::unforce();
    r
}

/// What `syn::parse_str` reads from the text of a function: its signature, without places, or the
/// text of the error.
pub uninterp spec fn parsed_signature(src: Seq<char>) -> Result<Signature, Seq<char>>;

/// Calls `syn::parse_str` for a `syn::ItemFn` and hands its signature out in the library's own
/// types. It is called between `proc_macro2::fallback::force` and `unforce`: what is read from a
/// text depends on that text alone.
#[verifier::external_body]
pub(crate) fn read_signature(src: &str) -> (r: Result<Signature, String>)
    ensures
        match r {
            Ok(f) => parsed_signature(src@) == Ok::<Signature, Seq<char>>(f),
            Err(m) => parsed_signature(src@) == Err::<Signature, Seq<char>>(m@),
        },
{
    proc_macro2::fallback::force();
    let r = match syn::parse_str::<syn::ItemFn>(src) {
        Ok(syn::ItemFn { sig, .. }) => Ok(Signature {
            ident: sig.ident.to_string(),
            is_async: sig.asyncness.is_some(),
            inputs: sig.inputs.iter().map(arg_of).collect(),
        }),
        Err(e) => Err(e.to_string()),
    };
    proc_macro2::fallback::unforce();
    r
}

/// A `proc_macro2::Span` by the lines and columns of its `start` and `end`.
#[verifier::external_body]
fn span_of(s: proc_macro2::Span) -> Place {
    let (a, b) = (s.start(), s.end());
    Place { start_line: a.line, start_col: a.column, end_line: b.line, end_col: b.column }
}

/// The tokens of a `proc_macro2::TokenStream`.
#[verifier::external_body]
fn tokens_of(t: proc_macro2::TokenStream) -> Vec<Token> {
    t.into_iter().map(token_of).collect()
}

/// A `proc_macro2::TokenTree` by its kind and its text.
#[verifier::external_body]
fn token_of(t: proc_macro2::TokenTree) -> Token {
    match t {
        proc_macro2::TokenTree::Ident(i) => Token::Ident(i.to_string()),
        proc_macro2::TokenTree::Punct(p) => Token::Punct(p.as_char()),
        proc_macro2::TokenTree::Literal(l) => Token::Literal(l.to_string()),
        proc_macro2::TokenTree::Group(g) => Token::Group(tokens_of(g.stream())),
    }
}

/// A `syn::Path` by the names of its segments.
#[verifier::external_body]
fn segments_of(p: &syn::Path) -> Vec<String> {
    p.segments.iter().map(|s| s.ident.to_string()).collect()
}

/// A `syn::Macro` by its path and its tokens.
#[verifier::external_body]
fn macro_of(m: &syn::Macro) -> MacroCall {
    MacroCall { path: segments_of(&m.path), tokens: tokens_of(m.tokens.clone()) }
}

/// A `syn::Pat` by its kind.
#[verifier::external_body]
fn pat_of(p: &syn::Pat) -> Pattern {
    match p {
        syn::Pat::Ident(i) => Pattern::Ident(i.ident.to_string()),
        syn::Pat::Type(t) => Pattern::Typed(Box::new(pat_of(&t.pat))),
        _ => Pattern::Other,
    }
}

/// A `syn::Type` by its kind.
#[verifier::external_body]
fn type_of(t: &syn::Type) -> Ty {
    match t {
        syn::Type::Path(p) => Ty::Path(segments_of(&p.path)),
        _ => Ty::Other,
    }
}

/// A `syn::FnArg` by its kind.
#[verifier::external_body]
fn arg_of(a: &syn::FnArg) -> Arg {
    match a {
        syn::FnArg::Typed(t) => Arg::Typed { pat: pat_of(&t.pat), ty: type_of(&t.ty) },
        syn::FnArg::Receiver(_) => Arg::Receiver,
    }
}

/// A `syn::Block` by its statements.
#[verifier::external_body]
fn block_of(b: &syn::Block) -> Body {
    Body { stmts: b.stmts.iter().map(stmt_of).collect() }
}

/// A `syn::Stmt` by its span and its kind.
#[verifier::external_body]
fn stmt_of(s: &syn::Stmt) -> Statement {
    let kind = match s {
        syn::Stmt::Local(l) => StmtKind::Local {
            pat: pat_of(&l.pat),
            init: l.init.as_ref().map(|i| boxed(&i.expr)),
        },
        syn::Stmt::Expr(e, semi) => StmtKind::Expr { expr: boxed(e), semi: semi.is_some() },
        syn::Stmt::Macro(m) => StmtKind::Macro(macro_of(&m.mac)),
        syn::Stmt::Item(_) => StmtKind::Item,
    };
    Statement { span: span_of(s.span()), kind }
}

/// A `syn::Arm` by its guard and its body.
#[verifier::external_body]
fn arm_of(a: &syn::Arm) -> MatchArm {
    MatchArm { guard: a.guard.as_ref().map(|g| boxed(&g.1)), body: boxed(&a.body) }
}

/// A `syn::Expr` by its span and its kind.
#[verifier::external_body]
fn expr_of(e: &syn::Expr) -> Expression {
    Expression { span: span_of(e.span()), kind: kind_of(e) }
}

/// A `syn::Expr` by its span and its kind, in a box.
#[verifier::external_body]
fn boxed(e: &syn::Expr) -> Box<Expression> {
    Box::new(expr_of(e))
}

/// The kind of a `syn::Expr`: paths, calls and what stands alone.
#[verifier::external_body]
fn kind_of(e: &syn::Expr) -> ExprKind {
    match e {
        syn::Expr::Path(p) => ExprKind::Path {
            segments: segments_of(&p.path),
            qself: p.qself.is_some(),
        },
        syn::Expr::Call(c) => ExprKind::Call {
            func: boxed(&c.func),
            args: c.args.iter().map(expr_of).collect(),
        },
        syn::Expr::Macro(m) => ExprKind::Macro(macro_of(&m.mac)),
        syn::Expr::Struct(_) => ExprKind::Struct,
        _ => list_of(e),
    }
}

/// The kind of a `syn::Expr`: lists of expressions.
#[verifier::external_body]
fn list_of(e: &syn::Expr) -> ExprKind {
    match e {
        syn::Expr::Tuple(t) => ExprKind::Tuple(t.elems.iter().map(expr_of).collect()),
        syn::Expr::Array(a) => ExprKind::Array(a.elems.iter().map(expr_of).collect()),
        _ => flow_of(e),
    }
}

/// The kind of a `syn::Expr`: what holds blocks.
#[verifier::external_body]
fn flow_of(e: &syn::Expr) -> ExprKind {
    match e {
        syn::Expr::Block(b) => ExprKind::Block(block_of(&b.block)),
        syn::Expr::Unsafe(u) => ExprKind::Unsafe(block_of(&u.block)),
        syn::Expr::Loop(l) => ExprKind::Loop(block_of(&l.body)),
        syn::Expr::While(w) => ExprKind::While { cond: boxed(&w.cond), body: block_of(&w.body) },
        syn::Expr::ForLoop(f) => ExprKind::ForLoop {
            expr: boxed(&f.expr),
            body: block_of(&f.body),
        },
        _ => branch_of(e),
    }
}

/// The kind of a `syn::Expr`: branches and calls of methods.
#[verifier::external_body]
fn branch_of(e: &syn::Expr) -> ExprKind {
    match e {
        syn::Expr::If(i) => ExprKind::If {
            cond: boxed(&i.cond),
            body: block_of(&i.then_branch),
            otherwise: i.else_branch.as_ref().map(|x| boxed(&x.1)),
        },
        syn::Expr::Match(m) => ExprKind::Match {
            expr: boxed(&m.expr),
            arms: m.arms.iter().map(arm_of).collect(),
        },
        _ => method_of(e),
    }
}

/// The kind of a `syn::Expr`: calls of methods, and pairs.
#[verifier::external_body]
fn method_of(e: &syn::Expr) -> ExprKind {
    match e {
        syn::Expr::MethodCall(m) => ExprKind::MethodCall {
            receiver: boxed(&m.receiver),
            method: m.method.to_string(),
            args: m.args.iter().map(expr_of).collect(),
        },
        syn::Expr::Binary(b) => ExprKind::Binary(boxed(&b.left), boxed(&b.right)),
        syn::Expr::Assign(a) => ExprKind::Assign(boxed(&a.left), boxed(&a.right)),
        _ => single_of(e),
    }
}

/// The kind of a `syn::Expr`: what leaves, captures or waits.
#[verifier::external_body]
fn single_of(e: &syn::Expr) -> ExprKind {
    match e {
        syn::Expr::Return(r) => ExprKind::Return(r.expr.as_ref().map(|x| boxed(x))),
        syn::Expr::Closure(c) => ExprKind::Closure(boxed(&c.body)),
        syn::Expr::Try(t) => ExprKind::Try(boxed(&t.expr)),
        syn::Expr::Await(a) => ExprKind::Await(boxed(&a.base)),
        _ => operand_of(e),
    }
}

/// The kind of a `syn::Expr`: what stands around one expression.
#[verifier::external_body]
fn operand_of(e: &syn::Expr) -> ExprKind {
    match e {
        syn::Expr::Unary(u) => ExprKind::Unary(boxed(&u.expr)),
        syn::Expr::Let(l) => ExprKind::Let(boxed(&l.expr)),
        syn::Expr::Reference(r) => ExprKind::Reference(boxed(&r.expr)),
        syn::Expr::Paren(p) => ExprKind::Paren(boxed(&p.expr)),
        _ => ExprKind::Other,
    }
}

/// A `syn::Attribute` by its span and its path.
#[verifier::external_body]
fn attr_of(a: &syn::Attribute) -> Marker {
    Marker { span: span_of(a.span()), path: segments_of(a.path()) }
}

/// A `syn::ItemFn` by its attributes, its signature and its body.
#[verifier::external_body]
fn fn_of(f: &syn::ItemFn) -> Function {
    Function {
        attrs: f.attrs.iter().map(attr_of).collect(),
        ident: f.sig.ident.to_string(),
        ident_span: span_of(f.sig.ident.span()),
        is_async: f.sig.asyncness.is_some(),
        inputs: f.sig.inputs.iter().map(arg_of).collect(),
        output: match &f.sig.output {
            syn::ReturnType::Default => None,
            syn::ReturnType::Type(_, t) => Some(type_of(t)),
        },
        block: block_of(&f.block),
    }
}

/// A `syn::UseTree` by its kind.
#[verifier::external_body]
fn use_of(u: &syn::UseTree) -> Imported {
    match u {
        syn::UseTree::Path(p) => Imported::Path {
            ident: p.ident.to_string(),
            tree: Box::new(use_of(&p.tree)),
        },
        syn::UseTree::Name(n) => Imported::Name(n.ident.to_string()),
        syn::UseTree::Rename(r) => Imported::Rename {
            ident: r.ident.to_string(),
            rename: r.rename.to_string(),
        },
        syn::UseTree::Group(g) => Imported::Group(g.items.iter().map(use_of).collect()),
        syn::UseTree::Glob(_) => Imported::Glob,
    }
}

/// A `syn::Item` by its kind.
#[verifier::external_body]
fn item_of(i: &syn::Item) -> Entry {
    match i {
        syn::Item::Fn(f) => Entry::Fn(fn_of(f)),
        syn::Item::Use(u) => Entry::Use(use_of(&u.tree)),
        syn::Item::Macro(m) => Entry::Macro(macro_of(&m.mac)),
        _ => Entry::Other,
    }
}

} // verus!
