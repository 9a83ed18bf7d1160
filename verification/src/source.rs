//! Parsing `.zen` source with the evaluator's own parser into the library's
//! plain tree (`crate::syntax`). The parse and the node-by-node conversion
//! are trusted; what the tree means (the file's index, its identifier
//! reads, the names nested scopes bind) is computed by verified code.
//!
//! Verus cannot be told about starlark's syntax-tree node types (their
//! payload parameter is bounded by a starlark trait), so the converters are
//! generic over the node they receive and recover its starlark type with
//! `std::any::Any`.
use vstd::prelude::*;
use starlark::codemap::Spanned as AstSpanned;
use starlark::syntax::ast::{ArgumentP, AssignTargetP, AstLiteral, AstNoPayload, ClauseP, ExprP, StmtP};
use starlark::syntax::{AstModule, Dialect};
use crate::bytes::lit;
use crate::syntax::{Arg, ArgKind, Expr, Parsed, Scope, Spanned, Stmt, Target, TopStmt};

verus! {

#[verifier::external_type_specification]
#[verifier::external_body]
pub struct ExAstModule(AstModule);

#[verifier::external_type_specification]
#[verifier::external_body]
#[verifier::reject_recursive_types(T)]
pub struct ExAstSpanned<T>(AstSpanned<T>);

/// Whether `content` parses as `.zen` source in the evaluator's dialect.
pub uninterp spec fn zen_parses(content: Seq<u8>) -> bool;

/// What the evaluator's parser makes of `content`, reported as the file
/// `rel`: the library's plain tree, or the parser's message.
pub uninterp spec fn zen_syntax(rel: Seq<u8>, content: Seq<u8>) -> Result<Parsed, Seq<u8>>;

/// Calls `starlark::syntax::AstModule::parse` on the text, in the
/// `Extended` dialect with f-strings enabled (the evaluator's), and reports
/// whether it succeeded. Trusted: the answer is the named `zen_parses` of
/// the bytes; text that is not UTF-8 is reported as not parsing.
#[verifier::external_body]
pub fn parses(content: &[u8]) -> (r: bool)
    ensures
        r == zen_parses(content@),
{
    let text = match std::str::from_utf8(content) {
        Ok(t) => t.to_string(),
        Err(_) => return false,
    };
    let mut dialect = Dialect::Extended;
    dialect.enable_f_strings = true;
    AstModule::parse("source.zen", text, &dialect).is_ok()
}

/// Calls `starlark::syntax::AstModule::parse` as [`parses`] does, naming
/// the file `rel`, and converts the module's top-level statements and their
/// nested structure. Trusted: the result is the named `zen_syntax` of the
/// name and the bytes, and it succeeds exactly when [`parses`] does; on
/// failure it carries the parser's message (or the UTF-8 error).
#[verifier::external_body]
pub fn parse_zen(rel: &[u8], content: &[u8]) -> (r: Result<Parsed, Vec<u8>>)
    ensures
        match r {
            Ok(p) => zen_syntax(rel@, content@) == Ok::<Parsed, Seq<u8>>(p),
            Err(e) => zen_syntax(rel@, content@) == Err::<Parsed, Seq<u8>>(e@),
        },
        r is Ok == zen_parses(content@),
{
    let text = std::str::from_utf8(content).map_err(|e| e.to_string().into_bytes())?;
    let mut dialect = Dialect::Extended;
    dialect.enable_f_strings = true;
    let name = String::from_utf8_lossy(rel).into_owned();
    let ast = AstModule::parse(&name, text.to_string(), &dialect).map_err(|e| e.to_string().into_bytes())?;
    Ok(parsed_of(&ast))
}

/// Converts the module's top-level statements and the nested structure of
/// each.
#[verifier::external_body]
fn parsed_of(ast: &AstModule) -> Parsed {
    let top: Vec<_> = match &ast.statement().node {
        StmtP::Statements(v) => v.iter().collect(),
        _ => vec![ast.statement()],
    };
    Parsed { stmts: top.iter().map(|s| top_stmt(ast, *s)).collect(), scopes: top.iter().map(|s| scope_of(*s)).collect() }
}

/// Converts a top-level statement: its shape, span and 1-based line.
#[verifier::external_body]
fn top_stmt<S: 'static>(ast: &AstModule, s: &AstSpanned<S>) -> TopStmt {
    let line = ast.file_span(s.span).resolve_span().begin.line as u32 + 1;
    TopStmt { stmt: stmt_of(&s.node), start: s.span.begin().get() as usize, end: s.span.end().get() as usize, line }
}

/// Converts a statement's top-level shape; any other statement is `Other`.
#[verifier::external_body]
fn stmt_of<S: 'static>(s: &S) -> Stmt {
    match (s as &dyn std::any::Any).downcast_ref::<StmtP<AstNoPayload>>() {
        Some(StmtP::Load(l)) => Stmt::Load {
            module: lit(&l.module.node),
            locals: l.args.iter().map(|a| lit(&a.local.node.ident)).collect(),
        },
        Some(StmtP::Def(d)) => Stmt::Def { name: lit(&d.name.node.ident) },
        Some(StmtP::Expression(e)) => Stmt::Expression { expr: spanned(e) },
        Some(StmtP::Assign(a)) => Stmt::Assign { target: target_of(&a.lhs), value: spanned(&a.rhs) },
        _ => Stmt::Other,
    }
}

/// Converts an assignment target: a plain identifier with its span, or
/// `Other`.
#[verifier::external_body]
fn target_of<T: 'static>(t: &AstSpanned<T>) -> Target {
    let (start, end) = (t.span.begin().get() as usize, t.span.end().get() as usize);
    match (&t.node as &dyn std::any::Any).downcast_ref::<AssignTargetP<AstNoPayload>>() {
        Some(AssignTargetP::Identifier(id)) => Target::Ident { name: lit(&id.node.ident), start, end },
        _ => Target::Other,
    }
}

/// Converts a statement's nested structure: the names its own scope binds
/// (`def` parameters, `for` targets) and what `visit_expr` and
/// `visit_stmt` visit.
#[verifier::external_body]
fn scope_of<S: 'static>(s: &AstSpanned<S>) -> Scope {
    let (mut exprs, mut stmts) = (Vec::new(), Vec::new());
    if let Some(n) = (&s.node as &dyn std::any::Any).downcast_ref::<StmtP<AstNoPayload>>() {
        n.visit_expr(|e| exprs.push(spanned(e)));
        n.visit_stmt(|c| stmts.push(scope_of(c)));
    }
    Scope { binds: stmt_binds(&s.node), exprs, stmts }
}

/// The names a statement binds in a scope of its own: `def` parameters,
/// `for` targets.
#[verifier::external_body]
fn stmt_binds<S: 'static>(n: &S) -> Vec<Vec<u8>> {
    let mut out = Vec::new();
    match (n as &dyn std::any::Any).downcast_ref::<StmtP<AstNoPayload>>() {
        Some(StmtP::Def(d)) => out.extend(d.params.iter().filter_map(|p| p.node.ident()).map(|i| lit(&i.node.ident))),
        Some(StmtP::For(f)) => target_names(&f.var, &mut out),
        _ => {},
    }
    out
}

/// The identifiers an assignment target binds, tuples included.
#[verifier::external_body]
fn target_names<T: 'static>(t: &AstSpanned<T>, out: &mut Vec<Vec<u8>>) {
    match (&t.node as &dyn std::any::Any).downcast_ref::<AssignTargetP<AstNoPayload>>() {
        Some(AssignTargetP::Identifier(id)) => out.push(lit(&id.node.ident)),
        Some(AssignTargetP::Tuple(items)) => items.iter().for_each(|i| target_names(i, out)),
        _ => {},
    }
}

/// Converts an expression with its span.
#[verifier::external_body]
fn spanned<E: 'static>(e: &AstSpanned<E>) -> Spanned {
    Spanned { expr: node_of(&e.node), start: e.span.begin().get() as usize, end: e.span.end().get() as usize }
}

/// Converts an expression node: identifiers, string literals, calls and
/// dict literals by their parts; anything else by the names it binds and
/// the subexpressions `visit_expr` visits.
#[verifier::external_body]
fn node_of<N: 'static>(n: &N) -> Expr {
    match (n as &dyn std::any::Any).downcast_ref::<ExprP<AstNoPayload>>() {
        Some(ExprP::Identifier(id)) => Expr::Ident { name: lit(&id.node.ident) },
        Some(ExprP::Literal(AstLiteral::String(s))) => Expr::Str { value: lit(&s.node) },
        Some(ExprP::Call(c, args)) => Expr::Call { callee: Box::new(spanned(c)), args: args.args.iter().map(arg_of).collect() },
        Some(ExprP::Dict(es)) => Expr::Dict { entries: entries_of(es) },
        _ => Expr::Other { binds: node_binds(n), children: children_of(n) },
    }
}

/// Converts a dict literal's entries.
#[verifier::external_body]
fn entries_of<E: 'static>(es: &Vec<(AstSpanned<E>, AstSpanned<E>)>) -> Vec<(Spanned, Spanned)> {
    es.iter().map(|(k, v)| (spanned(k), spanned(v))).collect()
}

/// The subexpressions `visit_expr` visits, converted.
#[verifier::external_body]
fn children_of<N: 'static>(n: &N) -> Vec<Spanned> {
    let mut out = Vec::new();
    if let Some(n) = (n as &dyn std::any::Any).downcast_ref::<ExprP<AstNoPayload>>() {
        n.visit_expr(|c| out.push(spanned(c)));
    }
    out
}

/// The names an expression binds in a scope of its own: lambda
/// parameters, comprehension targets.
#[verifier::external_body]
fn node_binds<N: 'static>(n: &N) -> Vec<Vec<u8>> {
    let mut out = Vec::new();
    match (n as &dyn std::any::Any).downcast_ref::<ExprP<AstNoPayload>>() {
        Some(ExprP::Lambda(l)) => out.extend(l.params.iter().filter_map(|p| p.node.ident()).map(|i| lit(&i.node.ident))),
        Some(ExprP::ListComprehension(_, first, clauses)) | Some(ExprP::DictComprehension(_, first, clauses)) => {
            target_names(&first.var, &mut out);
            clauses.iter().for_each(|c| if let ClauseP::For(f) = c { target_names(&f.var, &mut out) });
        },
        _ => {},
    }
    out
}

/// Converts a call argument: its kind, value and span.
#[verifier::external_body]
fn arg_of<A: 'static>(a: &AstSpanned<A>) -> Arg {
    let (start, end) = (a.span.begin().get() as usize, a.span.end().get() as usize);
    let (kind, v) = match (&a.node as &dyn std::any::Any).downcast_ref::<ArgumentP<AstNoPayload>>() {
        Some(ArgumentP::Positional(v)) => (ArgKind::Positional, v),
        Some(ArgumentP::Named(k, v)) => (ArgKind::Named { name: lit(&k.node) }, v),
        Some(ArgumentP::Args(v) | ArgumentP::KwArgs(v)) => (ArgKind::Star, v),
        None => return Arg { kind: ArgKind::Star, value: spanned(a), start, end },
    };
    Arg { kind, value: spanned(v), start, end }
}

} // verus!
