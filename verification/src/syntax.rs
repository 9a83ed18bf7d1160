//! The parsed shape of a `.zen` file as plain data: its top-level
//! statements with byte spans, and the expression tree below them —
//! identifiers, string literals, calls with their arguments and dict
//! literals by their parts, any other expression by the names it binds and
//! its subexpressions — with each statement's nested scopes.
use vstd::prelude::*;

verus! {

pub enum Expr {
    Ident { name: Vec<u8> },
    /// A string literal's value.
    Str { value: Vec<u8> },
    Call { callee: Box<Spanned>, args: Vec<Arg> },
    Dict { entries: Vec<(Spanned, Spanned)> },
    /// Any other expression: the names it binds in a scope of its own
    /// (lambda parameters, comprehension targets) and its direct
    /// subexpressions, in the evaluator's visiting order.
    Other { binds: Vec<Vec<u8>>, children: Vec<Spanned> },
}

/// An expression with its byte span.
pub struct Spanned {
    pub expr: Expr,
    pub start: usize,
    pub end: usize,
}

pub enum ArgKind {
    Positional,
    Named { name: Vec<u8> },
    /// `*args` or `**kwargs`.
    Star,
}

/// One call argument: its kind, its expression, and the span of the whole
/// argument.
pub struct Arg {
    pub kind: ArgKind,
    pub value: Spanned,
    pub start: usize,
    pub end: usize,
}

pub enum Target {
    /// A plain identifier target with its span.
    Ident { name: Vec<u8>, start: usize, end: usize },
    Other,
}

pub enum Stmt {
    /// `load("MODULE", "SYMBOL", …)`: the module string and the local names
    /// it binds.
    Load { module: Vec<u8>, locals: Vec<Vec<u8>> },
    /// `def NAME(…): …`
    Def { name: Vec<u8> },
    Expression { expr: Spanned },
    /// `TARGET = VALUE`
    Assign { target: Target, value: Spanned },
    Other,
}

/// The nested structure of one statement: the names it binds in a scope of
/// its own (`def` parameters, `for` targets), its expressions (those of its
/// nested statements included, as the evaluator's `visit_expr` gives them)
/// and its direct child statements, in the evaluator's visiting order.
pub struct Scope {
    pub binds: Vec<Vec<u8>>,
    pub exprs: Vec<Spanned>,
    pub stmts: Vec<Scope>,
}

/// A parsed file: its top-level statements, and the nested structure of
/// each (`scopes[i]` belongs to `stmts[i]`).
pub struct Parsed {
    pub stmts: Vec<TopStmt>,
    pub scopes: Vec<Scope>,
}

/// A top-level statement: span and 1-based line.
pub struct TopStmt {
    pub stmt: Stmt,
    pub start: usize,
    pub end: usize,
    pub line: u32,
}

/// The identifier an expression is, if it is one.
pub open spec fn ident_of(e: Spanned) -> Option<Seq<u8>> {
    match e.expr {
        Expr::Ident { name } => Some(name@),
        _ => None,
    }
}

/// The value of a string literal expression.
pub open spec fn str_of(e: Spanned) -> Option<Seq<u8>> {
    match e.expr {
        Expr::Str { value } => Some(value@),
        _ => None,
    }
}

/// The callee identifier of a call whose callee is a plain identifier.
pub open spec fn callee_of(e: Spanned) -> Option<Seq<u8>> {
    match e.expr {
        Expr::Call { callee, .. } => ident_of(*callee),
        _ => None,
    }
}

/// The arguments of a call.
pub open spec fn args_of(e: Spanned) -> Seq<Arg> {
    match e.expr {
        Expr::Call { args, .. } => args@,
        _ => Seq::empty(),
    }
}

pub open spec fn arg_named(a: Arg, key: Seq<u8>) -> bool {
    match a.kind {
        ArgKind::Named { name } => name@ == key,
        _ => false,
    }
}

/// The first argument at or after `from` named `key` whose value is a
/// string literal.
pub open spec fn named_str_from(args: Seq<Arg>, key: Seq<u8>, from: int) -> Option<int>
    decreases args.len() - from,
{
    if from < 0 || from >= args.len() {
        None
    } else if arg_named(args[from], key) && str_of(args[from].value) is Some {
        Some(from)
    } else {
        named_str_from(args, key, from + 1)
    }
}

/// The first argument, when it is a positional string literal.
pub open spec fn first_string(args: Seq<Arg>) -> Option<Seq<u8>> {
    if args.len() > 0 && args[0].kind is Positional {
        str_of(args[0].value)
    } else {
        None
    }
}

/// Some argument is named `key`.
pub open spec fn has_named(args: Seq<Arg>, key: Seq<u8>) -> bool {
    exists|i: int| 0 <= i < args.len() && arg_named(#[trigger] args[i], key)
}

pub fn ident_exec(e: &Spanned) -> (r: Option<&Vec<u8>>)
    ensures
        r matches Some(v) ==> ident_of(*e) == Some(v@),
        r is None ==> ident_of(*e) is None,
{
    match &e.expr {
        Expr::Ident { name } => Some(name),
        _ => None,
    }
}

pub fn str_exec(e: &Spanned) -> (r: Option<&Vec<u8>>)
    ensures
        r matches Some(v) ==> str_of(*e) == Some(v@),
        r is None ==> str_of(*e) is None,
{
    match &e.expr {
        Expr::Str { value } => Some(value),
        _ => None,
    }
}

pub fn callee_exec(e: &Spanned) -> (r: Option<&Vec<u8>>)
    ensures
        r matches Some(v) ==> callee_of(*e) == Some(v@),
        r is None ==> callee_of(*e) is None,
{
    match &e.expr {
        Expr::Call { callee, .. } => ident_exec(callee),
        _ => None,
    }
}

pub fn args_exec(e: &Spanned) -> (r: &[Arg])
    ensures
        r@ == args_of(*e),
{
    match &e.expr {
        Expr::Call { args, .. } => args.as_slice(),
        _ => &[],
    }
}

pub fn arg_named_exec(a: &Arg, key: &[u8]) -> (r: bool)
    ensures
        r == arg_named(*a, key@),
{
    match &a.kind {
        ArgKind::Named { name } => crate::bytes::bytes_eq(name.as_slice(), key),
        _ => false,
    }
}

pub fn named_str(args: &[Arg], key: &[u8]) -> (r: Option<usize>)
    ensures
        r matches Some(i) ==> named_str_from(args@, key@, 0) == Some(i as int) && i < args@.len()
            && arg_named(args@[i as int], key@) && str_of(args@[i as int].value) is Some,
        r is None ==> named_str_from(args@, key@, 0) is None,
{
    let mut i: usize = 0;
    while i < args.len()
        invariant
            i <= args@.len(),
            named_str_from(args@, key@, 0) == named_str_from(args@, key@, i as int),
        decreases args.len() - i,
    {
        if arg_named_exec(&args[i], key) && str_exec(&args[i].value).is_some() {
            return Some(i);
        }
        i = i + 1;
    }
    None
}

pub fn first_string_exec(args: &[Arg]) -> (r: Option<&Vec<u8>>)
    ensures
        r matches Some(v) ==> first_string(args@) == Some(v@),
        r is None ==> first_string(args@) is None,
{
    if args.len() > 0 {
        match &args[0].kind {
            ArgKind::Positional => str_exec(&args[0].value),
            _ => None,
        }
    } else {
        None
    }
}

pub fn has_named_exec(args: &[Arg], key: &[u8]) -> (r: bool)
    ensures
        r == has_named(args@, key@),
{
    let mut i: usize = 0;
    while i < args.len()
        invariant
            i <= args@.len(),
            forall|j: int| 0 <= j < i ==> !arg_named(#[trigger] args@[j], key@),
        decreases args.len() - i,
    {
        if arg_named_exec(&args[i], key) {
            return true;
        }
        i = i + 1;
    }
    false
}

} // verus!
