//! Indexing a parsed file: each top-level statement classified into the
//! [`FileIndex`] the writers read.
use vstd::prelude::*;
use vstd::string::StringSliceAdditionalSpecFns;
use crate::bytes::{bytes_eq, copy, lit};
use crate::index::{CallSite, FileIndex, IdentRef, Kwarg, ModuleBinding, NetDef};
use crate::syntax::{
    args_exec, args_of, callee_exec, callee_of, first_string, first_string_exec, ident_exec, ident_of,
    named_str, named_str_from, str_exec, str_of, Arg, ArgKind, Expr, Spanned, Stmt, Target, TopStmt,
};
use crate::writers::views;

verus! {

/// [`Kwarg`] as values.
pub struct KwargV {
    pub name: Seq<u8>,
    pub value_start: usize,
    pub value_end: usize,
    pub value_ident: Option<Seq<u8>>,
    pub value_net_literal: Option<Seq<u8>>,
    pub arg_start: usize,
    pub arg_end: usize,
    pub prev_end: usize,
}

/// [`CallSite`] as values.
pub struct CallSiteV {
    pub name: Seq<u8>,
    pub stmt_start: usize,
    pub stmt_end: usize,
    pub name_start: usize,
    pub name_end: usize,
    pub line: u32,
    pub callee: Seq<u8>,
    pub kwargs: Seq<KwargV>,
    pub last_arg_end: usize,
}

/// [`ModuleBinding`] as values.
pub struct ModuleBindingV {
    pub ident: Seq<u8>,
    pub spec: Seq<u8>,
    pub stmt_start: usize,
    pub stmt_end: usize,
}

/// [`NetDef`] as values.
pub struct NetDefV {
    pub variable: Seq<u8>,
    pub callee: Seq<u8>,
    pub name: Seq<u8>,
    pub line: u32,
    pub stmt_start: usize,
    pub stmt_end: usize,
    pub ident_start: usize,
    pub ident_end: usize,
    pub named: bool,
    pub string_start: usize,
    pub string_end: usize,
    pub args_follow: bool,
}

/// The statement-derived part of a [`FileIndex`], as values.
#[verifier::ext_equal]
pub struct IndexV {
    pub calls: Seq<CallSiteV>,
    pub bindings: Seq<ModuleBindingV>,
    pub defs: Seq<NetDefV>,
    pub bound: Seq<Seq<u8>>,
    pub board_start: Option<usize>,
    pub last_load_end: Option<usize>,
    pub docstring_end: Option<usize>,
}

pub open spec fn ov(o: Option<Vec<u8>>) -> Option<Seq<u8>> {
    match o {
        Some(v) => Some(v@),
        None => None,
    }
}

pub open spec fn kwarg_v(k: Kwarg) -> KwargV {
    KwargV {
        name: k.name@,
        value_start: k.value_start,
        value_end: k.value_end,
        value_ident: ov(k.value_ident),
        value_net_literal: ov(k.value_net_literal),
        arg_start: k.arg_start,
        arg_end: k.arg_end,
        prev_end: k.prev_end,
    }
}

pub open spec fn kwargs_v(ks: Seq<Kwarg>) -> Seq<KwargV> {
    ks.map_values(|k: Kwarg| kwarg_v(k))
}

pub open spec fn call_v(c: CallSite) -> CallSiteV {
    CallSiteV {
        name: c.name@,
        stmt_start: c.stmt_start,
        stmt_end: c.stmt_end,
        name_start: c.name_start,
        name_end: c.name_end,
        line: c.line,
        callee: c.callee@,
        kwargs: kwargs_v(c.kwargs@),
        last_arg_end: c.last_arg_end,
    }
}

pub open spec fn binding_v(b: ModuleBinding) -> ModuleBindingV {
    ModuleBindingV { ident: b.ident@, spec: b.spec@, stmt_start: b.stmt_start, stmt_end: b.stmt_end }
}

pub open spec fn def_v(d: NetDef) -> NetDefV {
    NetDefV {
        variable: d.variable@,
        callee: d.callee@,
        name: d.name@,
        line: d.line,
        stmt_start: d.stmt_start,
        stmt_end: d.stmt_end,
        ident_start: d.ident_start,
        ident_end: d.ident_end,
        named: d.named,
        string_start: d.string_start,
        string_end: d.string_end,
        args_follow: d.args_follow,
    }
}

/// A net constructor: `Net`, `Power` or `Ground`.
pub open spec fn is_net_ctor(c: Seq<u8>) -> bool {
    c == "Net".spec_bytes() || c == "Power".spec_bytes() || c == "Ground".spec_bytes()
}

/// Where a name literal goes in an unnamed constructor call: before its
/// first argument, else just inside its closing parenthesis.
pub open spec fn literal_slot(v: Spanned) -> usize {
    if args_of(v).len() > 0 {
        args_of(v)[0].start
    } else if v.end > 0 {
        (v.end - 1) as usize
    } else {
        0
    }
}

pub open spec fn index_v(idx: FileIndex) -> IndexV {
    IndexV {
        calls: idx.calls@.map_values(|c: CallSite| call_v(c)),
        bindings: idx.module_bindings@.map_values(|b: ModuleBinding| binding_v(b)),
        defs: idx.net_defs@.map_values(|d: NetDef| def_v(d)),
        bound: views(idx.bound_idents@),
        board_start: idx.board_start,
        last_load_end: idx.last_load_end,
        docstring_end: idx.docstring_end,
    }
}

/// The net name of an inline `Net("X")`-shaped placeholder (`Net`, `Power`
/// or `Ground` with a literal first argument).
pub open spec fn net_literal(v: Spanned) -> Option<Seq<u8>> {
    match callee_of(v) {
        Some(c) => if c == "Net".spec_bytes() || c == "Power".spec_bytes() || c
            == "Ground".spec_bytes() {
            first_string(args_of(v))
        } else {
            None
        },
        None => None,
    }
}

/// The keyword arguments among the first `n`, each with the end of the
/// argument before it (0 for the first argument).
pub open spec fn kwargs_upto(args: Seq<Arg>, n: int) -> Seq<KwargV>
    decreases n,
{
    if n <= 0 {
        Seq::empty()
    } else {
        let r = kwargs_upto(args, n - 1);
        let a = args[n - 1];
        match a.kind {
            ArgKind::Named { name } => r.push(
                KwargV {
                    name: name@,
                    value_start: a.value.start,
                    value_end: a.value.end,
                    value_ident: ident_of(a.value),
                    value_net_literal: net_literal(a.value),
                    arg_start: a.start,
                    arg_end: a.end,
                    prev_end: if n - 1 == 0 {
                        0
                    } else {
                        args[n - 2].end
                    },
                },
            ),
            _ => r,
        }
    }
}

/// Largest end offset of the first `n` arguments' expressions.
pub open spec fn max_value_end(args: Seq<Arg>, n: int) -> Option<usize>
    decreases n,
{
    if n <= 0 {
        None
    } else {
        match max_value_end(args, n - 1) {
            None => Some(args[n - 1].value.end),
            Some(m) => Some(crate::edit::max_usize(m, args[n - 1].value.end)),
        }
    }
}

/// The call site of an instantiation: a call with an identifier callee and
/// a literal `name=`.
pub open spec fn spec_call_site(e: Spanned, start: usize, end: usize, line: u32) -> Option<CallSiteV> {
    match callee_of(e) {
        None => None,
        Some(c) => {
            let args = args_of(e);
            match named_str_from(args, "name".spec_bytes(), 0) {
                None => None,
                Some(k) => Some(
                    CallSiteV {
                        name: str_of(args[k].value)->0,
                        stmt_start: start,
                        stmt_end: end,
                        name_start: args[k].value.start,
                        name_end: args[k].value.end,
                        line,
                        callee: c,
                        kwargs: kwargs_upto(args, args.len() as int),
                        last_arg_end: match max_value_end(args, args.len() as int) {
                            Some(m) => m,
                            None => end,
                        },
                    },
                ),
            }
        },
    }
}

pub open spec fn empty_index() -> IndexV {
    IndexV {
        calls: Seq::empty(),
        bindings: Seq::empty(),
        defs: Seq::empty(),
        bound: Seq::empty(),
        board_start: None,
        last_load_end: None,
        docstring_end: None,
    }
}

/// What one top-level statement adds to the index; `first` marks the
/// file's first statement (the only place a docstring counts).
pub open spec fn index_step(acc: IndexV, t: TopStmt, first: bool) -> IndexV {
    match t.stmt {
        Stmt::Load { module, locals } => IndexV {
            last_load_end: Some(t.end),
            bound: acc.bound + views(locals@),
            ..acc
        },
        Stmt::Def { name } => IndexV { bound: acc.bound.push(name@), ..acc },
        Stmt::Expression { expr } => if first && str_of(expr) is Some {
            IndexV { docstring_end: Some(t.end), ..acc }
        } else if callee_of(expr) == Some("Board".spec_bytes()) {
            IndexV {
                board_start: if acc.board_start is Some {
                    acc.board_start
                } else {
                    Some(t.start)
                },
                ..acc
            }
        } else {
            match spec_call_site(expr, t.start, t.end, t.line) {
                Some(c) => IndexV { calls: acc.calls.push(c), ..acc },
                None => acc,
            }
        },
        Stmt::Assign { target, value } => match target {
            Target::Ident { name, start, end } => {
                let acc1 = IndexV { bound: acc.bound.push(name@), ..acc };
                match callee_of(value) {
                    None => acc1,
                    Some(c) => {
                        let fs = first_string(args_of(value));
                        if c == "Module".spec_bytes() && fs is Some {
                            IndexV {
                                bindings: acc1.bindings.push(
                                    ModuleBindingV {
                                        ident: name@,
                                        spec: fs->0,
                                        stmt_start: t.start,
                                        stmt_end: t.end,
                                    },
                                ),
                                ..acc1
                            }
                        } else {
                            let acc2 = match spec_call_site(value, t.start, t.end, t.line) {
                                Some(cs) => IndexV { calls: acc1.calls.push(cs), ..acc1 },
                                None => acc1,
                            };
                            match fs {
                                Some(n) => IndexV {
                                    defs: acc2.defs.push(
                                        NetDefV {
                                            variable: name@,
                                            callee: c,
                                            name: n,
                                            line: t.line,
                                            stmt_start: t.start,
                                            stmt_end: t.end,
                                            ident_start: start,
                                            ident_end: end,
                                            named: true,
                                            string_start: args_of(value)[0].value.start,
                                            string_end: args_of(value)[0].value.end,
                                            args_follow: false,
                                        },
                                    ),
                                    ..acc2
                                },
                                None => if is_net_ctor(c) {
                                    IndexV {
                                        defs: acc2.defs.push(
                                            NetDefV {
                                                variable: name@,
                                                callee: c,
                                                name: name@,
                                                line: t.line,
                                                stmt_start: t.start,
                                                stmt_end: t.end,
                                                ident_start: start,
                                                ident_end: end,
                                                named: false,
                                                string_start: literal_slot(value),
                                                string_end: literal_slot(value),
                                                args_follow: args_of(value).len() > 0,
                                            },
                                        ),
                                        ..acc2
                                    }
                                } else {
                                    acc2
                                },
                            }
                        }
                    },
                }
            },
            Target::Other => acc,
        },
        Stmt::Other => acc,
    }
}

/// The index of the first `n` top-level statements.
pub open spec fn index_upto(stmts: Seq<TopStmt>, n: int) -> IndexV
    decreases n,
{
    if n <= 0 {
        empty_index()
    } else {
        index_step(index_upto(stmts, n - 1), stmts[n - 1], n - 1 == 0)
    }
}

fn net_literal_exec(v: &Spanned) -> (r: Option<Vec<u8>>)
    ensures
        ov(r) == net_literal(*v),
{
    match callee_exec(v) {
        Some(c) => {
            if bytes_eq(c.as_slice(), lit("Net").as_slice()) || bytes_eq(
                c.as_slice(),
                lit("Power").as_slice(),
            ) || bytes_eq(c.as_slice(), lit("Ground").as_slice()) {
                match first_string_exec(args_exec(v)) {
                    Some(s) => Some(copy(s)),
                    None => None,
                }
            } else {
                None
            }
        },
        None => None,
    }
}

fn kwargs_exec(args: &[Arg]) -> (r: Vec<Kwarg>)
    ensures
        kwargs_v(r@) == kwargs_upto(args@, args@.len() as int),
{
    let mut out: Vec<Kwarg> = Vec::new();
    let mut prev_end: usize = 0;
    let mut i: usize = 0;
    assert(kwargs_v(out@) =~= kwargs_upto(args@, 0));
    while i < args.len()
        invariant
            i <= args@.len(),
            kwargs_v(out@) == kwargs_upto(args@, i as int),
            prev_end == (if i == 0 {
                0
            } else {
                args@[i - 1].end
            }),
        decreases args.len() - i,
    {
        let a = &args[i];
        match &a.kind {
            ArgKind::Named { name } => {
                let k = Kwarg {
                    name: copy(name),
                    value_start: a.value.start,
                    value_end: a.value.end,
                    value_ident: match ident_exec(&a.value) {
                        Some(x) => Some(copy(x)),
                        None => None,
                    },
                    value_net_literal: net_literal_exec(&a.value),
                    arg_start: a.start,
                    arg_end: a.end,
                    prev_end,
                };
                let ghost old = out@;
                out.push(k);
                proof {
                    crate::text::lemma_map_push(old, k, |k: Kwarg| kwarg_v(k));
                }
            },
            _ => {},
        }
        prev_end = a.end;
        i = i + 1;
    }
    out
}

fn max_value_end_exec(args: &[Arg]) -> (r: Option<usize>)
    ensures
        r == max_value_end(args@, args@.len() as int),
{
    let mut m: Option<usize> = None;
    let mut i: usize = 0;
    while i < args.len()
        invariant
            i <= args@.len(),
            m == max_value_end(args@, i as int),
        decreases args.len() - i,
    {
        let e = args[i].value.end;
        m = match m {
            None => Some(e),
            Some(x) => Some(if x >= e { x } else { e }),
        };
        i = i + 1;
    }
    m
}

fn call_site_exec(e: &Spanned, start: usize, end: usize, line: u32) -> (r: Option<CallSite>)
    ensures
        r matches Some(c) ==> spec_call_site(*e, start, end, line) == Some(call_v(c)),
        r is None ==> spec_call_site(*e, start, end, line) is None,
{
    let c = match callee_exec(e) {
        Some(c) => c,
        None => return None,
    };
    let args = args_exec(e);
    let k = match named_str(args, lit("name").as_slice()) {
        Some(k) => k,
        None => return None,
    };
    let name = match str_exec(&args[k].value) {
        Some(n) => copy(n),
        None => return None,
    };
    let kwargs = kwargs_exec(args);
    let last_arg_end = match max_value_end_exec(args) {
        Some(m) => m,
        None => end,
    };
    Some(
        CallSite {
            name,
            stmt_start: start,
            stmt_end: end,
            name_start: args[k].value.start,
            name_end: args[k].value.end,
            line,
            callee: copy(c),
            kwargs,
            last_arg_end,
        },
    )
}

/// The index of a parse failure: everything in the file refuses with it.
pub fn index_error(error: Vec<u8>) -> (r: FileIndex)
    ensures
        r.error == Some(error),
        index_v(r) == empty_index(),
        r.ident_refs@.len() == 0,
        r.nested_bindings@.len() == 0,
{
    let r = FileIndex {
        calls: Vec::new(),
        module_bindings: Vec::new(),
        net_defs: Vec::new(),
        bound_idents: Vec::new(),
        board_start: None,
        last_load_end: None,
        docstring_end: None,
        error: Some(error),
        ident_refs: Vec::new(),
        nested_bindings: Vec::new(),
    };
    assert(index_v(r) =~= empty_index());
    r
}

/// Index a parsed file from its top-level statements. `ident_refs` (every
/// identifier read) and `nested_bindings` (names rebound in nested scopes)
/// come from a walk of the whole syntax tree and are carried as given.
pub fn index_content(stmts: &Vec<TopStmt>, ident_refs: Vec<IdentRef>, nested_bindings: Vec<Vec<u8>>) -> (r:
    FileIndex)
    ensures
        index_v(r) == index_upto(stmts@, stmts@.len() as int),
        r.error is None,
        r.ident_refs == ident_refs,
        r.nested_bindings == nested_bindings,
{
    let mut calls: Vec<CallSite> = Vec::new();
    let mut bindings: Vec<ModuleBinding> = Vec::new();
    let mut defs: Vec<NetDef> = Vec::new();
    let mut bound: Vec<Vec<u8>> = Vec::new();
    let mut board_start: Option<usize> = None;
    let mut last_load_end: Option<usize> = None;
    let mut docstring_end: Option<usize> = None;
    let mut i: usize = 0;
    proof {
        assert(calls@.map_values(|c: CallSite| call_v(c)) =~= Seq::<CallSiteV>::empty());
        assert(bindings@.map_values(|b: ModuleBinding| binding_v(b)) =~= Seq::<ModuleBindingV>::empty());
        assert(defs@.map_values(|d: NetDef| def_v(d)) =~= Seq::<NetDefV>::empty());
        assert(views(bound@) =~= Seq::<Seq<u8>>::empty());
    }
    while i < stmts.len()
        invariant
            i <= stmts@.len(),
            index_upto(stmts@, i as int) == (IndexV {
                calls: calls@.map_values(|c: CallSite| call_v(c)),
                bindings: bindings@.map_values(|b: ModuleBinding| binding_v(b)),
                defs: defs@.map_values(|d: NetDef| def_v(d)),
                bound: views(bound@),
                board_start,
                last_load_end,
                docstring_end,
            }),
        decreases stmts.len() - i,
    {
        let t = &stmts[i];
        let ghost c0 = calls@;
        let ghost b0 = bindings@;
        let ghost d0 = defs@;
        let ghost n0 = bound@;
        match &t.stmt {
            Stmt::Load { module: _, locals } => {
                last_load_end = Some(t.end);
                let mut k: usize = 0;
                while k < locals.len()
                    invariant
                        k <= locals@.len(),
                        views(bound@) == views(n0) + views(locals@.take(k as int)),
                    decreases locals.len() - k,
                {
                    let ghost old = bound@;
                    let c = copy(&locals[k]);
                    bound.push(c);
                    proof {
                        crate::text::lemma_map_push(old, c, |x: Vec<u8>| x@);
                        assert(locals@.take(k + 1) =~= locals@.take(k as int).push(locals@[k as int]));
                        crate::text::lemma_map_push(locals@.take(k as int), locals@[k as int], |x: Vec<u8>| x@);
                        crate::text::lemma_append_push(views(n0), views(locals@.take(k as int)), c@);
                    }
                    k = k + 1;
                }
                assert(locals@.take(locals@.len() as int) =~= locals@);
            },
            Stmt::Def { name } => {
                let c = copy(name);
                bound.push(c);
                proof {
                    crate::text::lemma_map_push(n0, c, |x: Vec<u8>| x@);
                }
            },
            Stmt::Expression { expr } => {
                if i == 0 && str_exec(expr).is_some() {
                    docstring_end = Some(t.end);
                } else {
                    let is_board = match callee_exec(expr) {
                        Some(c) => bytes_eq(c.as_slice(), lit("Board").as_slice()),
                        None => false,
                    };
                    if is_board {
                        if board_start.is_none() {
                            board_start = Some(t.start);
                        }
                    } else {
                        match call_site_exec(expr, t.start, t.end, t.line) {
                            Some(cs) => {
                                calls.push(cs);
                                proof {
                                    crate::text::lemma_map_push(c0, cs, |c: CallSite| call_v(c));
                                }
                            },
                            None => {},
                        }
                    }
                }
            },
            Stmt::Assign { target, value } => match target {
                Target::Ident { name, start, end } => {
                    let c = copy(name);
                    bound.push(c);
                    proof {
                        crate::text::lemma_map_push(n0, c, |x: Vec<u8>| x@);
                    }
                    match callee_exec(value) {
                        None => {},
                        Some(callee) => {
                            let args = args_exec(value);
                            let fs = first_string_exec(args);
                            if bytes_eq(callee.as_slice(), lit("Module").as_slice()) && fs.is_some() {
                                let b = ModuleBinding {
                                    ident: copy(name),
                                    spec: copy(fs.unwrap()),
                                    stmt_start: t.start,
                                    stmt_end: t.end,
                                };
                                bindings.push(b);
                                proof {
                                    crate::text::lemma_map_push(b0, b, |b: ModuleBinding| binding_v(b));
                                }
                            } else {
                                match call_site_exec(value, t.start, t.end, t.line) {
                                    Some(cs) => {
                                        calls.push(cs);
                                        proof {
                                            crate::text::lemma_map_push(c0, cs, |c: CallSite| call_v(c));
                                        }
                                    },
                                    None => {},
                                }
                                match fs {
                                    Some(n) => {
                                        let d = NetDef {
                                            variable: copy(name),
                                            callee: copy(callee),
                                            name: copy(n),
                                            line: t.line,
                                            stmt_start: t.start,
                                            stmt_end: t.end,
                                            ident_start: *start,
                                            ident_end: *end,
                                            named: true,
                                            string_start: args[0].value.start,
                                            string_end: args[0].value.end,
                                            args_follow: false,
                                        };
                                        defs.push(d);
                                        proof {
                                            crate::text::lemma_map_push(d0, d, |d: NetDef| def_v(d));
                                        }
                                    },
                                    None => {
                                        let ctor = bytes_eq(callee.as_slice(), lit("Net").as_slice())
                                            || bytes_eq(callee.as_slice(), lit("Power").as_slice())
                                            || bytes_eq(callee.as_slice(), lit("Ground").as_slice());
                                        if ctor {
                                            let slot: usize = if args.len() > 0 {
                                                args[0].start
                                            } else if value.end > 0 {
                                                value.end - 1
                                            } else {
                                                0
                                            };
                                            let d = NetDef {
                                                variable: copy(name),
                                                callee: copy(callee),
                                                name: copy(name),
                                                line: t.line,
                                                stmt_start: t.start,
                                                stmt_end: t.end,
                                                ident_start: *start,
                                                ident_end: *end,
                                                named: false,
                                                string_start: slot,
                                                string_end: slot,
                                                args_follow: args.len() > 0,
                                            };
                                            defs.push(d);
                                            proof {
                                                crate::text::lemma_map_push(d0, d, |d: NetDef| def_v(d));
                                            }
                                        }
                                    },
                                }
                            }
                        },
                    }
                },
                Target::Other => {},
            },
            Stmt::Other => {},
        }
        i = i + 1;
    }
    FileIndex {
        calls,
        module_bindings: bindings,
        net_defs: defs,
        bound_idents: bound,
        board_start,
        last_load_end,
        docstring_end,
        error: None,
        ident_refs,
        nested_bindings,
    }
}


/// The index of a parsed file: its top-level statements indexed, every
/// identifier its top-level statements read, and every name its nested
/// scopes bind.
pub fn index_parsed(parsed: &crate::syntax::Parsed) -> (r: FileIndex)
    ensures
        index_v(r) == index_upto(parsed.stmts@, parsed.stmts@.len() as int),
        r.error is None,
        crate::scope::reads_v(r.ident_refs@) == crate::scope::top_reads(parsed.scopes@),
        crate::writers::views(r.nested_bindings@) == crate::scope::scopes_binds(parsed.scopes@),
{
    let (reads, binds) = crate::scope::reads_and_binds(&parsed.scopes);
    index_content(&parsed.stmts, reads, binds)
}

/// The index of a file that does not parse: it carries the parser's
/// message, naming the file, and nothing else.
pub fn index_unparseable(rel: &[u8], message: &[u8]) -> (r: FileIndex)
    ensures
        r.error matches Some(e) && e@ == rel@ + " does not parse: ".spec_bytes() + message@,
        index_v(r) == empty_index(),
        r.ident_refs@.len() == 0,
        r.nested_bindings@.len() == 0,
{
    let mut m = crate::bytes::slice_copy(rel, 0, rel.len());
    crate::text::push_all(&mut m, lit(" does not parse: ").as_slice());
    crate::text::push_all(&mut m, message);
    index_error(m)
}


/// The index of the file `rel` with text `content`, from the evaluator's
/// parse of it: the parsed file's index, reads and nested bindings, or,
/// when it does not parse, an index carrying the parser's message.
pub fn index_source(rel: &[u8], content: &[u8]) -> (r: FileIndex)
    ensures
        match crate::source::zen_syntax(rel@, content@) {
            Ok(p) => index_v(r) == index_upto(p.stmts@, p.stmts@.len() as int) && r.error is None
                && crate::scope::reads_v(r.ident_refs@) == crate::scope::top_reads(p.scopes@)
                && crate::writers::views(r.nested_bindings@) == crate::scope::scopes_binds(p.scopes@),
            Err(m) => (r.error matches Some(e) && e@ == rel@ + " does not parse: ".spec_bytes() + m)
                && index_v(r) == empty_index(),
        },
{
    match crate::source::parse_zen(rel, content) {
        Ok(p) => index_parsed(&p),
        Err(m) => index_unparseable(rel, m.as_slice()),
    }
}

} // verus!
