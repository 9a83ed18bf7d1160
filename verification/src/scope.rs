//! What a parsed file's nested structure says about its identifiers: every
//! identifier the top-level statements read, and every name some nested
//! scope binds (`def` and `lambda` parameters, `for` and comprehension
//! targets). The writers use the first to rename a variable everywhere it
//! is read and the second to refuse a rename that a nested binding would
//! make ambiguous.
use vstd::prelude::*;
use crate::bytes::copy;
use crate::index::IdentRef;
use crate::syntax::{Arg, Expr, Scope, Spanned};
use crate::writers::views;

verus! {

/// An identifier read: its name and byte span.
pub type Read = (Seq<u8>, usize, usize);

pub open spec fn reads_v(v: Seq<IdentRef>) -> Seq<Read> {
    v.map_values(|r: IdentRef| (r.name@, r.start, r.end))
}

/// The identifiers an expression reads, outermost first, subexpressions in
/// visiting order.
pub open spec fn expr_reads(e: Spanned) -> Seq<Read>
    decreases e,
{
    let own: Seq<Read> = match e.expr {
        Expr::Ident { name } => seq![(name@, e.start, e.end)],
        _ => Seq::empty(),
    };
    own + match e.expr {
        Expr::Call { callee, args } => expr_reads(*callee) + args_reads(args@),
        Expr::Dict { entries } => entries_reads(entries@),
        Expr::Other { binds, children } => exprs_reads(children@),
        _ => Seq::empty(),
    }
}

pub open spec fn exprs_reads(es: Seq<Spanned>) -> Seq<Read>
    decreases es,
{
    if es.len() == 0 {
        Seq::empty()
    } else {
        exprs_reads(es.drop_last()) + expr_reads(es.last())
    }
}

pub open spec fn args_reads(args: Seq<Arg>) -> Seq<Read>
    decreases args,
{
    if args.len() == 0 {
        Seq::empty()
    } else {
        args_reads(args.drop_last()) + expr_reads(args.last().value)
    }
}

pub open spec fn entries_reads(es: Seq<(Spanned, Spanned)>) -> Seq<Read>
    decreases es,
{
    if es.len() == 0 {
        Seq::empty()
    } else {
        entries_reads(es.drop_last()) + expr_reads(es.last().0) + expr_reads(es.last().1)
    }
}


/// Append the reads of `e` to `out`.
#[verifier::loop_isolation(false)]
pub fn expr_reads_exec(e: &Spanned, out: &mut Vec<IdentRef>)
    ensures
        reads_v(final(out)@) == reads_v(old(out)@) + expr_reads(*e),
    decreases e,
{
    let ghost o0 = reads_v(out@);
    match &e.expr {
        Expr::Ident { name } => {
            out.push(IdentRef { name: copy(name), start: e.start, end: e.end });
            assert(reads_v(out@) == o0 + expr_reads(*e));
        },
        Expr::Call { callee, args } => {
            expr_reads_exec(callee, out);
            let mut i: usize = 0;
            while i < args.len()
                invariant
                    i <= args@.len(),
                    reads_v(out@) == o0 + expr_reads(**callee) + args_reads(args@.take(i as int)),
                decreases args.len() - i,
            {
                assert(args@.take(i + 1).drop_last() == args@.take(i as int));
                assert(decreases_to!(*e => args@[i as int].value));
                expr_reads_exec(&args[i].value, out);
                i = i + 1;
            }
            assert(args@.take(args@.len() as int) == args@);
        },
        Expr::Dict { entries } => {
            let mut i: usize = 0;
            while i < entries.len()
                invariant
                    i <= entries@.len(),
                    reads_v(out@) == o0 + entries_reads(entries@.take(i as int)),
                decreases entries.len() - i,
            {
                assert(entries@.take(i + 1).drop_last() == entries@.take(i as int));
                assert(decreases_to!(*e => entries@[i as int].0));
                assert(decreases_to!(*e => entries@[i as int].1));
                expr_reads_exec(&entries[i].0, out);
                expr_reads_exec(&entries[i].1, out);
                i = i + 1;
            }
            assert(entries@.take(entries@.len() as int) == entries@);
        },
        Expr::Other { binds: _, children } => {
            let mut i: usize = 0;
            while i < children.len()
                invariant
                    i <= children@.len(),
                    reads_v(out@) == o0 + exprs_reads(children@.take(i as int)),
                decreases children.len() - i,
            {
                assert(children@.take(i + 1).drop_last() == children@.take(i as int));
                assert(decreases_to!(*e => children@[i as int]));
                expr_reads_exec(&children[i], out);
                i = i + 1;
            }
            assert(children@.take(children@.len() as int) == children@);
        },
        Expr::Str { value: _ } => {
            assert(reads_v(out@) == o0 + expr_reads(*e));
        },
    }
}


/// The names the nested scopes inside an expression bind.
pub open spec fn expr_binds(e: Spanned) -> Seq<Seq<u8>>
    decreases e,
{
    match e.expr {
        Expr::Call { callee, args } => expr_binds(*callee) + args_binds(args@),
        Expr::Dict { entries } => entries_binds(entries@),
        Expr::Other { binds, children } => views(binds@) + exprs_binds(children@),
        _ => Seq::empty(),
    }
}

pub open spec fn exprs_binds(es: Seq<Spanned>) -> Seq<Seq<u8>>
    decreases es,
{
    if es.len() == 0 {
        Seq::empty()
    } else {
        exprs_binds(es.drop_last()) + expr_binds(es.last())
    }
}

pub open spec fn args_binds(args: Seq<Arg>) -> Seq<Seq<u8>>
    decreases args,
{
    if args.len() == 0 {
        Seq::empty()
    } else {
        args_binds(args.drop_last()) + expr_binds(args.last().value)
    }
}

pub open spec fn entries_binds(es: Seq<(Spanned, Spanned)>) -> Seq<Seq<u8>>
    decreases es,
{
    if es.len() == 0 {
        Seq::empty()
    } else {
        entries_binds(es.drop_last()) + expr_binds(es.last().0) + expr_binds(es.last().1)
    }
}

/// The names a statement's own scope and every scope nested in it bind.
pub open spec fn scope_binds(s: Scope) -> Seq<Seq<u8>>
    decreases s,
{
    views(s.binds@) + exprs_binds(s.exprs@) + scopes_binds(s.stmts@)
}

pub open spec fn scopes_binds(ss: Seq<Scope>) -> Seq<Seq<u8>>
    decreases ss,
{
    if ss.len() == 0 {
        Seq::empty()
    } else {
        scopes_binds(ss.drop_last()) + scope_binds(ss.last())
    }
}

/// The identifiers the top-level statements read, statement by statement.
pub open spec fn top_reads(ss: Seq<Scope>) -> Seq<Read>
    decreases ss.len(),
{
    if ss.len() == 0 {
        Seq::empty()
    } else {
        top_reads(ss.drop_last()) + exprs_reads(ss.last().exprs@)
    }
}

fn push_names(out: &mut Vec<Vec<u8>>, names: &Vec<Vec<u8>>)
    ensures
        views(final(out)@) == views(old(out)@) + views(names@),
{
    let ghost o0 = views(out@);
    let mut i: usize = 0;
    while i < names.len()
        invariant
            i <= names@.len(),
            views(out@) == o0 + views(names@.take(i as int)),
        decreases names.len() - i,
    {
        let ghost before = out@;
        let c = copy(&names[i]);
        out.push(c);
        proof {
            crate::text::lemma_map_push(before, c, |x: Vec<u8>| x@);
            assert(names@.take(i + 1) == names@.take(i as int).push(names@[i as int]));
            crate::text::lemma_map_push(names@.take(i as int), names@[i as int], |x: Vec<u8>| x@);
        }
        i = i + 1;
    }
    assert(names@.take(names@.len() as int) == names@);
}

/// Append the names the nested scopes inside `e` bind to `out`.
#[verifier::loop_isolation(false)]
pub fn expr_binds_exec(e: &Spanned, out: &mut Vec<Vec<u8>>)
    ensures
        views(final(out)@) == views(old(out)@) + expr_binds(*e),
    decreases e,
{
    let ghost o0 = views(out@);
    match &e.expr {
        Expr::Call { callee, args } => {
            expr_binds_exec(callee, out);
            let mut i: usize = 0;
            while i < args.len()
                invariant
                    i <= args@.len(),
                    views(out@) == o0 + expr_binds(**callee) + args_binds(args@.take(i as int)),
                decreases args.len() - i,
            {
                assert(args@.take(i + 1).drop_last() == args@.take(i as int));
                assert(decreases_to!(*e => args@[i as int].value));
                expr_binds_exec(&args[i].value, out);
                i = i + 1;
            }
            assert(args@.take(args@.len() as int) == args@);
        },
        Expr::Dict { entries } => {
            let mut i: usize = 0;
            while i < entries.len()
                invariant
                    i <= entries@.len(),
                    views(out@) == o0 + entries_binds(entries@.take(i as int)),
                decreases entries.len() - i,
            {
                assert(entries@.take(i + 1).drop_last() == entries@.take(i as int));
                assert(decreases_to!(*e => entries@[i as int].0));
                assert(decreases_to!(*e => entries@[i as int].1));
                expr_binds_exec(&entries[i].0, out);
                expr_binds_exec(&entries[i].1, out);
                i = i + 1;
            }
            assert(entries@.take(entries@.len() as int) == entries@);
        },
        Expr::Other { binds, children } => {
            push_names(out, binds);
            let mut i: usize = 0;
            while i < children.len()
                invariant
                    i <= children@.len(),
                    views(out@) == o0 + views(binds@) + exprs_binds(children@.take(i as int)),
                decreases children.len() - i,
            {
                assert(children@.take(i + 1).drop_last() == children@.take(i as int));
                assert(decreases_to!(*e => children@[i as int]));
                expr_binds_exec(&children[i], out);
                i = i + 1;
            }
            assert(children@.take(children@.len() as int) == children@);
        },
        _ => {
            assert(views(out@) == o0 + expr_binds(*e));
        },
    }
}

/// Append the names `s` and every scope nested in it bind to `out`.
#[verifier::loop_isolation(false)]
pub fn scope_binds_exec(s: &Scope, out: &mut Vec<Vec<u8>>)
    ensures
        views(final(out)@) == views(old(out)@) + scope_binds(*s),
    decreases s,
{
    let ghost o0 = views(out@);
    push_names(out, &s.binds);
    let mut i: usize = 0;
    while i < s.exprs.len()
        invariant
            i <= s.exprs@.len(),
            views(out@) == o0 + views(s.binds@) + exprs_binds(s.exprs@.take(i as int)),
        decreases s.exprs.len() - i,
    {
        assert(s.exprs@.take(i + 1).drop_last() == s.exprs@.take(i as int));
        expr_binds_exec(&s.exprs[i], out);
        i = i + 1;
    }
    assert(s.exprs@.take(s.exprs@.len() as int) == s.exprs@);
    let mut j: usize = 0;
    while j < s.stmts.len()
        invariant
            j <= s.stmts@.len(),
            views(out@) == o0 + views(s.binds@) + exprs_binds(s.exprs@) + scopes_binds(s.stmts@.take(j as int)),
        decreases s.stmts.len() - j,
    {
        assert(s.stmts@.take(j + 1).drop_last() == s.stmts@.take(j as int));
        assert(decreases_to!(*s => s.stmts@[j as int]));
        scope_binds_exec(&s.stmts[j], out);
        j = j + 1;
    }
    assert(s.stmts@.take(s.stmts@.len() as int) == s.stmts@);
}

/// Every identifier the top-level statements read, and every name a nested
/// scope binds, over the statements' scopes.
pub fn reads_and_binds(scopes: &Vec<Scope>) -> (r: (Vec<IdentRef>, Vec<Vec<u8>>))
    ensures
        reads_v(r.0@) == top_reads(scopes@),
        views(r.1@) == scopes_binds(scopes@),
{
    let mut reads: Vec<IdentRef> = Vec::new();
    let mut binds: Vec<Vec<u8>> = Vec::new();
    let mut k: usize = 0;
    while k < scopes.len()
        invariant
            k <= scopes@.len(),
            reads_v(reads@) == top_reads(scopes@.take(k as int)),
            views(binds@) == scopes_binds(scopes@.take(k as int)),
        decreases scopes.len() - k,
    {
        assert(scopes@.take(k + 1).drop_last() == scopes@.take(k as int));
        assert(scopes@.take(k + 1).last() == scopes@[k as int]);
        let s = &scopes[k];
        let ghost r0 = reads_v(reads@);
        let mut i: usize = 0;
        while i < s.exprs.len()
            invariant
                i <= s.exprs@.len(),
                reads_v(reads@) == r0 + exprs_reads(s.exprs@.take(i as int)),
            decreases s.exprs.len() - i,
        {
            assert(s.exprs@.take(i + 1).drop_last() == s.exprs@.take(i as int));
            expr_reads_exec(&s.exprs[i], &mut reads);
            i = i + 1;
        }
        assert(s.exprs@.take(s.exprs@.len() as int) == s.exprs@);
        scope_binds_exec(s, &mut binds);
        k = k + 1;
    }
    assert(scopes@.take(scopes@.len() as int) == scopes@);
    (reads, binds)
}

} // verus!
