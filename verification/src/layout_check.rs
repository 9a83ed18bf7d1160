//! The layout lint's report: the kinds of drawing defect it finds, which
//! instances each touches, and the scope filter that keeps a report to one
//! part of the design. The geometry it measures is the caller's.
use vstd::prelude::*;
use vstd::string::StringSliceAdditionalSpecFns;
use crate::bytes::{bytes_eq, copy, lit, spec_starts_with, starts_with};
use crate::writers::views;

verus! {

/// A defect of the drawn schematic.
pub enum LayoutProblem {
    /// Two symbol bodies overlap on the canvas.
    ComponentOverlap { a: Vec<u8>, b: Vec<u8> },
    /// A routed wire passes through a symbol body it doesn't terminate on.
    WireThroughComponent { net: Vec<u8>, component: Vec<u8> },
    /// A net label (at `component`'s pin) sits on top of another symbol.
    LabelOverlapsComponent { net: Vec<u8>, component: Vec<u8>, overlaps: Vec<u8> },
    /// Two net labels collide.
    LabelOverlapsLabel {
        net: Vec<u8>,
        component: Vec<u8>,
        other_net: Vec<u8>,
        other_component: Vec<u8>,
    },
}

/// What the lint checked and found.
pub struct LayoutReport {
    /// How much geometry was checked (components / routed wires / net
    /// labels).
    pub components: usize,
    pub wires: usize,
    pub labels: usize,
    pub problems: Vec<LayoutProblem>,
}

/// A direction to look for free space in, in schematic orientation.
#[derive(PartialEq, Eq, Structural, Debug, Clone, Copy)]
pub enum SpaceDirection {
    Top,
    Right,
    Bottom,
    Left,
}

/// Every instance path a problem touches.
pub open spec fn problem_paths(p: LayoutProblem) -> Seq<Seq<u8>> {
    match p {
        LayoutProblem::ComponentOverlap { a, b } => seq![a@, b@],
        LayoutProblem::WireThroughComponent { component, .. } => seq![component@],
        LayoutProblem::LabelOverlapsComponent { component, overlaps, .. } => seq![
            component@,
            overlaps@,
        ],
        LayoutProblem::LabelOverlapsLabel { component, other_component, .. } => seq![
            component@,
            other_component@,
        ],
    }
}

impl LayoutProblem {
    /// Every instance path this problem touches (for scope filtering).
    pub fn paths(&self) -> (r: Vec<Vec<u8>>)
        ensures
            views(r@) == problem_paths(*self),
    {
        let mut r: Vec<Vec<u8>> = Vec::new();
        match self {
            LayoutProblem::ComponentOverlap { a, b } => {
                r.push(copy(a));
                r.push(copy(b));
            },
            LayoutProblem::WireThroughComponent { component, .. } => {
                r.push(copy(component));
            },
            LayoutProblem::LabelOverlapsComponent { component, overlaps, .. } => {
                r.push(copy(component));
                r.push(copy(overlaps));
            },
            LayoutProblem::LabelOverlapsLabel { component, other_component, .. } => {
                r.push(copy(component));
                r.push(copy(other_component));
            },
        }
        assert(views(r@) =~= problem_paths(*self));
        r
    }
}

/// A path is in scope when there is no scope (or the scope is `root`), or
/// it is the scope or lies under it.
pub open spec fn spec_in_scope(scope: Option<Seq<u8>>, path: Seq<u8>) -> bool {
    match scope {
        None => true,
        Some(s) => s == "root".spec_bytes() || path == s || (path.len() > s.len() && spec_starts_with(
            path,
            s,
        ) && path[s.len() as int] == 46u8),
    }
}

pub fn in_scope(scope: Option<&[u8]>, path: &[u8]) -> (r: bool)
    ensures
        r == spec_in_scope(crate::catalog::opt_slice(scope), path@),
{
    match scope {
        None => true,
        Some(s) => bytes_eq(s, lit("root").as_slice()) || bytes_eq(path, s) || (path.len() > s.len()
            && starts_with(path, s) && path[s.len()] == 46u8),
    }
}

/// A problem stays in a scoped report when any path it touches is in
/// scope.
pub open spec fn problem_in_scope(scope: Option<Seq<u8>>, p: LayoutProblem) -> bool {
    exists|k: int| 0 <= k < problem_paths(p).len() && spec_in_scope(scope, #[trigger] problem_paths(p)[k])
}

pub open spec fn scoped(scope: Option<Seq<u8>>, ps: Seq<LayoutProblem>) -> Seq<LayoutProblem>
    decreases ps.len(),
{
    if ps.len() == 0 {
        ps
    } else if problem_in_scope(scope, ps.last()) {
        scoped(scope, ps.drop_last()).push(ps.last())
    } else {
        scoped(scope, ps.drop_last())
    }
}

fn problem_in_scope_exec(scope: Option<&[u8]>, p: &LayoutProblem) -> (r: bool)
    ensures
        r == problem_in_scope(crate::catalog::opt_slice(scope), *p),
{
    let paths = p.paths();
    let ghost pv = problem_paths(*p);
    let mut k: usize = 0;
    while k < paths.len()
        invariant
            k <= paths@.len(),
            views(paths@) == pv,
            pv == problem_paths(*p),
            forall|m: int| 0 <= m < k ==> !spec_in_scope(crate::catalog::opt_slice(scope), #[trigger] pv[m]),
        decreases paths.len() - k,
    {
        if in_scope(scope, paths[k].as_slice()) {
            assert(pv[k as int] == paths@[k as int]@);
            return true;
        }
        k = k + 1;
    }
    false
}

/// Keep the problems that touch the scope, in order.
pub fn retain_in_scope(problems: Vec<LayoutProblem>, scope: Option<&[u8]>) -> (r: Vec<LayoutProblem>)
    ensures
        r@ == scoped(crate::catalog::opt_slice(scope), problems@),
{
    let ghost all = problems@;
    let n0: usize = problems.len();
    let mut rest = problems;
    let mut taken: Vec<LayoutProblem> = Vec::new();
    assert(all =~= rest@ + taken@.reverse());
    // Reversed, so that popping yields the problems in order.
    while rest.len() > 0
        invariant
            all == rest@ + taken@.reverse(),
        decreases rest.len(),
    {
        let ghost before_rest = rest@;
        let ghost before_taken = taken@;
        let p = rest.pop().unwrap();
        taken.push(p);
        proof {
            assert(before_rest =~= rest@.push(p));
            assert(taken@.reverse() =~= seq![p] + before_taken.reverse());
            assert(all =~= rest@ + taken@.reverse());
        }
    }
    assert(all =~= taken@.reverse());
    let mut out: Vec<LayoutProblem> = Vec::new();
    let mut i: usize = 0;
    assert(all.take(0) =~= Seq::<LayoutProblem>::empty());
    assert(all.skip(0) =~= all);
    while taken.len() > 0
        invariant
            i <= all.len(),
            all.len() == n0,
            taken@.reverse() == all.skip(i as int),
            out@ == scoped(crate::catalog::opt_slice(scope), all.take(i as int)),
        decreases taken.len(),
    {
        let ghost before_taken = taken@;
        assert(before_taken.reverse().len() == before_taken.len());
        assert(all.skip(i as int).len() == all.len() - i);
        let p = taken.pop().unwrap();
        proof {
            assert(before_taken =~= taken@.push(p));
            assert(before_taken.reverse() =~= seq![p] + taken@.reverse());
            assert(all.skip(i as int)[0] == p);
            assert(all[i as int] == p);
            let t = taken@.reverse();
            let a = all.skip(i + 1);
            assert(t.len() == a.len());
            assert forall|k: int| 0 <= k < t.len() implies t[k] == a[k] by {
                assert((seq![p] + t)[k + 1] == t[k]);
                assert(before_taken.reverse()[k + 1] == all.skip(i as int)[k + 1]);
            }
            assert(t =~= a);
            assert(all.take(i + 1).drop_last() =~= all.take(i as int));
            assert(all.take(i + 1).last() == p);
        }
        if problem_in_scope_exec(scope, &p) {
            out.push(p);
        }
        i = i + 1;
    }
    proof {
        assert(all.skip(i as int).len() == 0);
        assert(all.take(i as int) =~= all);
    }
    out
}


/// A scoped report keeps exactly the problems that touch the scope, in
/// their order: each kept problem touches it, and each problem that
/// touches it is kept.
pub proof fn law_scope_keeps_exactly_the_touching(scope: Option<Seq<u8>>, ps: Seq<LayoutProblem>)
    ensures
        forall|i: int| 0 <= i < scoped(scope, ps).len() ==> problem_in_scope(scope, #[trigger] scoped(scope, ps)[i]),
        forall|i: int| 0 <= i < ps.len() && problem_in_scope(scope, #[trigger] ps[i]) ==> scoped(scope, ps).contains(ps[i]),
        scoped(scope, ps).len() <= ps.len(),
    decreases ps.len(),
{
    if ps.len() > 0 {
        let d = ps.drop_last();
        law_scope_keeps_exactly_the_touching(scope, d);
        let sd = scoped(scope, d);
        let s = scoped(scope, ps);
        assert forall|i: int| 0 <= i < s.len() implies problem_in_scope(scope, #[trigger] s[i]) by {
            if i < sd.len() {
                assert(s[i] == sd[i]);
            }
        }
        assert forall|i: int| 0 <= i < ps.len() && problem_in_scope(scope, #[trigger] ps[i]) implies s.contains(ps[i]) by {
            if i < d.len() {
                assert(ps[i] == d[i]);
                assert(sd.contains(d[i]));
                let k = choose|k: int| 0 <= k < sd.len() && sd[k] == d[i];
                assert(s[k] == sd[k]);
            } else {
                assert(s[s.len() - 1] == ps.last());
            }
        }
    }
}

} // verus!
