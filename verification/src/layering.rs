//! Column assignment for a module's packing units: the directed
//! connectivity between units has its cycles broken by a depth-first walk
//! in index order (back edges are dropped), and each unit's column is the
//! length of the longest kept path into it. Row ordering and geometry are
//! the caller's.
use vstd::prelude::*;

verus! {

/// A directed edge between two units, by index.
pub type Edge = (usize, usize);

/// How many entries of `s` equal `x`.
pub open spec fn count_of(s: Seq<u8>, x: u8) -> nat
    decreases s.len(),
{
    if s.len() == 0 {
        0
    } else {
        count_of(s.drop_last(), x) + if s.last() == x {
            1nat
        } else {
            0nat
        }
    }
}

proof fn lemma_count_bound(s: Seq<u8>, x: u8)
    ensures
        count_of(s, x) <= s.len(),
    decreases s.len(),
{
    if s.len() > 0 {
        lemma_count_bound(s.drop_last(), x);
    }
}

proof fn lemma_count_update(s: Seq<u8>, i: int, y: u8, x: u8)
    requires
        0 <= i < s.len(),
    ensures
        count_of(s.update(i, y), x) + (if s[i] == x {
            1int
        } else {
            0int
        }) == count_of(s, x) + (if y == x {
            1int
        } else {
            0int
        }),
    decreases s.len(),
{
    if i == s.len() - 1 {
        assert(s.update(i, y).drop_last() =~= s.drop_last());
    } else {
        lemma_count_update(s.drop_last(), i, y, x);
        assert(s.update(i, y).drop_last() =~= s.drop_last().update(i, y));
    }
}

proof fn lemma_count_all(n: nat, x: u8)
    ensures
        count_of(Seq::new(n, |i: int| x), x) == n,
    decreases n,
{
    if n > 0 {
        lemma_count_all((n - 1) as nat, x);
        assert(Seq::new(n, |i: int| x).drop_last() =~= Seq::new((n - 1) as nat, |i: int| x));
    }
}

/// Each vertex's successors, in the order the edges list them.
pub open spec fn adjacency(n: nat, edges: Seq<Edge>) -> Seq<Seq<usize>>
    decreases edges.len(),
{
    if edges.len() == 0 {
        Seq::new(n, |i: int| Seq::<usize>::empty())
    } else {
        let a = adjacency(n, edges.drop_last());
        let e = edges.last();
        if e.0 < n {
            a.update(e.0 as int, a[e.0 as int].push(e.1))
        } else {
            a
        }
    }
}

proof fn lemma_adjacency_shape(n: nat, edges: Seq<Edge>)
    requires
        forall|i: int| 0 <= i < edges.len() ==> (#[trigger] edges[i]).0 < n && edges[i].1 < n,
    ensures
        adjacency(n, edges).len() == n,
        forall|a: int, j: int|
            0 <= a < n && 0 <= j < adjacency(n, edges)[a].len() ==> (#[trigger] adjacency(n, edges)[a][j])
                < n,
    decreases edges.len(),
{
    if edges.len() > 0 {
        let d = edges.drop_last();
        assert forall|i: int| 0 <= i < d.len() implies (#[trigger] d[i]).0 < n && d[i].1 < n by {
            assert(d[i] == edges[i]);
        }
        lemma_adjacency_shape(n, d);
        let e = edges.last();
        assert(e == edges[edges.len() - 1]);
    }
}

/// The state of a depth-first walk: each vertex unvisited (0), on the
/// stack (1) or done (2); the edges kept so far; and, for the proofs
/// only, each done vertex's finishing time and the clock.
pub struct Walk {
    pub state: Seq<u8>,
    pub kept: Seq<Edge>,
    pub fin: Seq<int>,
    pub clock: int,
}

/// Visit `v`: mark it on the stack, walk its successors, mark it done.
/// `fuel` bounds the depth; a walk over `n` vertices never needs more than
/// `n`, as each level puts one more vertex on the stack.
pub open spec fn visit(adj: Seq<Seq<usize>>, v: usize, w: Walk, fuel: nat) -> Walk
    decreases fuel, 0int,
{
    if fuel == 0 {
        w
    } else {
        let entered = Walk { state: w.state.update(v as int, 1), ..w };
        let d = scan(adj, v, 0, entered, (fuel - 1) as nat);
        Walk {
            state: d.state.update(v as int, 2),
            fin: d.fin.update(v as int, d.clock),
            clock: d.clock + 1,
            ..d
        }
    }
}

/// Walk the successors of `v` from the `k`-th on: an unvisited one is
/// kept and visited, a done one is kept, one on the stack (a back edge)
/// is dropped.
pub open spec fn scan(adj: Seq<Seq<usize>>, v: usize, k: int, w: Walk, fuel: nat) -> Walk
    decreases fuel, adj[v as int].len() - k,
{
    if !(0 <= k < adj[v as int].len()) {
        w
    } else {
        let t = adj[v as int][k];
        let next = if w.state[t as int] == 0 {
            visit(adj, t, Walk { kept: w.kept.push((v, t)), ..w }, fuel)
        } else if w.state[t as int] == 2 {
            Walk { kept: w.kept.push((v, t)), ..w }
        } else {
            w
        };
        scan(adj, v, k + 1, next, fuel)
    }
}

/// Start a visit at each vertex from `v` on that is still unvisited.
pub open spec fn walk_from(adj: Seq<Seq<usize>>, n: usize, v: usize, w: Walk) -> Walk
    decreases n - v,
{
    if v >= n {
        w
    } else {
        let next = if w.state[v as int] == 0 {
            visit(adj, v, w, n as nat)
        } else {
            w
        };
        walk_from(adj, n, (v + 1) as usize, next)
    }
}

pub open spec fn fresh_walk(n: nat) -> Walk {
    Walk { state: Seq::new(n, |i: int| 0u8), kept: Seq::empty(), fin: Seq::new(n, |i: int| 0int), clock: 0 }
}

/// The whole walk over `n` vertices.
pub open spec fn full_walk(n: usize, edges: Seq<Edge>) -> Walk {
    walk_from(adjacency(n as nat, edges), n, 0, fresh_walk(n as nat))
}

/// The edges a depth-first walk in index order keeps: all but its back
/// edges, in the order it meets them.
pub open spec fn spec_break_cycles(n: usize, edges: Seq<Edge>) -> Seq<Edge> {
    full_walk(n, edges).kept
}

/// A kept edge is consistent with the walk's bookkeeping: its source was
/// reached; an edge into a done vertex finished before its source did (if
/// the source is done); an edge into a vertex on the stack comes from the
/// stack; an edge into an unvisited vertex is only the one about to be
/// followed (`next`).
pub open spec fn edge_ok(w: Walk, e: Edge, n: nat, next: Option<usize>) -> bool {
    &&& e.0 < n && e.1 < n
    &&& w.state[e.0 as int] != 0
    &&& w.state[e.1 as int] == 2 ==> (w.state[e.0 as int] == 2 ==> w.fin[e.1 as int] < w.fin[e.0 as int])
    &&& w.state[e.1 as int] == 1 ==> w.state[e.0 as int] == 1
    &&& w.state[e.1 as int] == 0 ==> next == Some(e.1) && w.state[e.0 as int] == 1
}

/// The bookkeeping of a walk over `n` vertices is consistent.
pub open spec fn walk_ok(w: Walk, n: nat, next: Option<usize>) -> bool {
    &&& w.state.len() == n
    &&& w.fin.len() == n
    &&& forall|u: int| 0 <= u < n ==> #[trigger] w.state[u] <= 2
    &&& forall|u: int| 0 <= u < n && #[trigger] w.state[u] == 2 ==> 0 <= w.fin[u] < w.clock
    &&& w.clock == count_of(w.state, 2)
    &&& forall|i: int| 0 <= i < w.kept.len() ==> edge_ok(w, #[trigger] w.kept[i], n, next)
}

/// What a visit or scan keeps of the walk it starts from.
pub open spec fn advances(w: Walk, r: Walk, n: nat) -> bool {
    &&& forall|u: int| 0 <= u < n && w.state[u] == 1 ==> #[trigger] r.state[u] == 1
    &&& forall|u: int| 0 <= u < n && w.state[u] == 2 ==> #[trigger] r.state[u] == 2 && r.fin[u] == w.fin[u]
    &&& forall|u: int| 0 <= u < n && #[trigger] r.state[u] == 1 ==> w.state[u] == 1
    &&& r.kept.len() >= w.kept.len()
    &&& forall|i: int| 0 <= i < w.kept.len() ==> #[trigger] r.kept[i] == w.kept[i]
    &&& count_of(r.state, 0) <= count_of(w.state, 0)
}

proof fn lemma_count_pos(s: Seq<u8>, i: int, x: u8)
    requires
        0 <= i < s.len(),
        s[i] == x,
    ensures
        count_of(s, x) >= 1,
{
    lemma_count_update(s, i, x, x);
    assert(s.update(i, x) =~= s);
    lemma_count_update(s, i, if x == 0 { 1u8 } else { 0u8 }, x);
}

proof fn lemma_visit_ok(adj: Seq<Seq<usize>>, n: nat, v: usize, w: Walk, fuel: nat)
    requires
        adj_ok(adj, n),
        v < n,
        w.state[v as int] == 0,
        walk_ok(w, n, Some(v)),
        fuel >= count_of(w.state, 0),
    ensures
        walk_ok(visit(adj, v, w, fuel), n, None),
        visit(adj, v, w, fuel).state[v as int] == 2,
        advances(w, visit(adj, v, w, fuel), n),
        forall|i: int|
            w.kept.len() <= i < visit(adj, v, w, fuel).kept.len() ==> w.state[(#[trigger] visit(
                adj,
                v,
                w,
                fuel,
            ).kept[i]).0 as int] == 0,
    decreases fuel, 0int,
{
    lemma_count_pos(w.state, v as int, 0);
    let entered = Walk { state: w.state.update(v as int, 1), ..w };
    lemma_count_update(w.state, v as int, 1, 0);
    lemma_count_update(w.state, v as int, 1, 2);
    assert forall|i: int| 0 <= i < entered.kept.len() implies edge_ok(entered, #[trigger] entered.kept[i], n, None) by {
        assert(edge_ok(w, w.kept[i], n, Some(v)));
    }
    assert forall|i: int| 0 <= i < entered.kept.len() && (#[trigger] entered.kept[i]).0 == v implies entered.state[
        entered.kept[i].1 as int] == 2 by {
        assert(edge_ok(w, w.kept[i], n, Some(v)));
    }
    let f = (fuel - 1) as nat;
    lemma_scan_ok(adj, n, v, 0, entered, f);
    let d = scan(adj, v, 0, entered, f);
    let r = visit(adj, v, w, fuel);
    assert(r == Walk {
        state: d.state.update(v as int, 2),
        fin: d.fin.update(v as int, d.clock),
        clock: d.clock + 1,
        ..d
    });
    lemma_count_update(d.state, v as int, 2, 2);
    lemma_count_update(d.state, v as int, 2, 0);
    assert forall|i: int| 0 <= i < r.kept.len() implies edge_ok(r, #[trigger] r.kept[i], n, None) by {
        assert(edge_ok(d, d.kept[i], n, None));
        let e = r.kept[i];
        if e.0 == v {
            assert(d.state[e.1 as int] == 2);
        }
    }
    assert forall|i: int| w.kept.len() <= i < r.kept.len() implies w.state[(#[trigger] r.kept[i]).0 as int]
        == 0 by {
        if i >= entered.kept.len() {
            let e = d.kept[i];
            if e.0 != v {
                assert(entered.state[e.0 as int] == 0);
            }
        }
    }
    assert forall|u: int| 0 <= u < n && w.state[u] == 2 implies #[trigger] r.state[u] == 2 && r.fin[u] == w.fin[u] by {
        assert(entered.state[u] == 2);
    }
    assert forall|u: int| 0 <= u < n && w.state[u] == 1 implies #[trigger] r.state[u] == 1 by {
        assert(entered.state[u] == 1);
    }
    assert forall|u: int| 0 <= u < n && #[trigger] r.state[u] == 1 implies w.state[u] == 1 by {
        assert(d.state[u] == 1);
    }
    assert forall|u: int| 0 <= u < n && #[trigger] r.state[u] == 2 implies 0 <= r.fin[u] < r.clock by {
        if u != v {
            assert(d.state[u] == 2);
        }
    }
    assert forall|i: int| 0 <= i < w.kept.len() implies #[trigger] r.kept[i] == w.kept[i] by {
        assert(d.kept[i] == entered.kept[i]);
    }
}

proof fn lemma_scan_ok(adj: Seq<Seq<usize>>, n: nat, v: usize, k: int, w: Walk, fuel: nat)
    requires
        adj_ok(adj, n),
        v < n,
        k >= 0,
        w.state[v as int] == 1,
        walk_ok(w, n, None),
        fuel >= count_of(w.state, 0),
        forall|i: int| 0 <= i < w.kept.len() && (#[trigger] w.kept[i]).0 == v ==> w.state[w.kept[i].1 as int] == 2,
    ensures
        walk_ok(scan(adj, v, k, w, fuel), n, None),
        scan(adj, v, k, w, fuel).state[v as int] == 1,
        advances(w, scan(adj, v, k, w, fuel), n),
        forall|i: int|
            w.kept.len() <= i < scan(adj, v, k, w, fuel).kept.len() ==> ((#[trigger] scan(
                adj,
                v,
                k,
                w,
                fuel,
            ).kept[i]).0 == v || w.state[scan(adj, v, k, w, fuel).kept[i].0 as int] == 0),
        forall|i: int|
            0 <= i < scan(adj, v, k, w, fuel).kept.len() && (#[trigger] scan(adj, v, k, w, fuel).kept[i]).0
                == v ==> scan(adj, v, k, w, fuel).state[scan(adj, v, k, w, fuel).kept[i].1 as int] == 2,
    decreases fuel, adj[v as int].len() - k,
{
    if 0 <= k < adj[v as int].len() {
        let t = adj[v as int][k];
        assert(t < n);
        let next = if w.state[t as int] == 0 {
            let pushed = Walk { kept: w.kept.push((v, t)), ..w };
            assert forall|i: int| 0 <= i < pushed.kept.len() implies edge_ok(pushed, #[trigger] pushed.kept[i], n, Some(t)) by {
                if i < w.kept.len() {
                    assert(edge_ok(w, w.kept[i], n, None));
                }
            }
            lemma_visit_ok(adj, n, t, pushed, fuel);
            let r = visit(adj, t, pushed, fuel);
            assert forall|i: int| 0 <= i < r.kept.len() && (#[trigger] r.kept[i]).0 == v implies r.state[
                r.kept[i].1 as int] == 2 by {
                if i < w.kept.len() {
                    assert(r.kept[i] == pushed.kept[i]);
                } else if i > w.kept.len() {
                    assert(pushed.state[r.kept[i].0 as int] == 0);
                } else {
                    assert(r.kept[i] == pushed.kept[i]);
                }
            }
            r
        } else if w.state[t as int] == 2 {
            let pushed = Walk { kept: w.kept.push((v, t)), ..w };
            assert forall|i: int| 0 <= i < pushed.kept.len() implies edge_ok(pushed, #[trigger] pushed.kept[i], n, None) by {
                if i < w.kept.len() {
                    assert(edge_ok(w, w.kept[i], n, None));
                }
            }
            pushed
        } else {
            w
        };
        lemma_scan_ok(adj, n, v, k + 1, next, fuel);
        let r = scan(adj, v, k + 1, next, fuel);
        assert(r == scan(adj, v, k, w, fuel));
        assert forall|i: int| w.kept.len() <= i < r.kept.len() implies ((#[trigger] r.kept[i]).0 == v
            || w.state[r.kept[i].0 as int] == 0) by {
            if i >= next.kept.len() {
                if r.kept[i].0 != v {
                    assert(next.state[r.kept[i].0 as int] == 0);
                }
            } else {
                assert(r.kept[i] == next.kept[i]);
            }
        }
        assert forall|u: int| 0 <= u < n && w.state[u] == 1 implies #[trigger] r.state[u] == 1 by {
            assert(next.state[u] == 1);
        }
        assert forall|u: int| 0 <= u < n && w.state[u] == 2 implies #[trigger] r.state[u] == 2 && r.fin[u] == w.fin[u] by {
            assert(next.state[u] == 2);
        }
        assert forall|u: int| 0 <= u < n && #[trigger] r.state[u] == 1 implies w.state[u] == 1 by {
            assert(next.state[u] == 1);
        }
        assert forall|i: int| 0 <= i < w.kept.len() implies #[trigger] r.kept[i] == w.kept[i] by {
            assert(r.kept[i] == next.kept[i]);
        }
    }
}

proof fn lemma_count_none(n: nat, x: u8, y: u8)
    requires
        x != y,
    ensures
        count_of(Seq::new(n, |i: int| y), x) == 0,
    decreases n,
{
    if n > 0 {
        lemma_count_none((n - 1) as nat, x, y);
        assert(Seq::new(n, |i: int| y).drop_last() =~= Seq::new((n - 1) as nat, |i: int| y));
    }
}

proof fn lemma_walk_from_ok(adj: Seq<Seq<usize>>, n: usize, v: usize, w: Walk)
    requires
        adj_ok(adj, n as nat),
        walk_ok(w, n as nat, None),
        forall|u: int| 0 <= u < n ==> #[trigger] w.state[u] != 1,
        forall|u: int| 0 <= u < v && u < n ==> #[trigger] w.state[u] == 2,
    ensures
        walk_ok(walk_from(adj, n, v, w), n as nat, None),
        forall|u: int| 0 <= u < n ==> #[trigger] walk_from(adj, n, v, w).state[u] == 2,
        walk_from(adj, n, v, w).kept.len() >= w.kept.len(),
        forall|i: int| 0 <= i < w.kept.len() ==> #[trigger] walk_from(adj, n, v, w).kept[i] == w.kept[i],
    decreases n - v,
{
    if v < n {
        let next = if w.state[v as int] == 0 {
            assert forall|i: int| 0 <= i < w.kept.len() implies edge_ok(w, #[trigger] w.kept[i], n as nat, Some(v)) by {
                assert(edge_ok(w, w.kept[i], n as nat, None));
            }
            lemma_count_bound(w.state, 0);
            lemma_visit_ok(adj, n as nat, v, w, n as nat);
            let r = visit(adj, v, w, n as nat);
            assert forall|u: int| 0 <= u < n implies #[trigger] r.state[u] != 1 by {
                if r.state[u] == 1 {
                    assert(w.state[u] == 1);
                }
            }
            assert forall|u: int| 0 <= u < v + 1 && u < n implies #[trigger] r.state[u] == 2 by {
                if u < v {
                    assert(w.state[u] == 2);
                }
            }
            r
        } else {
            assert(w.state[v as int] <= 2);
            w
        };
        lemma_walk_from_ok(adj, n, (v + 1) as usize, next);
    }
}

/// Every kept edge leads to a vertex that finished strictly before its
/// source did.
pub open spec fn descends(kept: Seq<Edge>, fin: Seq<int>) -> bool {
    forall|i: int| 0 <= i < kept.len() ==> fin[(#[trigger] kept[i]).1 as int] < fin[kept[i].0 as int]
}

/// The finishing times of the walk number the vertices below `n`, and the
/// kept edges all descend in them: the kept graph is acyclic.
pub proof fn law_kept_edges_descend(n: usize, edges: Seq<Edge>)
    requires
        forall|i: int| 0 <= i < edges.len() ==> (#[trigger] edges[i]).0 < n && edges[i].1 < n,
    ensures
        descends(spec_break_cycles(n, edges), full_walk(n, edges).fin),
        full_walk(n, edges).fin.len() == n,
        forall|u: int| 0 <= u < n ==> 0 <= #[trigger] full_walk(n, edges).fin[u] < n,
        forall|i: int|
            0 <= i < spec_break_cycles(n, edges).len() ==> (#[trigger] spec_break_cycles(n, edges)[i]).0 < n
                && spec_break_cycles(n, edges)[i].1 < n,
{
    let adj = adjacency(n as nat, edges);
    lemma_adjacency_shape(n as nat, edges);
    let w0 = fresh_walk(n as nat);
    lemma_count_none(n as nat, 2, 0);
    lemma_walk_from_ok(adj, n, 0, w0);
    let r = full_walk(n, edges);
    lemma_count_bound(r.state, 2);
    assert forall|u: int| 0 <= u < n implies 0 <= #[trigger] r.fin[u] < n by {
        assert(r.state[u] == 2);
    }
    assert forall|i: int| 0 <= i < r.kept.len() implies r.fin[(#[trigger] r.kept[i]).1 as int] < r.fin[
        r.kept[i].0 as int] by {
        assert(edge_ok(r, r.kept[i], n as nat, None));
    }
    assert forall|i: int| 0 <= i < r.kept.len() implies (#[trigger] r.kept[i]).0 < n && r.kept[i].1 < n by {
        assert(edge_ok(r, r.kept[i], n as nat, None));
    }
}

/// Following kept edges never returns to the starting vertex.
pub proof fn law_no_kept_cycle(n: usize, edges: Seq<Edge>, path: Seq<usize>)
    requires
        forall|i: int| 0 <= i < edges.len() ==> (#[trigger] edges[i]).0 < n && edges[i].1 < n,
        path.len() >= 2,
        forall|i: int|
            0 <= i < path.len() - 1 ==> spec_break_cycles(n, edges).contains((#[trigger] path[i], path[i + 1])),
    ensures
        path[0] != path[path.len() - 1],
{
    law_kept_edges_descend(n, edges);
    let kept = spec_break_cycles(n, edges);
    let fin = full_walk(n, edges).fin;
    assert forall|i: int| 0 <= i < path.len() - 1 implies fin[path[i + 1] as int] < fin[#[trigger] path[i] as int] by {
        let j = choose|j: int| 0 <= j < kept.len() && kept[j] == (path[i], path[i + 1]);
        assert(fin[kept[j].1 as int] < fin[kept[j].0 as int]);
    }
    lemma_descending_path(path, fin, path.len() - 1);
}

proof fn lemma_descending_path(path: Seq<usize>, fin: Seq<int>, k: int)
    requires
        1 <= k < path.len(),
        forall|i: int| 0 <= i < path.len() - 1 ==> fin[path[i + 1] as int] < fin[#[trigger] path[i] as int],
    ensures
        fin[path[k] as int] < fin[path[0] as int],
    decreases k,
{
    if k > 1 {
        lemma_descending_path(path, fin, k - 1);
        assert(fin[path[k] as int] < fin[path[k - 1] as int]);
    } else {
        assert(fin[path[1] as int] < fin[path[0] as int]);
    }
}

pub open spec fn adj_v(adj: Seq<Vec<usize>>) -> Seq<Seq<usize>> {
    adj.map_values(|a: Vec<usize>| a@)
}

pub open spec fn adj_ok(adj: Seq<Seq<usize>>, n: nat) -> bool {
    &&& adj.len() == n
    &&& forall|a: int, j: int| 0 <= a < n && 0 <= j < adj[a].len() ==> (#[trigger] adj[a][j]) < n
}

fn build_adjacency(n: usize, edges: &Vec<Edge>) -> (r: Vec<Vec<usize>>)
    requires
        forall|i: int| 0 <= i < edges@.len() ==> (#[trigger] edges@[i]).0 < n && edges@[i].1 < n,
    ensures
        adj_v(r@) == adjacency(n as nat, edges@),
{
    let mut r: Vec<Vec<usize>> = Vec::new();
    let mut i: usize = 0;
    while i < n
        invariant
            i <= n,
            r@.len() == i,
            forall|k: int| 0 <= k < i ==> (#[trigger] r@[k])@ == Seq::<usize>::empty(),
        decreases n - i,
    {
        r.push(Vec::new());
        i = i + 1;
    }
    assert(adj_v(r@) =~= adjacency(n as nat, edges@.take(0)));
    let mut j: usize = 0;
    while j < edges.len()
        invariant
            j <= edges@.len(),
            r@.len() == n,
            forall|i: int| 0 <= i < edges@.len() ==> (#[trigger] edges@[i]).0 < n && edges@[i].1 < n,
            adj_v(r@) == adjacency(n as nat, edges@.take(j as int)),
        decreases edges.len() - j,
    {
        let (a, b) = edges[j];
        proof {
            assert(edges@.take(j + 1).drop_last() =~= edges@.take(j as int));
            assert(edges@.take(j + 1).last() == edges@[j as int]);
            lemma_adjacency_shape(n as nat, edges@.take(j as int));
        }
        let ghost before = adj_v(r@);
        let mut row = r[a].clone();
        row.push(b);
        r.set(a, row);
        proof {
            assert(adj_v(r@) =~= before.update(a as int, before[a as int].push(b)));
        }
        j = j + 1;
    }
    assert(edges@.take(edges@.len() as int) =~= edges@);
    r
}

/// The exec side of [`visit`]: same decisions, on a real state and edge
/// list; the proof-only parts of the walk ride along.
fn dfs(
    v: usize,
    adj: &Vec<Vec<usize>>,
    state: &mut Vec<u8>,
    kept: &mut Vec<Edge>,
    Ghost(w): Ghost<Walk>,
    Ghost(fuel): Ghost<nat>,
) -> (r: Ghost<Walk>)
    requires
        adj_ok(adj_v(adj@), old(state)@.len()),
        v < old(state)@.len(),
        old(state)@[v as int] == 0,
        w.state == old(state)@,
        w.kept == old(kept)@,
        fuel >= count_of(old(state)@, 0),
    ensures
        r@ == visit(adj_v(adj@), v, w, fuel),
        final(state)@ == r@.state,
        final(kept)@ == r@.kept,
        final(state)@.len() == old(state)@.len(),
        forall|u: int| 0 <= u < old(state)@.len() && old(state)@[u] != 0 ==> #[trigger] final(state)@[u] != 0,
        forall|u: int| 0 <= u < old(state)@.len() && old(state)@[u] == 1 ==> #[trigger] final(state)@[u] == 1,
        count_of(final(state)@, 0) < count_of(old(state)@, 0),
    decreases fuel,
{
    let ghost av = adj_v(adj@);
    let ghost n = state@.len();
    let ghost start = state@;
    proof {
        lemma_count_update(state@, v as int, 1, 0);
    }
    state.set(v, 1);
    let ghost entered = Walk { state: w.state.update(v as int, 1), ..w };
    let ghost mut cur = entered;
    let ghost f: nat = (fuel - 1) as nat;
    assert(av[v as int] == adj@[v as int]@);
    let mut k: usize = 0;
    while k < adj[v].len()
        invariant
            av == adj_v(adj@),
            adj_ok(av, n),
            v < n,
            state@.len() == n,
            k <= av[v as int].len(),
            av[v as int] == adj@[v as int]@,
            cur.state == state@,
            cur.kept == kept@,
            state@[v as int] == 1,
            scan(av, v, 0, entered, f) == scan(av, v, k as int, cur, f),
            count_of(state@, 0) <= count_of(entered.state, 0),
            count_of(entered.state, 0) + 1 == count_of(start, 0),
            f + 1 == fuel,
            fuel >= count_of(start, 0),
            start.len() == n,
            forall|u: int| 0 <= u < n && start[u] != 0 ==> #[trigger] state@[u] != 0,
            forall|u: int| 0 <= u < n && start[u] == 1 ==> #[trigger] state@[u] == 1,
        decreases adj@[v as int]@.len() - k,
    {
        let t = adj[v][k];
        assert(av[v as int][k as int] == t);
        if state[t] == 0 {
            kept.push((v, t));
            let ghost pushed = Walk { kept: cur.kept.push((v, t)), ..cur };
            let Ghost(after) = dfs(t, adj, state, kept, Ghost(pushed), Ghost(f));
            proof {
                cur = after;
            }
        } else if state[t] == 2 {
            kept.push((v, t));
            proof {
                cur = Walk { kept: cur.kept.push((v, t)), ..cur };
            }
        }
        k = k + 1;
    }
    proof {
        lemma_count_update(state@, v as int, 2, 0);
    }
    state.set(v, 2);
    Ghost(Walk { state: cur.state.update(v as int, 2), fin: cur.fin.update(v as int, cur.clock), clock: cur.clock + 1, ..cur })
}

/// Drop the back edges of a depth-first walk over `n` vertices that
/// starts at each unvisited vertex in index order and follows each
/// vertex's edges in the order given.
pub fn break_cycles(n: usize, edges: &Vec<Edge>) -> (kept: Vec<Edge>)
    requires
        forall|i: int| 0 <= i < edges@.len() ==> (#[trigger] edges@[i]).0 < n && edges@[i].1 < n,
    ensures
        kept@ == spec_break_cycles(n, edges@),
{
    let adj = build_adjacency(n, edges);
    proof {
        lemma_adjacency_shape(n as nat, edges@);
    }
    let ghost av = adj_v(adj@);
    let mut state: Vec<u8> = Vec::new();
    let mut i: usize = 0;
    while i < n
        invariant
            i <= n,
            state@ == Seq::new(i as nat, |k: int| 0u8),
        decreases n - i,
    {
        state.push(0);
        proof {
            assert(state@ =~= Seq::new((i + 1) as nat, |k: int| 0u8));
        }
        i = i + 1;
    }
    let mut kept: Vec<Edge> = Vec::new();
    let ghost mut cur = fresh_walk(n as nat);
    assert(cur.state =~= state@);
    assert(cur.kept =~= kept@);
    let mut v: usize = 0;
    while v < n
        invariant
            v <= n,
            av == adj_v(adj@),
            adj_ok(av, n as nat),
            state@.len() == n,
            cur.state == state@,
            cur.kept == kept@,
            walk_from(av, n, 0, fresh_walk(n as nat)) == walk_from(av, n, v, cur),
        decreases n - v,
    {
        if state[v] == 0 {
            proof {
                lemma_count_bound(state@, 0);
            }
            let Ghost(after) = dfs(v, &adj, &mut state, &mut kept, Ghost(cur), Ghost(n as nat));
            proof {
                cur = after;
            }
        }
        v = v + 1;
    }
    kept
}

/// Every edge in `kept` from index `from` on is in the adjacency.
pub open spec fn kept_in_adj(adj: Seq<Seq<usize>>, kept: Seq<Edge>, from: int) -> bool {
    forall|i: int| from <= i < kept.len() ==> adj[(#[trigger] kept[i]).0 as int].contains(kept[i].1)
}

proof fn lemma_visit_in_adj(adj: Seq<Seq<usize>>, v: usize, w: Walk, fuel: nat)
    ensures
        visit(adj, v, w, fuel).kept.len() >= w.kept.len(),
        forall|i: int| 0 <= i < w.kept.len() ==> #[trigger] visit(adj, v, w, fuel).kept[i] == w.kept[i],
        kept_in_adj(adj, visit(adj, v, w, fuel).kept, w.kept.len() as int),
    decreases fuel, 0int,
{
    if fuel > 0 {
        let entered = Walk { state: w.state.update(v as int, 1), ..w };
        lemma_scan_in_adj(adj, v, 0, entered, (fuel - 1) as nat);
    }
}

proof fn lemma_scan_in_adj(adj: Seq<Seq<usize>>, v: usize, k: int, w: Walk, fuel: nat)
    ensures
        scan(adj, v, k, w, fuel).kept.len() >= w.kept.len(),
        forall|i: int| 0 <= i < w.kept.len() ==> #[trigger] scan(adj, v, k, w, fuel).kept[i] == w.kept[i],
        kept_in_adj(adj, scan(adj, v, k, w, fuel).kept, w.kept.len() as int),
    decreases fuel, adj[v as int].len() - k,
{
    if 0 <= k < adj[v as int].len() {
        let t = adj[v as int][k];
        assert(adj[v as int].contains(t));
        let next = if w.state[t as int] == 0 {
            let pushed = Walk { kept: w.kept.push((v, t)), ..w };
            lemma_visit_in_adj(adj, t, pushed, fuel);
            let r = visit(adj, t, pushed, fuel);
            assert forall|i: int| w.kept.len() <= i < r.kept.len() implies adj[(#[trigger] r.kept[i]).0 as int].contains(
                r.kept[i].1,
            ) by {
                if i == w.kept.len() {
                    assert(r.kept[i] == pushed.kept[i]);
                }
            }
            r
        } else if w.state[t as int] == 2 {
            Walk { kept: w.kept.push((v, t)), ..w }
        } else {
            w
        };
        lemma_scan_in_adj(adj, v, k + 1, next, fuel);
        let r = scan(adj, v, k + 1, next, fuel);
        assert forall|i: int| w.kept.len() <= i < r.kept.len() implies adj[(#[trigger] r.kept[i]).0 as int].contains(
            r.kept[i].1,
        ) by {
            if i < next.kept.len() {
                assert(r.kept[i] == next.kept[i]);
            }
        }
        assert forall|i: int| 0 <= i < w.kept.len() implies #[trigger] r.kept[i] == w.kept[i] by {
            assert(r.kept[i] == next.kept[i]);
        }
    }
}

proof fn lemma_walk_from_in_adj(adj: Seq<Seq<usize>>, n: usize, v: usize, w: Walk)
    ensures
        walk_from(adj, n, v, w).kept.len() >= w.kept.len(),
        forall|i: int| 0 <= i < w.kept.len() ==> #[trigger] walk_from(adj, n, v, w).kept[i] == w.kept[i],
        kept_in_adj(adj, walk_from(adj, n, v, w).kept, w.kept.len() as int),
    decreases n - v,
{
    if v < n {
        let next = if w.state[v as int] == 0 {
            lemma_visit_in_adj(adj, v, w, n as nat);
            visit(adj, v, w, n as nat)
        } else {
            w
        };
        lemma_walk_from_in_adj(adj, n, (v + 1) as usize, next);
        let r = walk_from(adj, n, (v + 1) as usize, next);
        assert forall|i: int| w.kept.len() <= i < r.kept.len() implies adj[(#[trigger] r.kept[i]).0 as int].contains(
            r.kept[i].1,
        ) by {
            if i < next.kept.len() {
                assert(r.kept[i] == next.kept[i]);
            }
        }
        assert forall|i: int| 0 <= i < w.kept.len() implies #[trigger] r.kept[i] == w.kept[i] by {
            assert(r.kept[i] == next.kept[i]);
        }
    }
}

proof fn lemma_adjacency_edges(n: nat, edges: Seq<Edge>, a: int, b: usize)
    requires
        0 <= a < n,
        adjacency(n, edges)[a].contains(b),
    ensures
        edges.contains((a as usize, b)),
    decreases edges.len(),
{
    if edges.len() == 0 {
        assert(adjacency(n, edges)[a] =~= Seq::<usize>::empty());
    } else {
        let d = edges.drop_last();
        let e = edges.last();
        let ad = adjacency(n, d);
        lemma_adjacency_len(n, d);
        if e.0 < n && e.0 as int == a {
            let row = ad[a].push(e.1);
            assert(adjacency(n, edges)[a] == row);
            let j = choose|j: int| 0 <= j < row.len() && row[j] == b;
            if j < ad[a].len() {
                assert(ad[a][j] == b);
                lemma_adjacency_edges(n, d, a, b);
                let q = choose|q: int| 0 <= q < d.len() && d[q] == (a as usize, b);
                assert(edges[q] == d[q]);
            } else {
                assert(edges[edges.len() - 1] == (a as usize, b));
            }
        } else {
            assert(adjacency(n, edges)[a] == ad[a]);
            lemma_adjacency_edges(n, d, a, b);
            let q = choose|q: int| 0 <= q < d.len() && d[q] == (a as usize, b);
            assert(edges[q] == d[q]);
        }
    }
}

proof fn lemma_adjacency_len(n: nat, edges: Seq<Edge>)
    ensures
        adjacency(n, edges).len() == n,
    decreases edges.len(),
{
    if edges.len() > 0 {
        lemma_adjacency_len(n, edges.drop_last());
    }
}

/// The walk keeps only edges it was given.
pub proof fn law_kept_edges_are_edges(n: usize, edges: Seq<Edge>)
    requires
        forall|i: int| 0 <= i < edges.len() ==> (#[trigger] edges[i]).0 < n && edges[i].1 < n,
    ensures
        forall|i: int| 0 <= i < spec_break_cycles(n, edges).len() ==> edges.contains(#[trigger] spec_break_cycles(n, edges)[i]),
{
    let adj = adjacency(n as nat, edges);
    lemma_walk_from_in_adj(adj, n, 0, fresh_walk(n as nat));
    law_kept_edges_descend(n, edges);
    let kept = spec_break_cycles(n, edges);
    assert forall|i: int| 0 <= i < kept.len() implies edges.contains(#[trigger] kept[i]) by {
        lemma_adjacency_edges(n as nat, edges, kept[i].0 as int, kept[i].1);
    }
}

// ---------------------------------------------------------------------------
// Longest-path columns
// ---------------------------------------------------------------------------

/// Every kept edge moves at least one column right.
pub open spec fn layered(kept: Seq<Edge>, col: Seq<usize>) -> bool {
    forall|i: int|
        0 <= i < kept.len() ==> col[(#[trigger] kept[i]).1 as int] >= col[kept[i].0 as int] + 1
}

/// Every vertex past the first column sits just right of some kept
/// predecessor.
pub open spec fn tight(kept: Seq<Edge>, col: Seq<usize>) -> bool {
    forall|v: int|
        0 <= v < col.len() && #[trigger] col[v] > 0 ==> exists|i: int|
            0 <= i < kept.len() && (#[trigger] kept[i]).1 == v && col[v] == col[kept[i].0 as int] + 1
}

/// Weaker than [`tight`]: some kept predecessor is at most one column left.
pub open spec fn bounded_by_pred(kept: Seq<Edge>, col: Seq<usize>) -> bool {
    forall|v: int|
        0 <= v < col.len() && #[trigger] col[v] > 0 ==> exists|i: int|
            0 <= i < kept.len() && (#[trigger] kept[i]).1 == v && col[v] <= col[kept[i].0 as int] + 1
}

/// Room left below each vertex's cap of `n - 1 - fin[v]` columns.
pub open spec fn slack(col: Seq<usize>, fin: Seq<int>, n: int) -> int
    decreases col.len(),
{
    if col.len() == 0 {
        0
    } else {
        slack(col.drop_last(), fin, n) + (n - 1 - fin[col.len() - 1] - col.last())
    }
}

proof fn lemma_slack_nonneg(col: Seq<usize>, fin: Seq<int>, n: int)
    requires
        forall|v: int| 0 <= v < col.len() ==> #[trigger] col[v] <= n - 1 - fin[v],
    ensures
        slack(col, fin, n) >= 0,
    decreases col.len(),
{
    if col.len() > 0 {
        lemma_slack_nonneg(col.drop_last(), fin, n);
    }
}

proof fn lemma_slack_update(col: Seq<usize>, fin: Seq<int>, n: int, b: int, x: usize)
    requires
        0 <= b < col.len(),
    ensures
        slack(col.update(b, x), fin, n) == slack(col, fin, n) - (x - col[b]),
    decreases col.len(),
{
    if b == col.len() - 1 {
        assert(col.update(b, x).drop_last() =~= col.drop_last());
    } else {
        lemma_slack_update(col.drop_last(), fin, n, b, x);
        assert(col.update(b, x).drop_last() =~= col.drop_last().update(b, x));
    }
}

/// Longest-path columns over kept edges that descend in `fin`: raise each
/// edge's target to one right of its source until no edge changes.
fn longest_path_columns(n: usize, kept: &Vec<Edge>, Ghost(fin): Ghost<Seq<int>>) -> (col: Vec<usize>)
    requires
        descends(kept@, fin),
        fin.len() == n,
        forall|u: int| 0 <= u < n ==> 0 <= #[trigger] fin[u] < n,
        forall|i: int| 0 <= i < kept@.len() ==> (#[trigger] kept@[i]).0 < n && kept@[i].1 < n,
    ensures
        col@.len() == n,
        layered(kept@, col@),
        tight(kept@, col@),
{
    let mut col: Vec<usize> = Vec::new();
    let mut i: usize = 0;
    while i < n
        invariant
            i <= n,
            col@.len() == i,
            forall|k: int| 0 <= k < i ==> #[trigger] col@[k] == 0,
        decreases n - i,
    {
        col.push(0);
        i = i + 1;
    }
    let mut changed = true;
    while changed
        invariant
            col@.len() == n,
            descends(kept@, fin),
            fin.len() == n,
            forall|u: int| 0 <= u < n ==> 0 <= #[trigger] fin[u] < n,
            forall|i: int| 0 <= i < kept@.len() ==> (#[trigger] kept@[i]).0 < n && kept@[i].1 < n,
            forall|v: int| 0 <= v < n ==> #[trigger] col@[v] <= n - 1 - fin[v],
            bounded_by_pred(kept@, col@),
            !changed ==> layered(kept@, col@),
        decreases slack(col@, fin, n as int), if changed {
            1int
        } else {
            0int
        },
    {
        let ghost start = col@;
        proof {
            lemma_slack_nonneg(col@, fin, n as int);
        }
        changed = false;
        let mut j: usize = 0;
        while j < kept.len()
            invariant
                col@.len() == n,
                descends(kept@, fin),
                fin.len() == n,
                forall|u: int| 0 <= u < n ==> 0 <= #[trigger] fin[u] < n,
                forall|i: int| 0 <= i < kept@.len() ==> (#[trigger] kept@[i]).0 < n && kept@[i].1 < n,
                forall|v: int| 0 <= v < n ==> #[trigger] col@[v] <= n - 1 - fin[v],
                forall|v: int| 0 <= v < n ==> #[trigger] col@[v] >= start[v],
                bounded_by_pred(kept@, col@),
                j <= kept@.len(),
                start.len() == n,
                changed ==> slack(col@, fin, n as int) < slack(start, fin, n as int),
                !changed ==> col@ == start,
                !changed ==> forall|i: int|
                    0 <= i < j ==> col@[(#[trigger] kept@[i]).1 as int] >= col@[kept@[i].0 as int] + 1,
            decreases kept.len() - j,
        {
            let (a, b) = kept[j];
            proof {
                assert(fin[b as int] < fin[a as int]);
            }
            if col[b] < col[a] + 1 {
                let ghost before = col@;
                let x = col[a] + 1;
                col.set(b, x);
                proof {
                    lemma_slack_update(before, fin, n as int, b as int, x);
                    lemma_slack_nonneg(before, fin, n as int);
                    assert forall|v: int| 0 <= v < n && #[trigger] col@[v] > 0 implies exists|i: int|
                        0 <= i < kept@.len() && (#[trigger] kept@[i]).1 == v && col@[v] <= col@[kept@[i].0 as int]
                            + 1 by {
                        if v == b {
                            assert(kept@[j as int].1 == v);
                        } else {
                            assert(before[v] > 0);
                            let i = choose|i: int|
                                0 <= i < kept@.len() && (#[trigger] kept@[i]).1 == v && before[v] <= before[kept@[
                                    i].0 as int] + 1;
                            assert(col@[kept@[i].0 as int] >= before[kept@[i].0 as int]);
                        }
                    }
                }
                changed = true;
            }
            j = j + 1;
        }
        proof {
            lemma_slack_nonneg(col@, fin, n as int);
        }
    }
    proof {
        assert forall|v: int| 0 <= v < col@.len() && #[trigger] col@[v] > 0 implies exists|i: int|
            0 <= i < kept@.len() && (#[trigger] kept@[i]).1 == v && col@[v] == col@[kept@[i].0 as int] + 1 by {
            let i = choose|i: int|
                0 <= i < kept@.len() && (#[trigger] kept@[i]).1 == v && col@[v] <= col@[kept@[i].0 as int] + 1;
            assert(col@[kept@[i].1 as int] >= col@[kept@[i].0 as int] + 1);
        }
    }
    col
}

/// The kept edges of the cycle-breaking walk, and each vertex's column:
/// the length of the longest kept path into it.
pub fn assign_columns(n: usize, edges: &Vec<Edge>) -> (r: (Vec<Edge>, Vec<usize>))
    requires
        forall|i: int| 0 <= i < edges@.len() ==> (#[trigger] edges@[i]).0 < n && edges@[i].1 < n,
    ensures
        r.0@ == spec_break_cycles(n, edges@),
        r.1@.len() == n,
        layered(r.0@, r.1@),
        tight(r.0@, r.1@),
{
    let kept = break_cycles(n, edges);
    proof {
        law_kept_edges_descend(n, edges@);
    }
    let col = longest_path_columns(n, &kept, Ghost(full_walk(n, edges@).fin));
    (kept, col)
}

/// Over kept edges that descend in some numbering below `n`, a column
/// assignment that is layered and tight is unique: it is the longest-path
/// layering.
pub proof fn law_columns_are_unique(kept: Seq<Edge>, fin: Seq<int>, n: int, c1: Seq<usize>, c2: Seq<usize>)
    requires
        descends(kept, fin),
        fin.len() == n,
        forall|u: int| 0 <= u < n ==> 0 <= #[trigger] fin[u] < n,
        forall|i: int| 0 <= i < kept.len() ==> (#[trigger] kept[i]).0 < n && kept[i].1 < n,
        c1.len() == n,
        c2.len() == n,
        layered(kept, c1),
        tight(kept, c1),
        layered(kept, c2),
        tight(kept, c2),
    ensures
        c1 == c2,
{
    assert forall|v: int| 0 <= v < n implies #[trigger] c1[v] == c2[v] by {
        lemma_columns_agree(kept, fin, n, c1, c2, v);
    }
    assert(c1 =~= c2);
}

proof fn lemma_columns_agree(kept: Seq<Edge>, fin: Seq<int>, n: int, c1: Seq<usize>, c2: Seq<usize>, v: int)
    requires
        descends(kept, fin),
        fin.len() == n,
        forall|u: int| 0 <= u < n ==> 0 <= #[trigger] fin[u] < n,
        forall|i: int| 0 <= i < kept.len() ==> (#[trigger] kept[i]).0 < n && kept[i].1 < n,
        c1.len() == n,
        c2.len() == n,
        layered(kept, c1),
        tight(kept, c1),
        layered(kept, c2),
        tight(kept, c2),
        0 <= v < n,
    ensures
        c1[v] == c2[v],
    decreases n - fin[v],
{
    if c1[v] > 0 {
        let i = choose|i: int| 0 <= i < kept.len() && (#[trigger] kept[i]).1 == v && c1[v] == c1[kept[i].0 as int] + 1;
        assert(fin[kept[i].1 as int] < fin[kept[i].0 as int]);
        lemma_columns_agree(kept, fin, n, c1, c2, kept[i].0 as int);
        assert(c2[kept[i].1 as int] >= c2[kept[i].0 as int] + 1);
    }
    if c2[v] > 0 {
        let i = choose|i: int| 0 <= i < kept.len() && (#[trigger] kept[i]).1 == v && c2[v] == c2[kept[i].0 as int] + 1;
        assert(fin[kept[i].1 as int] < fin[kept[i].0 as int]);
        lemma_columns_agree(kept, fin, n, c1, c2, kept[i].0 as int);
        assert(c1[kept[i].1 as int] >= c1[kept[i].0 as int] + 1);
    }
}

} // verus!
