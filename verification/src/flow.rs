//! Directed connectivity between a module's packing units: each signal net
//! of at most four ports joins every pair of units it touches, directed by
//! which side drives (output-ish pins push flow out of their unit,
//! input-ish pins pull it in), with ties going from the lower unit to the
//! higher. The connecting net of each edge is the first one found.
use vstd::prelude::*;
use vstd::string::StringSliceAdditionalSpecFns;
use crate::bytes::{bytes_eq, copy, lit, spec_starts_with, starts_with};
use crate::layering::Edge;
use crate::model::{NetDoc, PortRef};
use crate::pins::{is_input_pin, is_output_pin, spec_is_input_pin, spec_is_output_pin};

verus! {

/// Nets with more ports than this keep labels and set no direction.
pub const ROUTE_MAX_PORTS: usize = 4;

/// `path` is the kid's own path or lies under it.
pub open spec fn spec_under(kid: Seq<u8>, path: Seq<u8>) -> bool {
    path == kid || (path.len() > kid.len() && spec_starts_with(path, kid) && path[kid.len() as int] == 46u8)
}

/// The first kid (from `from` on) whose path is `path` or a prefix of it.
pub open spec fn owner_from(kids: Seq<Seq<u8>>, path: Seq<u8>, from: int) -> Option<int>
    decreases kids.len() - from,
{
    if from < 0 || from >= kids.len() {
        None
    } else if spec_under(kids[from], path) {
        Some(from)
    } else {
        owner_from(kids, path, from + 1)
    }
}

pub open spec fn spec_owner(kids: Seq<Seq<u8>>, path: Seq<u8>) -> Option<int> {
    owner_from(kids, path, 0)
}

pub open spec fn paths_v(kids: Seq<Vec<u8>>) -> Seq<Seq<u8>> {
    kids.map_values(|k: Vec<u8>| k@)
}

pub fn under_exec(kid: &[u8], path: &[u8]) -> (r: bool)
    ensures
        r == spec_under(kid@, path@),
{
    bytes_eq(path, kid) || (path.len() > kid.len() && starts_with(path, kid) && path[kid.len()] == 46u8)
}

/// The kid owning the instance at `path`: the first whose path is it, or
/// a prefix of it followed by a dot.
pub fn owner(kids: &Vec<Vec<u8>>, path: &[u8]) -> (r: Option<usize>)
    ensures
        match r {
            Some(i) => spec_owner(paths_v(kids@), path@) == Some(i as int) && i < kids@.len(),
            None => spec_owner(paths_v(kids@), path@) is None,
        },
{
    let ghost kv = paths_v(kids@);
    let mut i: usize = 0;
    while i < kids.len()
        invariant
            i <= kids@.len(),
            kv == paths_v(kids@),
            spec_owner(kv, path@) == owner_from(kv, path@, i as int),
        decreases kids.len() - i,
    {
        assert(kv[i as int] == kids@[i as int]@);
        if under_exec(kids[i].as_slice(), path) {
            return Some(i);
        }
        i = i + 1;
    }
    None
}

/// Per unit (in unit order): does any port of the net drive out of it,
/// does any feed into it.
pub type Touch = Seq<(usize, bool, bool)>;

/// `t` with unit `u`'s flags or-ed with `(o, i)`; a new unit goes before
/// the first higher one.
pub open spec fn touch_add(t: Touch, u: usize, o: bool, i: bool) -> Touch
    decreases t.len(),
{
    if t.len() == 0 {
        seq![(u, o, i)]
    } else if t[0].0 == u {
        seq![(u, t[0].1 || o, t[0].2 || i)] + t.drop_first()
    } else if u < t[0].0 {
        seq![(u, o, i)] + t
    } else {
        seq![t[0]] + touch_add(t.drop_first(), u, o, i)
    }
}

pub type PortV = (Seq<u8>, Seq<u8>);

pub open spec fn port_v(p: PortRef) -> PortV {
    (p.component@, p.pin@)
}

pub open spec fn ports_v(ps: Seq<PortRef>) -> Seq<PortV> {
    ps.map_values(|p: PortRef| port_v(p))
}

/// The unit a port's component belongs to, if any.
pub open spec fn port_unit(kids: Seq<Seq<u8>>, unit_of: Seq<Option<usize>>, p: PortV) -> Option<usize> {
    match spec_owner(kids, p.0) {
        Some(k) => unit_of[k],
        None => None,
    }
}

/// The touch of a net's ports.
pub open spec fn net_touch(kids: Seq<Seq<u8>>, unit_of: Seq<Option<usize>>, ports: Seq<PortV>) -> Touch
    decreases ports.len(),
{
    if ports.len() == 0 {
        Seq::empty()
    } else {
        let t = net_touch(kids, unit_of, ports.drop_last());
        let p = ports.last();
        match port_unit(kids, unit_of, p) {
            Some(u) => touch_add(t, u, spec_is_output_pin(p.1), spec_is_input_pin(p.1)),
            None => t,
        }
    }
}

/// The direction between two touched units, `a` listed first: forward
/// unless the other way scores higher.
pub open spec fn oriented(a: (usize, bool, bool), b: (usize, bool, bool)) -> Edge {
    let forward = (if a.1 { 1int } else { 0int }) + (if b.2 { 1int } else { 0int });
    let backward = (if b.1 { 1int } else { 0int }) + (if a.2 { 1int } else { 0int });
    if forward >= backward {
        (a.0, b.0)
    } else {
        (b.0, a.0)
    }
}

/// The edges from entry `i` to each later entry, from `j` on.
pub open spec fn pair_row(t: Touch, i: int, j: int) -> Seq<Edge>
    decreases t.len() - j,
{
    if j < 0 || j >= t.len() {
        Seq::empty()
    } else {
        seq![oriented(t[i], t[j])] + pair_row(t, i, j + 1)
    }
}

/// Every pair of touched entries from `i` on, in order.
pub open spec fn pairs_from(t: Touch, i: int) -> Seq<Edge>
    decreases t.len() - i,
{
    if i < 0 || i >= t.len() {
        Seq::empty()
    } else {
        pair_row(t, i, i + 1) + pairs_from(t, i + 1)
    }
}

pub type NetV = (Seq<u8>, Seq<u8>, Seq<PortV>);

pub open spec fn net_v(n: NetDoc) -> NetV {
    (n.name@, n.kind@, ports_v(n.ports@))
}

pub open spec fn nets_v(ns: Seq<NetDoc>) -> Seq<NetV> {
    ns.map_values(|n: NetDoc| net_v(n))
}

/// A net that sets directions: a signal net of at most four ports.
pub open spec fn directs(n: NetV) -> bool {
    n.1 != "Power".spec_bytes() && n.1 != "Ground".spec_bytes() && n.2.len() <= ROUTE_MAX_PORTS
}

/// The edges a net sets, each with the net's name.
pub open spec fn net_edges(kids: Seq<Seq<u8>>, unit_of: Seq<Option<usize>>, n: NetV) -> Seq<(Edge, Seq<u8>)> {
    if directs(n) {
        pairs_from(net_touch(kids, unit_of, n.2), 0).map_values(|e: Edge| (e, n.0))
    } else {
        Seq::empty()
    }
}

/// Every net's edges, nets in order.
pub open spec fn raw_edges(kids: Seq<Seq<u8>>, unit_of: Seq<Option<usize>>, nets: Seq<NetV>) -> Seq<
    (Edge, Seq<u8>),
>
    decreases nets.len(),
{
    if nets.len() == 0 {
        Seq::empty()
    } else {
        raw_edges(kids, unit_of, nets.drop_last()) + net_edges(kids, unit_of, nets.last())
    }
}

/// Edges in order of source, then target.
pub open spec fn edge_lt(a: Edge, b: Edge) -> bool {
    a.0 < b.0 || (a.0 == b.0 && a.1 < b.1)
}

/// The first name `raw` gives edge `e`.
pub open spec fn first_name(raw: Seq<(Edge, Seq<u8>)>, e: Edge) -> Option<Seq<u8>>
    decreases raw.len(),
{
    if raw.len() == 0 {
        None
    } else if raw[0].0 == e {
        Some(raw[0].1)
    } else {
        first_name(raw.drop_first(), e)
    }
}

/// `r` lists each edge of `raw` once, in edge order, with the name it
/// first has in `raw`.
pub open spec fn sorted_firsts(r: Seq<(Edge, Seq<u8>)>, raw: Seq<(Edge, Seq<u8>)>) -> bool {
    &&& forall|i: int, j: int| 0 <= i < j < r.len() ==> edge_lt(#[trigger] r[i].0, #[trigger] r[j].0)
    &&& forall|i: int| 0 <= i < r.len() ==> first_name(raw, (#[trigger] r[i]).0) == Some(r[i].1)
    &&& forall|e: Edge| first_name(raw, e) is Some ==> exists|i: int| 0 <= i < r.len() && (#[trigger] r[i]).0 == e
}

proof fn lemma_touch_add_at(t: Touch, u: usize, o: bool, i: bool, p: int)
    requires
        0 <= p <= t.len(),
        forall|k: int| 0 <= k < p ==> (#[trigger] t[k]).0 < u,
        p < t.len() ==> t[p].0 >= u,
    ensures
        touch_add(t, u, o, i) == if p < t.len() && t[p].0 == u {
            t.update(p, (u, t[p].1 || o, t[p].2 || i))
        } else {
            t.insert(p, (u, o, i))
        },
    decreases p,
{
    if p == 0 {
        if t.len() > 0 && t[0].0 == u {
            assert(seq![(u, t[0].1 || o, t[0].2 || i)] + t.drop_first() =~= t.update(0, (u, t[0].1 || o, t[0].2 || i)));
        } else if t.len() > 0 {
            assert(seq![(u, o, i)] + t =~= t.insert(0, (u, o, i)));
        } else {
            assert(seq![(u, o, i)] =~= t.insert(0, (u, o, i)));
        }
    } else {
        let d = t.drop_first();
        assert forall|k: int| 0 <= k < p - 1 implies (#[trigger] d[k]).0 < u by {
            assert(d[k] == t[k + 1]);
        }
        lemma_touch_add_at(d, u, o, i, p - 1);
        assert(t[0].0 < u);
        if p < t.len() && t[p].0 == u {
            assert(seq![t[0]] + d.update(p - 1, (u, t[p].1 || o, t[p].2 || i)) =~= t.update(
                p,
                (u, t[p].1 || o, t[p].2 || i),
            ));
        } else {
            assert(seq![t[0]] + d.insert(p - 1, (u, o, i)) =~= t.insert(p, (u, o, i)));
        }
    }
}

fn touch_add_exec(t: &mut Vec<(usize, bool, bool)>, u: usize, o: bool, i: bool)
    ensures
        final(t)@ == touch_add(old(t)@, u, o, i),
{
    let mut p: usize = 0;
    while p < t.len() && t[p].0 < u
        invariant
            p <= t@.len(),
            forall|k: int| 0 <= k < p ==> (#[trigger] t@[k]).0 < u,
        decreases t.len() - p,
    {
        p = p + 1;
    }
    proof {
        lemma_touch_add_at(t@, u, o, i, p as int);
    }
    if p < t.len() && t[p].0 == u {
        let (_, a, b) = t[p];
        t.set(p, (u, a || o, b || i));
    } else {
        t.insert(p, (u, o, i));
    }
}

/// The touch of a net's ports: per unit, whether a port drives out of it
/// or feeds into it.
pub fn touch_of(kids: &Vec<Vec<u8>>, unit_of: &Vec<Option<usize>>, ports: &Vec<PortRef>) -> (t: Vec<(usize, bool, bool)>)
    requires
        unit_of@.len() == kids@.len(),
    ensures
        t@ == net_touch(paths_v(kids@), unit_of@, ports_v(ports@)),
{
    let ghost kv = paths_v(kids@);
    let ghost pv = ports_v(ports@);
    let mut t: Vec<(usize, bool, bool)> = Vec::new();
    let mut j: usize = 0;
    assert(pv.take(0) =~= Seq::<PortV>::empty());
    while j < ports.len()
        invariant
            j <= ports@.len(),
            kv == paths_v(kids@),
            pv == ports_v(ports@),
            unit_of@.len() == kids@.len(),
            t@ == net_touch(kv, unit_of@, pv.take(j as int)),
        decreases ports.len() - j,
    {
        proof {
            assert(pv.take(j + 1).drop_last() =~= pv.take(j as int));
            assert(pv.take(j + 1).last() == port_v(ports@[j as int]));
        }
        let port = &ports[j];
        match owner(kids, port.component.as_slice()) {
            Some(k) => match unit_of[k] {
                Some(u) => {
                    let o = is_output_pin(port.pin.as_slice());
                    let inn = is_input_pin(port.pin.as_slice());
                    touch_add_exec(&mut t, u, o, inn);
                },
                None => {},
            },
            None => {},
        }
        j = j + 1;
    }
    assert(pv.take(pv.len() as int) =~= pv);
    t
}

fn oriented_exec(a: (usize, bool, bool), b: (usize, bool, bool)) -> (r: Edge)
    ensures
        r == oriented(a, b),
{
    let forward: u8 = (if a.1 { 1u8 } else { 0u8 }) + (if b.2 { 1u8 } else { 0u8 });
    let backward: u8 = (if b.1 { 1u8 } else { 0u8 }) + (if a.2 { 1u8 } else { 0u8 });
    if forward >= backward {
        (a.0, b.0)
    } else {
        (b.0, a.0)
    }
}

/// Every pair of touched units, each directed.
pub fn touch_pairs(t: &Vec<(usize, bool, bool)>) -> (r: Vec<Edge>)
    ensures
        r@ == pairs_from(t@, 0),
{
    let mut r: Vec<Edge> = Vec::new();
    let mut i: usize = 0;
    while i < t.len()
        invariant
            i <= t@.len(),
            r@ + pairs_from(t@, i as int) == pairs_from(t@, 0),
        decreases t.len() - i,
    {
        let mut j: usize = i + 1;
        while j < t.len()
            invariant
                i < t@.len(),
                i + 1 <= j <= t@.len(),
                r@ + pair_row(t@, i as int, j as int) + pairs_from(t@, i + 1) == pairs_from(t@, 0),
            decreases t.len() - j,
        {
            let e = oriented_exec(t[i], t[j]);
            let ghost before = r@;
            r.push(e);
            proof {
                assert(pair_row(t@, i as int, j as int) == seq![e] + pair_row(t@, i as int, j + 1));
                assert(before + pair_row(t@, i as int, j as int) =~= r@ + pair_row(t@, i as int, j + 1));
            }
            j = j + 1;
        }
        proof {
            assert(pair_row(t@, i as int, j as int) =~= Seq::<Edge>::empty());
            assert(r@ + pair_row(t@, i as int, j as int) =~= r@);
        }
        i = i + 1;
    }
    proof {
        assert(pairs_from(t@, i as int) =~= Seq::<Edge>::empty());
        assert(r@ + pairs_from(t@, i as int) =~= r@);
    }
    r
}

pub open spec fn named_v(r: Seq<(Edge, Vec<u8>)>) -> Seq<(Edge, Seq<u8>)> {
    r.map_values(|x: (Edge, Vec<u8>)| (x.0, x.1@))
}

proof fn lemma_first_name_push(raw: Seq<(Edge, Seq<u8>)>, y: (Edge, Seq<u8>), x: Edge)
    ensures
        first_name(raw.push(y), x) == match first_name(raw, x) {
            Some(n) => Some(n),
            None => if y.0 == x {
                Some(y.1)
            } else {
                None
            },
        },
    decreases raw.len(),
{
    if raw.len() > 0 {
        lemma_first_name_push(raw.drop_first(), y, x);
        assert(raw.push(y).drop_first() =~= raw.drop_first().push(y));
        assert(raw.push(y)[0] == raw[0]);
    } else {
        let one = raw.push(y);
        assert(one.drop_first() =~= Seq::<(Edge, Seq<u8>)>::empty());
        assert(one[0] == y);
        assert(first_name(one.drop_first(), x) is None);
    }
}

fn edge_lt_exec(a: Edge, b: Edge) -> (r: bool)
    ensures
        r == edge_lt(a, b),
{
    a.0 < b.0 || (a.0 == b.0 && a.1 < b.1)
}

fn insert_first(r: &mut Vec<(Edge, Vec<u8>)>, e: Edge, name: &Vec<u8>, Ghost(raw): Ghost<Seq<(Edge, Seq<u8>)>>)
    requires
        sorted_firsts(named_v(old(r)@), raw),
    ensures
        sorted_firsts(named_v(final(r)@), raw.push((e, name@))),
{
    let ghost rv = named_v(r@);
    let ghost raw2 = raw.push((e, name@));
    let mut p: usize = 0;
    while p < r.len() && edge_lt_exec(r[p].0, e)
        invariant
            p <= r@.len(),
            rv == named_v(r@),
            forall|k: int| 0 <= k < p ==> edge_lt(#[trigger] rv[k].0, e),
        decreases r.len() - p,
    {
        p = p + 1;
    }
    proof {
        assert forall|x: Edge| true implies first_name(raw2, x) == match first_name(raw, x) {
            Some(n) => Some(n),
            None => if e == x {
                Some(name@)
            } else {
                None
            },
        } by {
            lemma_first_name_push(raw, (e, name@), x);
        }
    }
    if p < r.len() && r[p].0.0 == e.0 && r[p].0.1 == e.1 {
        proof {
            assert forall|i: int| 0 <= i < rv.len() implies first_name(raw2, (#[trigger] rv[i]).0) == Some(rv[i].1) by {
                assert(first_name(raw, rv[i].0) == Some(rv[i].1));
            }
            assert forall|x: Edge| first_name(raw2, x) is Some implies exists|i: int|
                0 <= i < rv.len() && (#[trigger] rv[i]).0 == x by {
                if first_name(raw, x) is None {
                    assert(rv[p as int].0 == x);
                }
            }
        }
        return;
    }
    proof {
        if p < rv.len() {
            assert(edge_lt(e, rv[p as int].0));
        }
        assert forall|k: int| p <= k < rv.len() implies edge_lt(e, #[trigger] rv[k].0) by {
            if k > p {
                assert(edge_lt(rv[p as int].0, rv[k].0));
            }
        }
        if first_name(raw, e) is Some {
            let i = choose|i: int| 0 <= i < rv.len() && (#[trigger] rv[i]).0 == e;
            if i < p {
                assert(edge_lt(rv[i].0, e));
            } else {
                assert(edge_lt(e, rv[i].0));
            }
        }
    }
    let entry = (e, copy(name));
    r.insert(p, entry);
    proof {
        let rv2 = named_v(r@);
        assert(rv2 =~= rv.insert(p as int, (e, name@)));
        assert forall|i: int, j: int| 0 <= i < j < rv2.len() implies edge_lt(#[trigger] rv2[i].0, #[trigger] rv2[j].0) by {
            if j < p {
            } else if j == p {
            } else if i < p {
                assert(edge_lt(rv[i].0, e));
                assert(edge_lt(e, rv[j - 1].0));
            } else if i == p {
                assert(edge_lt(e, rv[j - 1].0));
            } else {
                assert(edge_lt(rv[i - 1].0, rv[j - 1].0));
            }
        }
        assert forall|i: int| 0 <= i < rv2.len() implies first_name(raw2, (#[trigger] rv2[i]).0) == Some(rv2[i].1) by {
            if i < p {
                assert(rv2[i] == rv[i]);
                assert(first_name(raw, rv[i].0) == Some(rv[i].1));
            } else if i > p {
                assert(rv2[i] == rv[i - 1]);
                assert(first_name(raw, rv[i - 1].0) == Some(rv[i - 1].1));
            }
        }
        assert forall|x: Edge| first_name(raw2, x) is Some implies exists|i: int|
            0 <= i < rv2.len() && (#[trigger] rv2[i]).0 == x by {
            if first_name(raw, x) is Some {
                let i = choose|i: int| 0 <= i < rv.len() && (#[trigger] rv[i]).0 == x;
                if i < p {
                    assert(rv2[i] == rv[i]);
                } else {
                    assert(rv2[i + 1] == rv[i]);
                }
            } else {
                assert(rv2[p as int].0 == x);
            }
        }
    }
}

fn is_kind(k: &Vec<u8>, s: &str) -> (r: bool)
    ensures
        r == (k@ == s.spec_bytes()),
{
    bytes_eq(k.as_slice(), lit(s).as_slice())
}

/// The directed edges between units, each once, in edge order, with the
/// name of the first net (in net order) that sets it.
pub fn flow_edges(kids: &Vec<Vec<u8>>, unit_of: &Vec<Option<usize>>, nets: &Vec<NetDoc>) -> (r: Vec<(Edge, Vec<u8>)>)
    requires
        unit_of@.len() == kids@.len(),
    ensures
        sorted_firsts(named_v(r@), raw_edges(paths_v(kids@), unit_of@, nets_v(nets@))),
{
    let ghost kv = paths_v(kids@);
    let ghost nv = nets_v(nets@);
    let mut r: Vec<(Edge, Vec<u8>)> = Vec::new();
    let mut k: usize = 0;
    assert(nv.take(0) =~= Seq::<NetV>::empty());
    while k < nets.len()
        invariant
            k <= nets@.len(),
            kv == paths_v(kids@),
            nv == nets_v(nets@),
            unit_of@.len() == kids@.len(),
            sorted_firsts(named_v(r@), raw_edges(kv, unit_of@, nv.take(k as int))),
        decreases nets.len() - k,
    {
        let ghost before = raw_edges(kv, unit_of@, nv.take(k as int));
        proof {
            assert(nv.take(k + 1).drop_last() =~= nv.take(k as int));
            assert(nv.take(k + 1).last() == net_v(nets@[k as int]));
        }
        let net = &nets[k];
        if !is_kind(&net.kind, "Power") && !is_kind(&net.kind, "Ground") && net.ports.len() <= ROUTE_MAX_PORTS {
            let t = touch_of(kids, unit_of, &net.ports);
            let ps = touch_pairs(&t);
            let ghost name = net.name@;
            let mut m: usize = 0;
            assert(ps@.take(0).map_values(|e: Edge| (e, name)) =~= Seq::<(Edge, Seq<u8>)>::empty());
            assert(before + Seq::<(Edge, Seq<u8>)>::empty() =~= before);
            while m < ps.len()
                invariant
                    m <= ps@.len(),
                    sorted_firsts(named_v(r@), before + ps@.take(m as int).map_values(|e: Edge| (e, name))),
                    name == net.name@,
                decreases ps.len() - m,
            {
                let ghost raw = before + ps@.take(m as int).map_values(|e: Edge| (e, name));
                insert_first(&mut r, ps[m], &net.name, Ghost(raw));
                proof {
                    assert(raw.push((ps@[m as int], name)) =~= before + ps@.take(m + 1).map_values(
                        |e: Edge| (e, name),
                    ));
                }
                m = m + 1;
            }
            proof {
                assert(ps@.take(m as int) =~= ps@);
            }
        } else {
            proof {
                assert(before + Seq::<(Edge, Seq<u8>)>::empty() =~= before);
            }
        }
        k = k + 1;
    }
    assert(nv.take(nv.len() as int) =~= nv);
    r
}

pub(crate) proof fn lemma_owner_from(kids: Seq<Seq<u8>>, path: Seq<u8>, from: int)
    requires
        from >= 0,
    ensures
        owner_from(kids, path, from) matches Some(k) ==> from <= k < kids.len(),
    decreases kids.len() - from,
{
    if from < kids.len() && !spec_under(kids[from], path) {
        lemma_owner_from(kids, path, from + 1);
    }
}

/// Every unit index a kid maps to is below `nu`.
pub open spec fn units_below(unit_of: Seq<Option<usize>>, nu: usize) -> bool {
    forall|k: int| 0 <= k < unit_of.len() ==> (#[trigger] unit_of[k] matches Some(u) ==> u < nu)
}

proof fn lemma_touch_add_below(t: Touch, u: usize, o: bool, i: bool, nu: usize)
    requires
        u < nu,
        forall|k: int| 0 <= k < t.len() ==> (#[trigger] t[k]).0 < nu,
    ensures
        forall|k: int| 0 <= k < touch_add(t, u, o, i).len() ==> (#[trigger] touch_add(t, u, o, i)[k]).0 < nu,
    decreases t.len(),
{
    if t.len() > 0 && t[0].0 != u && !(u < t[0].0) {
        let d = t.drop_first();
        assert forall|k: int| 0 <= k < d.len() implies (#[trigger] d[k]).0 < nu by {
            assert(d[k] == t[k + 1]);
        }
        lemma_touch_add_below(d, u, o, i, nu);
        let r = touch_add(t, u, o, i);
        assert forall|k: int| 0 <= k < r.len() implies (#[trigger] r[k]).0 < nu by {
            if k > 0 {
                assert(r[k] == touch_add(d, u, o, i)[k - 1]);
            }
        }
    } else if t.len() > 0 && t[0].0 == u {
        let r = touch_add(t, u, o, i);
        assert forall|k: int| 0 <= k < r.len() implies (#[trigger] r[k]).0 < nu by {
            if k > 0 {
                assert(r[k] == t[k]);
            }
        }
    } else if t.len() > 0 {
        let r = touch_add(t, u, o, i);
        assert forall|k: int| 0 <= k < r.len() implies (#[trigger] r[k]).0 < nu by {
            if k > 0 {
                assert(r[k] == t[k - 1]);
            }
        }
    }
}

proof fn lemma_net_touch_below(kids: Seq<Seq<u8>>, unit_of: Seq<Option<usize>>, ports: Seq<PortV>, nu: usize)
    requires
        unit_of.len() == kids.len(),
        units_below(unit_of, nu),
    ensures
        forall|k: int| 0 <= k < net_touch(kids, unit_of, ports).len() ==> (#[trigger] net_touch(kids, unit_of, ports)[k]).0 < nu,
    decreases ports.len(),
{
    if ports.len() > 0 {
        lemma_net_touch_below(kids, unit_of, ports.drop_last(), nu);
        let p = ports.last();
        lemma_owner_from(kids, p.0, 0);
        match port_unit(kids, unit_of, p) {
            Some(u) => {
                let k = spec_owner(kids, p.0)->0;
                assert(unit_of[k] matches Some(x) ==> x < nu);
                lemma_touch_add_below(net_touch(kids, unit_of, ports.drop_last()), u, spec_is_output_pin(p.1), spec_is_input_pin(p.1), nu);
            },
            None => {},
        }
    }
}

proof fn lemma_pairs_below(t: Touch, i: int, nu: usize)
    requires
        forall|k: int| 0 <= k < t.len() ==> (#[trigger] t[k]).0 < nu,
    ensures
        forall|k: int| 0 <= k < pairs_from(t, i).len() ==> (#[trigger] pairs_from(t, i)[k]).0 < nu && pairs_from(t, i)[k].1 < nu,
    decreases t.len() - i,
{
    if 0 <= i < t.len() {
        lemma_pairs_below(t, i + 1, nu);
        lemma_row_below(t, i, i + 1, nu);
        let r = pair_row(t, i, i + 1);
        let q = pairs_from(t, i + 1);
        assert forall|k: int| 0 <= k < (r + q).len() implies (#[trigger] (r + q)[k]).0 < nu && (r + q)[k].1 < nu by {
            if k < r.len() {
                assert((r + q)[k] == r[k]);
            } else {
                assert((r + q)[k] == q[k - r.len()]);
            }
        }
    }
}

proof fn lemma_row_below(t: Touch, i: int, j: int, nu: usize)
    requires
        0 <= i < t.len(),
        forall|k: int| 0 <= k < t.len() ==> (#[trigger] t[k]).0 < nu,
    ensures
        forall|k: int| 0 <= k < pair_row(t, i, j).len() ==> (#[trigger] pair_row(t, i, j)[k]).0 < nu && pair_row(t, i, j)[k].1 < nu,
    decreases t.len() - j,
{
    if 0 <= j < t.len() {
        lemma_row_below(t, i, j + 1, nu);
        let r = pair_row(t, i, j);
        assert(t[i].0 < nu && t[j].0 < nu);
        assert forall|k: int| 0 <= k < r.len() implies (#[trigger] r[k]).0 < nu && r[k].1 < nu by {
            if k > 0 {
                assert(r[k] == pair_row(t, i, j + 1)[k - 1]);
            }
        }
    }
}

proof fn lemma_raw_below(kids: Seq<Seq<u8>>, unit_of: Seq<Option<usize>>, nets: Seq<NetV>, nu: usize)
    requires
        unit_of.len() == kids.len(),
        units_below(unit_of, nu),
    ensures
        forall|k: int| 0 <= k < raw_edges(kids, unit_of, nets).len() ==> (#[trigger] raw_edges(kids, unit_of, nets)[k]).0.0 < nu
            && raw_edges(kids, unit_of, nets)[k].0.1 < nu,
    decreases nets.len(),
{
    if nets.len() > 0 {
        lemma_raw_below(kids, unit_of, nets.drop_last(), nu);
        let n = nets.last();
        let a = raw_edges(kids, unit_of, nets.drop_last());
        let b = net_edges(kids, unit_of, n);
        if directs(n) {
            lemma_net_touch_below(kids, unit_of, n.2, nu);
            lemma_pairs_below(net_touch(kids, unit_of, n.2), 0, nu);
        }
        assert forall|k: int| 0 <= k < (a + b).len() implies (#[trigger] (a + b)[k]).0.0 < nu && (a + b)[k].0.1 < nu by {
            if k < a.len() {
                assert((a + b)[k] == a[k]);
            } else {
                assert((a + b)[k] == b[k - a.len()]);
            }
        }
    }
}

proof fn lemma_first_name_found(raw: Seq<(Edge, Seq<u8>)>, e: Edge)
    requires
        first_name(raw, e) is Some,
    ensures
        exists|i: int| 0 <= i < raw.len() && (#[trigger] raw[i]).0 == e,
    decreases raw.len(),
{
    if raw[0].0 != e {
        lemma_first_name_found(raw.drop_first(), e);
        let i = choose|i: int| 0 <= i < raw.drop_first().len() && (#[trigger] raw.drop_first()[i]).0 == e;
        assert(raw[i + 1] == raw.drop_first()[i]);
    } else {
        assert(raw[0].0 == e);
    }
}

/// The edges alone, each endpoint below `nu` when every unit is.
pub fn edges_only(kids: &Vec<Vec<u8>>, unit_of: &Vec<Option<usize>>, nets: &Vec<NetDoc>, nu: usize, named: &Vec<(Edge, Vec<u8>)>) -> (r: Vec<Edge>)
    requires
        unit_of@.len() == kids@.len(),
        units_below(unit_of@, nu),
        sorted_firsts(named_v(named@), raw_edges(paths_v(kids@), unit_of@, nets_v(nets@))),
    ensures
        r@ == named@.map_values(|x: (Edge, Vec<u8>)| x.0),
        forall|i: int| 0 <= i < r@.len() ==> (#[trigger] r@[i]).0 < nu && r@[i].1 < nu,
{
    let ghost raw = raw_edges(paths_v(kids@), unit_of@, nets_v(nets@));
    proof {
        lemma_raw_below(paths_v(kids@), unit_of@, nets_v(nets@), nu);
    }
    let mut r: Vec<Edge> = Vec::new();
    let mut k: usize = 0;
    while k < named.len()
        invariant
            k <= named@.len(),
            sorted_firsts(named_v(named@), raw),
            forall|j: int| 0 <= j < raw.len() ==> (#[trigger] raw[j]).0.0 < nu && raw[j].0.1 < nu,
            r@ == named@.take(k as int).map_values(|x: (Edge, Vec<u8>)| x.0),
            forall|i: int| 0 <= i < r@.len() ==> (#[trigger] r@[i]).0 < nu && r@[i].1 < nu,
        decreases named.len() - k,
    {
        let e = named[k].0;
        proof {
            assert(named_v(named@)[k as int].0 == e);
            assert(first_name(raw, e) is Some);
            lemma_first_name_found(raw, e);
        }
        let ghost before = r@;
        r.push(e);
        proof {
            assert(r@ =~= named@.take(k + 1).map_values(|x: (Edge, Vec<u8>)| x.0));
        }
        k = k + 1;
    }
    proof {
        assert(named@.take(k as int) =~= named@);
    }
    r
}

} // verus!
