//! Assembling the schematic document from what the evaluator reports:
//! instance paths rooted at `root`, each net's ports resolved to
//! (component, pin) and sorted, each component's pins with the net each
//! is on, and the maps keyed by path, child name and refdes. Asking the
//! evaluator is the caller's; these are the rules of the document.
use vstd::prelude::*;
use vstd::string::StringSliceAdditionalSpecFns;
use crate::assoc::{kv_insert, kv_view, law_sorted_insert, lemma_insert_entries, lemma_lt_irreflexive, sorted_keys};
use crate::bytes::{
    bytes_eq, bytes_lt, copy, find, lemma_find_from, lit, lt_bytes, slice_copy, spec_find, spec_starts_with,
    starts_with,
};
use crate::editability::ov;
use crate::flow::{port_v, ports_v, PortV};
use crate::model::{InstanceDoc, InstanceKind, NetDoc, PinDoc, PortRef, SchematicDoc};
use crate::pins::{pin_v, pins_v, PinV};
use crate::probe::assoc_insert;
use crate::text::push_all;

verus! {

/// Segments joined by dots.
pub open spec fn join_dots(segs: Seq<Seq<u8>>) -> Seq<u8>
    decreases segs.len(),
{
    if segs.len() == 0 {
        Seq::empty()
    } else if segs.len() == 1 {
        segs[0]
    } else {
        join_dots(segs.drop_last()) + ".".spec_bytes() + segs.last()
    }
}

/// An instance path as a dotted path from `root`.
pub open spec fn dotted(segs: Seq<Seq<u8>>) -> Seq<u8> {
    if segs.len() == 0 {
        "root".spec_bytes()
    } else {
        "root.".spec_bytes() + join_dots(segs)
    }
}

pub open spec fn segs_v(segs: Seq<Vec<u8>>) -> Seq<Seq<u8>> {
    segs.map_values(|s: Vec<u8>| s@)
}

/// The dotted path of an instance given by its segments.
pub fn dotted_path(segs: &Vec<Vec<u8>>) -> (r: Vec<u8>)
    ensures
        r@ == dotted(segs_v(segs@)),
{
    let ghost sv = segs_v(segs@);
    if segs.len() == 0 {
        return lit("root");
    }
    let mut out = copy(&segs[0]);
    assert(sv.take(1).drop_last() =~= Seq::<Seq<u8>>::empty());
    assert(join_dots(sv.take(1)) == sv[0]);
    let mut i: usize = 1;
    while i < segs.len()
        invariant
            1 <= i <= segs@.len(),
            sv == segs_v(segs@),
            out@ == join_dots(sv.take(i as int)),
        decreases segs.len() - i,
    {
        proof {
            assert(sv.take(i + 1).drop_last() =~= sv.take(i as int));
            assert(sv.take(i + 1).last() == segs@[i as int]@);
        }
        push_all(&mut out, lit(".").as_slice());
        push_all(&mut out, segs[i].as_slice());
        i = i + 1;
    }
    assert(sv.take(i as int) =~= sv);
    let mut r = lit("root.");
    push_all(&mut r, out.as_slice());
    r
}

/// A net port as reported: the (component segments, pin) the evaluator
/// resolved it to, if it did, and its raw instance path.
pub struct RawPort {
    pub resolved: Option<(Vec<Vec<u8>>, Vec<u8>)>,
    pub path: Vec<Vec<u8>>,
}

pub type RawPortV = (Option<(Seq<Seq<u8>>, Seq<u8>)>, Seq<Seq<u8>>);

pub open spec fn raw_port_v(p: RawPort) -> RawPortV {
    (
        match p.resolved {
            Some(x) => Some((segs_v(x.0@), x.1@)),
            None => None,
        },
        segs_v(p.path@),
    )
}

/// A port's (component path, pin): as resolved, else the raw path's last
/// segment is the pin and the rest the component.
pub open spec fn spec_port_ref(p: RawPortV) -> PortV {
    match p.0 {
        Some((s, pin)) => (dotted(s), pin),
        None => if p.1.len() == 0 {
            (dotted(p.1), Seq::empty())
        } else {
            (dotted(p.1.drop_last()), p.1.last())
        },
    }
}

fn port_ref(p: &RawPort) -> (r: PortRef)
    ensures
        port_v(r) == spec_port_ref(raw_port_v(*p)),
{
    match &p.resolved {
        Some((s, pin)) => PortRef { component: dotted_path(s), pin: copy(pin) },
        None => {
            if p.path.len() == 0 {
                PortRef { component: dotted_path(&p.path), pin: Vec::new() }
            } else {
                let mut parent: Vec<Vec<u8>> = Vec::new();
                let mut i: usize = 0;
                let n = p.path.len() - 1;
                while i < n
                    invariant
                        i <= n,
                        n + 1 == p.path@.len(),
                        segs_v(parent@) == segs_v(p.path@).take(i as int),
                    decreases n - i,
                {
                    let ghost before = parent@;
                    let c = copy(&p.path[i]);
                    parent.push(c);
                    proof {
                        assert(segs_v(parent@) =~= segs_v(before).push(c@));
                        assert(segs_v(parent@) =~= segs_v(p.path@).take(i + 1));
                    }
                    i = i + 1;
                }
                proof {
                    assert(segs_v(p.path@).take(n as int) =~= segs_v(p.path@).drop_last());
                }
                PortRef { component: dotted_path(&parent), pin: copy(&p.path[n]) }
            }
        },
    }
}

/// Where a stable insertion puts `x` into `sorted`: after everything it
/// does not sort strictly before.
pub open spec fn ins_at<T>(sorted: Seq<T>, x: T, lt: spec_fn(T, T) -> bool) -> int
    decreases sorted.len(),
{
    if sorted.len() == 0 {
        0
    } else if lt(x, sorted.last()) {
        ins_at(sorted.drop_last(), x, lt)
    } else {
        sorted.len() as int
    }
}

/// The stable sort of `s` by `lt`.
pub open spec fn stable_sort<T>(s: Seq<T>, lt: spec_fn(T, T) -> bool) -> Seq<T>
    decreases s.len(),
{
    if s.len() == 0 {
        s
    } else {
        let r = stable_sort(s.drop_last(), lt);
        r.insert(ins_at(r, s.last(), lt), s.last())
    }
}

proof fn lemma_ins_at_bound<T>(sorted: Seq<T>, x: T, lt: spec_fn(T, T) -> bool)
    ensures
        0 <= ins_at(sorted, x, lt) <= sorted.len(),
    decreases sorted.len(),
{
    if sorted.len() > 0 {
        lemma_ins_at_bound(sorted.drop_last(), x, lt);
    }
}

/// Ports in order of component, then pin.
pub open spec fn port_lt(a: PortV, b: PortV) -> bool {
    bytes_lt(a.0, b.0) || (a.0 == b.0 && bytes_lt(a.1, b.1))
}

/// Pins in order of name.
pub open spec fn pin_lt(a: PinV, b: PinV) -> bool {
    bytes_lt(a.0, b.0)
}

fn port_lt_exec(a: &PortRef, b: &PortRef) -> (r: bool)
    ensures
        r == port_lt(port_v(*a), port_v(*b)),
{
    lt_bytes(a.component.as_slice(), b.component.as_slice()) || (bytes_eq(
        a.component.as_slice(),
        b.component.as_slice(),
    ) && lt_bytes(a.pin.as_slice(), b.pin.as_slice()))
}

/// Sort ports by component, then pin, keeping equal ones in order.
fn sort_ports(s: Vec<PortRef>) -> (r: Vec<PortRef>)
    ensures
        ports_v(r@) == stable_sort(ports_v(s@), |a: PortV, b: PortV| port_lt(a, b)),
{
    let ghost lt = |a: PortV, b: PortV| port_lt(a, b);
    let ghost sv = ports_v(s@);
    let mut out: Vec<PortRef> = Vec::new();
    let rest = s;
    let mut i: usize = 0;
    let n = rest.len();
    assert(sv.take(0) =~= Seq::<PortV>::empty());
    assert(ports_v(out@) =~= Seq::<PortV>::empty());
    while i < n
        invariant
            i <= n,
            n == rest@.len(),
            sv == ports_v(rest@),
            ports_v(out@) == stable_sort(sv.take(i as int), lt),
            lt == (|a: PortV, b: PortV| port_lt(a, b)),
        decreases n - i,
    {
        proof {
            assert(sv.take(i + 1).drop_last() =~= sv.take(i as int));
            assert(sv.take(i + 1).last() == port_v(rest@[i as int]));
        }
        let x = PortRef { component: copy(&rest[i].component), pin: copy(&rest[i].pin) };
        let ghost xv = port_v(x);
        let ghost ov_ = ports_v(out@);
        let mut k: usize = out.len();
        assert(ov_.take(k as int) =~= ov_);
        while k > 0 && port_lt_exec(&x, &out[k - 1])
            invariant
                k <= out@.len(),
                ov_ == ports_v(out@),
                xv == port_v(x),
                lt == (|a: PortV, b: PortV| port_lt(a, b)),
                ins_at(ov_, xv, lt) == ins_at(ov_.take(k as int), xv, lt),
            decreases k,
        {
            proof {
                assert(ov_.take(k as int).drop_last() =~= ov_.take(k - 1));
                assert(ov_.take(k as int).last() == ov_[k - 1]);
                assert(lt(xv, ov_[k - 1]) == port_lt(xv, ov_[k - 1]));
            }
            k = k - 1;
        }
        proof {
            if k > 0 {
                assert(ov_.take(k as int).last() == ov_[k - 1]);
                assert(lt(xv, ov_[k - 1]) == port_lt(xv, ov_[k - 1]));
            }
            lemma_ins_at_bound(ov_, xv, lt);
        }
        out.insert(k, x);
        proof {
            assert(ports_v(out@) =~= ov_.insert(k as int, xv));
        }
        i = i + 1;
    }
    proof {
        assert(sv.take(n as int) =~= sv);
    }
    out
}

fn pin_lt_exec(a: &PinDoc, b: &PinDoc) -> (r: bool)
    ensures
        r == pin_lt(pin_v(*a), pin_v(*b)),
{
    lt_bytes(a.name.as_slice(), b.name.as_slice())
}

/// Sort pins by name, keeping equal ones in order.
fn sort_pins(s: Vec<PinDoc>) -> (r: Vec<PinDoc>)
    ensures
        pins_v(r@) == stable_sort(pins_v(s@), |a: PinV, b: PinV| pin_lt(a, b)),
{
    let ghost lt = |a: PinV, b: PinV| pin_lt(a, b);
    let ghost sv = pins_v(s@);
    let mut out: Vec<PinDoc> = Vec::new();
    let rest = s;
    let mut i: usize = 0;
    let n = rest.len();
    assert(sv.take(0) =~= Seq::<PinV>::empty());
    assert(pins_v(out@) =~= Seq::<PinV>::empty());
    while i < n
        invariant
            i <= n,
            n == rest@.len(),
            sv == pins_v(rest@),
            pins_v(out@) == stable_sort(sv.take(i as int), lt),
            lt == (|a: PinV, b: PinV| pin_lt(a, b)),
        decreases n - i,
    {
        proof {
            assert(sv.take(i + 1).drop_last() =~= sv.take(i as int));
            assert(sv.take(i + 1).last() == pin_v(rest@[i as int]));
        }
        let x = PinDoc {
            name: copy(&rest[i].name),
            net: match &rest[i].net {
                Some(v) => Some(copy(v)),
                None => None,
            },
        };
        let ghost xv = pin_v(x);
        let ghost ov_ = pins_v(out@);
        let mut k: usize = out.len();
        assert(ov_.take(k as int) =~= ov_);
        while k > 0 && pin_lt_exec(&x, &out[k - 1])
            invariant
                k <= out@.len(),
                ov_ == pins_v(out@),
                xv == pin_v(x),
                lt == (|a: PinV, b: PinV| pin_lt(a, b)),
                ins_at(ov_, xv, lt) == ins_at(ov_.take(k as int), xv, lt),
            decreases k,
        {
            proof {
                assert(ov_.take(k as int).drop_last() =~= ov_.take(k - 1));
                assert(ov_.take(k as int).last() == ov_[k - 1]);
                assert(lt(xv, ov_[k - 1]) == pin_lt(xv, ov_[k - 1]));
            }
            k = k - 1;
        }
        proof {
            if k > 0 {
                assert(ov_.take(k as int).last() == ov_[k - 1]);
                assert(lt(xv, ov_[k - 1]) == pin_lt(xv, ov_[k - 1]));
            }
            lemma_ins_at_bound(ov_, xv, lt);
        }
        out.insert(k, x);
        proof {
            assert(pins_v(out@) =~= ov_.insert(k as int, xv));
        }
        i = i + 1;
    }
    proof {
        assert(sv.take(n as int) =~= sv);
    }
    out
}

/// A net as reported: its name, kind and ports.
pub struct RawNet {
    pub name: Vec<u8>,
    pub kind: Vec<u8>,
    pub ports: Vec<RawPort>,
}

pub type RawNetV = (Seq<u8>, Seq<u8>, Seq<RawPortV>);

pub open spec fn raw_net_v(n: RawNet) -> RawNetV {
    (n.name@, n.kind@, n.ports@.map_values(|p: RawPort| raw_port_v(p)))
}

pub open spec fn raw_nets_v(ns: Seq<RawNet>) -> Seq<RawNetV> {
    ns.map_values(|n: RawNet| raw_net_v(n))
}

/// A net's ports as (component, pin), in the order reported.
pub open spec fn resolved_ports(n: RawNetV) -> Seq<PortV> {
    n.2.map_values(|p: RawPortV| spec_port_ref(p))
}

/// The name and resolved ports of each net.
pub open spec fn resolved_nets(ns: Seq<RawNetV>) -> Seq<(Seq<u8>, Seq<PortV>)> {
    ns.map_values(|n: RawNetV| (n.0, resolved_ports(n)))
}

/// A net's document: its ports sorted by component, then pin.
pub open spec fn net_doc(n: RawNetV) -> crate::flow::NetV {
    (n.0, n.1, stable_sort(resolved_ports(n), |a: PortV, b: PortV| port_lt(a, b)))
}

/// The net a pin is on: the last net (in order) listing it.
pub open spec fn last_net_with(nets: Seq<(Seq<u8>, Seq<PortV>)>, c: Seq<u8>, p: Seq<u8>) -> Option<Seq<u8>>
    decreases nets.len(),
{
    if nets.len() == 0 {
        None
    } else if nets.last().1.contains((c, p)) {
        Some(nets.last().0)
    } else {
        last_net_with(nets.drop_last(), c, p)
    }
}

fn resolve_ports(n: &RawNet) -> (r: Vec<PortRef>)
    ensures
        ports_v(r@) == resolved_ports(raw_net_v(*n)),
{
    let ghost want = resolved_ports(raw_net_v(*n));
    let mut r: Vec<PortRef> = Vec::new();
    let mut i: usize = 0;
    while i < n.ports.len()
        invariant
            i <= n.ports@.len(),
            want == resolved_ports(raw_net_v(*n)),
            want.len() == n.ports@.len(),
            ports_v(r@) == want.take(i as int),
        decreases n.ports.len() - i,
    {
        let ghost before = r@;
        let q = port_ref(&n.ports[i]);
        r.push(q);
        proof {
            assert(want[i as int] == spec_port_ref(raw_port_v(n.ports@[i as int])));
            assert(ports_v(r@) =~= ports_v(before).push(port_v(q)));
            assert(ports_v(r@) =~= want.take(i + 1));
        }
        i = i + 1;
    }
    assert(want.take(i as int) =~= want);
    r
}

/// Each net's name and resolved ports.
pub struct ResolvedNet {
    pub name: Vec<u8>,
    pub ports: Vec<PortRef>,
}

pub open spec fn resolved_v(r: Seq<ResolvedNet>) -> Seq<(Seq<u8>, Seq<PortV>)> {
    r.map_values(|x: ResolvedNet| (x.name@, ports_v(x.ports@)))
}

fn resolve_nets(nets: &Vec<RawNet>) -> (r: Vec<ResolvedNet>)
    ensures
        resolved_v(r@) == resolved_nets(raw_nets_v(nets@)),
{
    let ghost want = resolved_nets(raw_nets_v(nets@));
    let mut r: Vec<ResolvedNet> = Vec::new();
    let mut i: usize = 0;
    while i < nets.len()
        invariant
            i <= nets@.len(),
            want == resolved_nets(raw_nets_v(nets@)),
            want.len() == nets@.len(),
            resolved_v(r@) == want.take(i as int),
        decreases nets.len() - i,
    {
        let ghost before = r@;
        let x = ResolvedNet { name: copy(&nets[i].name), ports: resolve_ports(&nets[i]) };
        r.push(x);
        proof {
            assert(raw_nets_v(nets@)[i as int] == raw_net_v(nets@[i as int]));
            assert(resolved_v(r@) =~= resolved_v(before).push((x.name@, ports_v(x.ports@))));
            assert(resolved_v(r@) =~= want.take(i + 1));
        }
        i = i + 1;
    }
    assert(want.take(i as int) =~= want);
    r
}

fn last_net_exec(nets: &Vec<ResolvedNet>, c: &[u8], p: &[u8]) -> (r: Option<Vec<u8>>)
    ensures
        ov(r) == last_net_with(resolved_v(nets@), c@, p@),
{
    let ghost rv = resolved_v(nets@);
    let mut k: usize = nets.len();
    assert(rv.take(k as int) =~= rv);
    while k > 0
        invariant
            k <= nets@.len(),
            rv == resolved_v(nets@),
            last_net_with(rv, c@, p@) == last_net_with(rv.take(k as int), c@, p@),
        decreases k,
    {
        let ghost t = rv.take(k as int);
        proof {
            assert(t.drop_last() =~= rv.take(k - 1));
            assert(t.last() == (nets@[k - 1].name@, ports_v(nets@[k - 1].ports@)));
        }
        let ports = &nets[k - 1].ports;
        let ghost pv = ports_v(ports@);
        let mut j: usize = 0;
        let mut hit = false;
        while j < ports.len()
            invariant_except_break
                !hit,
            invariant
                j <= ports@.len(),
                pv == ports_v(ports@),
                forall|m: int| 0 <= m < j ==> pv[m] != (c@, p@),
            ensures
                hit ==> pv.contains((c@, p@)),
                !hit ==> !pv.contains((c@, p@)),
            decreases ports.len() - j,
        {
            if bytes_eq(ports[j].component.as_slice(), c) && bytes_eq(ports[j].pin.as_slice(), p) {
                assert(pv[j as int] == (c@, p@));
                hit = true;
                break;
            }
            j = j + 1;
        }
        if hit {
            return Some(copy(&nets[k - 1].name));
        }
        k = k - 1;
    }
    None
}

/// A child of an instance as reported: its name, its instance path, and
/// the kind of that instance when the evaluator lists it.
pub struct RawChild {
    pub name: Vec<u8>,
    pub path: Vec<Vec<u8>>,
    pub kind: Option<InstanceKind>,
}

/// An instance as reported.
pub struct RawInstance {
    pub path: Vec<Vec<u8>>,
    pub kind: InstanceKind,
    /// The module the instance was made from (`<root>` for a file's own
    /// module).
    pub module_name: Vec<u8>,
    /// The stem of the defining file's name, when it has one.
    pub source_stem: Option<Vec<u8>>,
    /// The defining file, relative to the workspace where it lies inside.
    pub source_file: Vec<u8>,
    pub refdes: Option<Vec<u8>>,
    /// The attributes whose value reads as text, by name.
    pub attributes: Vec<(Vec<u8>, Vec<u8>)>,
    pub children: Vec<RawChild>,
}

pub type RawChildV = (Seq<u8>, Seq<Seq<u8>>, Option<InstanceKind>);

pub open spec fn raw_child_v(c: RawChild) -> RawChildV {
    (c.name@, segs_v(c.path@), c.kind)
}

pub open spec fn children_of(i: RawInstance) -> Seq<RawChildV> {
    i.children@.map_values(|c: RawChild| raw_child_v(c))
}

/// A child of a component that is one of its pins.
pub open spec fn pin_like(kind: InstanceKind, child: Option<InstanceKind>) -> bool {
    kind == InstanceKind::Component && (child == Some(InstanceKind::Port) || child == Some(InstanceKind::Pin))
}

/// The children that are not pins, by name, each with its dotted path.
pub open spec fn child_map(kind: InstanceKind, cs: Seq<RawChildV>) -> Seq<(Seq<u8>, Seq<u8>)>
    decreases cs.len(),
{
    if cs.len() == 0 {
        Seq::empty()
    } else {
        let m = child_map(kind, cs.drop_last());
        let c = cs.last();
        if pin_like(kind, c.2) {
            m
        } else {
            assoc_insert(m, c.0, dotted(c.1))
        }
    }
}

/// The pin children's names, in order.
pub open spec fn pin_names(kind: InstanceKind, cs: Seq<RawChildV>) -> Seq<Seq<u8>>
    decreases cs.len(),
{
    if cs.len() == 0 {
        Seq::empty()
    } else {
        let m = pin_names(kind, cs.drop_last());
        if pin_like(kind, cs.last().2) {
            m.push(cs.last().0)
        } else {
            m
        }
    }
}

/// Pins a net lists on component `path` that are not among `names`, in
/// the order first met, after `acc`.
pub open spec fn extras_in(ports: Seq<PortV>, path: Seq<u8>, names: Seq<Seq<u8>>, acc: Seq<Seq<u8>>) -> Seq<Seq<u8>>
    decreases ports.len(),
{
    if ports.len() == 0 {
        acc
    } else {
        let a = extras_in(ports.drop_last(), path, names, acc);
        let q = ports.last();
        if q.0 == path && !names.contains(q.1) && !a.contains(q.1) {
            a.push(q.1)
        } else {
            a
        }
    }
}

/// Pins the nets list on component `path` that are not among `names`.
pub open spec fn extra_pins(nets: Seq<(Seq<u8>, Seq<PortV>)>, path: Seq<u8>, names: Seq<Seq<u8>>) -> Seq<Seq<u8>>
    decreases nets.len(),
{
    if nets.len() == 0 {
        Seq::empty()
    } else {
        extras_in(nets.last().1, path, names, extra_pins(nets.drop_last(), path, names))
    }
}

/// A component's pins, with the net each is on, sorted by name: its pin
/// children, then the pins only the nets name; other instances have none.
pub open spec fn pins_of(nets: Seq<(Seq<u8>, Seq<PortV>)>, path: Seq<u8>, kind: InstanceKind, cs: Seq<RawChildV>) -> Seq<PinV> {
    if kind == InstanceKind::Component {
        let names = pin_names(kind, cs);
        let all = names + extra_pins(nets, path, names);
        stable_sort(all.map_values(|n: Seq<u8>| (n, last_net_with(nets, path, n))), |a: PinV, b: PinV| pin_lt(a, b))
    } else {
        Seq::empty()
    }
}

/// Attributes that are not the evaluator's own (`__`-prefixed).
pub open spec fn public_attrs(attrs: Seq<(Seq<u8>, Seq<u8>)>) -> Seq<(Seq<u8>, Seq<u8>)>
    decreases attrs.len(),
{
    if attrs.len() == 0 {
        Seq::empty()
    } else {
        let r = public_attrs(attrs.drop_last());
        if spec_starts_with(attrs.last().0, "__".spec_bytes()) {
            r
        } else {
            r.push(attrs.last())
        }
    }
}

/// The name a type goes by: a file's own module by the file's stem.
pub open spec fn type_label_of(module: Seq<u8>, stem: Option<Seq<u8>>) -> Seq<u8> {
    if module == "<root>".spec_bytes() && stem is Some {
        stem->0
    } else {
        module
    }
}

pub type InstanceV = (
    Seq<u8>,
    InstanceKind,
    Seq<u8>,
    Option<Seq<u8>>,
    Option<Seq<u8>>,
    Seq<(Seq<u8>, Seq<u8>)>,
    Seq<(Seq<u8>, Seq<u8>)>,
    Seq<PinV>,
);

pub open spec fn instance_v(i: InstanceDoc) -> InstanceV {
    (
        i.path@,
        i.kind,
        i.type_label@,
        ov(i.source_file),
        ov(i.refdes),
        kv_view(i.text_attributes@),
        kv_view(i.children@),
        pins_v(i.pins@),
    )
}

/// An instance's document.
pub open spec fn instance_doc(nets: Seq<(Seq<u8>, Seq<PortV>)>, i: RawInstance) -> InstanceV {
    let path = dotted(segs_v(i.path@));
    (
        path,
        i.kind,
        type_label_of(i.module_name@, ov(i.source_stem)),
        Some(i.source_file@),
        ov(i.refdes),
        public_attrs(kv_view(i.attributes@)),
        child_map(i.kind, children_of(i)),
        pins_of(nets, path, i.kind, children_of(i)),
    )
}

fn kind_is_component(k: InstanceKind) -> (r: bool)
    ensures
        r == (k == InstanceKind::Component),
{
    match k {
        InstanceKind::Component => true,
        _ => false,
    }
}

fn pin_like_exec(kind: InstanceKind, child: Option<InstanceKind>) -> (r: bool)
    ensures
        r == pin_like(kind, child),
{
    kind_is_component(kind) && match child {
        Some(InstanceKind::Port) | Some(InstanceKind::Pin) => true,
        _ => false,
    }
}

fn contains_name(names: &Vec<Vec<u8>>, x: &[u8]) -> (r: bool)
    ensures
        r == crate::writers::views(names@).contains(x@),
{
    let ghost nv = crate::writers::views(names@);
    let mut i: usize = 0;
    while i < names.len()
        invariant
            i <= names@.len(),
            nv == crate::writers::views(names@),
            forall|k: int| 0 <= k < i ==> nv[k] != x@,
        decreases names.len() - i,
    {
        if bytes_eq(names[i].as_slice(), x) {
            assert(nv[i as int] == x@);
            return true;
        }
        i = i + 1;
    }
    false
}

fn public_attrs_exec(attrs: &Vec<(Vec<u8>, Vec<u8>)>) -> (r: Vec<(Vec<u8>, Vec<u8>)>)
    ensures
        kv_view(r@) == public_attrs(kv_view(attrs@)),
{
    let ghost av = kv_view(attrs@);
    let mut r: Vec<(Vec<u8>, Vec<u8>)> = Vec::new();
    let mut i: usize = 0;
    while i < attrs.len()
        invariant
            i <= attrs@.len(),
            av == kv_view(attrs@),
            kv_view(r@) == public_attrs(av.take(i as int)),
        decreases attrs.len() - i,
    {
        proof {
            assert(av.take(i + 1).drop_last() =~= av.take(i as int));
            assert(av.take(i + 1).last() == (attrs@[i as int].0@, attrs@[i as int].1@));
        }
        if !starts_with(attrs[i].0.as_slice(), lit("__").as_slice()) {
            let ghost before = r@;
            let e = (copy(&attrs[i].0), copy(&attrs[i].1));
            r.push(e);
            proof {
                assert(kv_view(r@) =~= kv_view(before).push((e.0@, e.1@)));
            }
        }
        i = i + 1;
    }
    assert(av.take(i as int) =~= av);
    r
}

fn copy_opt(o: &Option<Vec<u8>>) -> (r: Option<Vec<u8>>)
    ensures
        ov(r) == ov(*o),
{
    match o {
        Some(v) => Some(copy(v)),
        None => None,
    }
}

/// The pins only the nets list on component `path`, in the order met.
fn extra_pins_exec(nets: &Vec<ResolvedNet>, path: &Vec<u8>, names: &Vec<Vec<u8>>) -> (r: Vec<Vec<u8>>)
    ensures
        crate::writers::views(r@) == extra_pins(resolved_v(nets@), path@, crate::writers::views(names@)),
{
    let ghost rv = resolved_v(nets@);
    let ghost nv = crate::writers::views(names@);
    let mut r: Vec<Vec<u8>> = Vec::new();
    let mut m: usize = 0;
    assert(rv.take(0) =~= Seq::<(Seq<u8>, Seq<PortV>)>::empty());
    while m < nets.len()
        invariant
            m <= nets@.len(),
            rv == resolved_v(nets@),
            nv == crate::writers::views(names@),
            crate::writers::views(r@) == extra_pins(rv.take(m as int), path@, nv),
        decreases nets.len() - m,
    {
        let ghost acc = crate::writers::views(r@);
        let ports = &nets[m].ports;
        let ghost pv = ports_v(ports@);
        proof {
            assert(rv.take(m + 1).drop_last() =~= rv.take(m as int));
            assert(rv.take(m + 1).last().1 == pv);
        }
        let mut j: usize = 0;
        assert(pv.take(0) =~= Seq::<PortV>::empty());
        while j < ports.len()
            invariant
                j <= ports@.len(),
                pv == ports_v(ports@),
                nv == crate::writers::views(names@),
                crate::writers::views(r@) == extras_in(pv.take(j as int), path@, nv, acc),
            decreases ports.len() - j,
        {
            proof {
                assert(pv.take(j + 1).drop_last() =~= pv.take(j as int));
                assert(pv.take(j + 1).last() == port_v(ports@[j as int]));
            }
            let q = &ports[j];
            if bytes_eq(q.component.as_slice(), path.as_slice()) && !contains_name(names, q.pin.as_slice())
                && !contains_name(&r, q.pin.as_slice()) {
                let ghost before = r@;
                let c = copy(&q.pin);
                r.push(c);
                proof {
                    assert(crate::writers::views(r@) =~= crate::writers::views(before).push(c@));
                }
            }
            j = j + 1;
        }
        proof {
            assert(pv.take(j as int) =~= pv);
        }
        m = m + 1;
    }
    assert(rv.take(m as int) =~= rv);
    r
}

fn build_instance(nets: &Vec<ResolvedNet>, i: &RawInstance) -> (r: InstanceDoc)
    ensures
        instance_v(r) == instance_doc(resolved_v(nets@), *i),
{
    let ghost rv = resolved_v(nets@);
    let ghost cs = children_of(*i);
    let path = dotted_path(&i.path);
    let mut children: Vec<(Vec<u8>, Vec<u8>)> = Vec::new();
    let mut names: Vec<Vec<u8>> = Vec::new();
    let mut k: usize = 0;
    assert(cs.take(0) =~= Seq::<RawChildV>::empty());
    while k < i.children.len()
        invariant
            k <= i.children@.len(),
            cs == children_of(*i),
            kv_view(children@) == child_map(i.kind, cs.take(k as int)),
            crate::writers::views(names@) == pin_names(i.kind, cs.take(k as int)),
        decreases i.children.len() - k,
    {
        proof {
            assert(cs.take(k + 1).drop_last() =~= cs.take(k as int));
            assert(cs.take(k + 1).last() == raw_child_v(i.children@[k as int]));
        }
        let c = &i.children[k];
        if pin_like_exec(i.kind, c.kind) {
            let ghost before = names@;
            let n = copy(&c.name);
            names.push(n);
            proof {
                assert(crate::writers::views(names@) =~= crate::writers::views(before).push(n@));
            }
        } else {
            kv_insert(&mut children, copy(&c.name), dotted_path(&c.path));
        }
        k = k + 1;
    }
    assert(cs.take(k as int) =~= cs);
    let pins = if kind_is_component(i.kind) {
        let extras = extra_pins_exec(nets, &path, &names);
        let ghost all = crate::writers::views(names@) + crate::writers::views(extras@);
        let ghost want = all.map_values(|n: Seq<u8>| (n, last_net_with(rv, path@, n)));
        let mut list: Vec<PinDoc> = Vec::new();
        let mut m: usize = 0;
        while m < names.len()
            invariant
                m <= names@.len(),
                rv == resolved_v(nets@),
                want == all.map_values(|n: Seq<u8>| (n, last_net_with(rv, path@, n))),
                all == crate::writers::views(names@) + crate::writers::views(extras@),
                pins_v(list@) == want.take(m as int),
            decreases names.len() - m,
        {
            let ghost before = list@;
            let x = PinDoc { name: copy(&names[m]), net: last_net_exec(nets, path.as_slice(), names[m].as_slice()) };
            list.push(x);
            proof {
                assert(all[m as int] == names@[m as int]@);
                assert(pins_v(list@) =~= pins_v(before).push(pin_v(x)));
                assert(pins_v(list@) =~= want.take(m + 1));
            }
            m = m + 1;
        }
        let mut e: usize = 0;
        while e < extras.len()
            invariant
                e <= extras@.len(),
                m == names@.len(),
                rv == resolved_v(nets@),
                want == all.map_values(|n: Seq<u8>| (n, last_net_with(rv, path@, n))),
                all == crate::writers::views(names@) + crate::writers::views(extras@),
                pins_v(list@) == want.take(m + e),
            decreases extras.len() - e,
        {
            let ghost before = list@;
            let x = PinDoc { name: copy(&extras[e]), net: last_net_exec(nets, path.as_slice(), extras[e].as_slice()) };
            list.push(x);
            proof {
                assert(all[m + e] == extras@[e as int]@);
                assert(pins_v(list@) =~= pins_v(before).push(pin_v(x)));
                assert(pins_v(list@) =~= want.take(m + e + 1));
            }
            e = e + 1;
        }
        proof {
            assert(want.take(m + e) =~= want);
        }
        sort_pins(list)
    } else {
        Vec::new()
    };
    let type_label = if bytes_eq(i.module_name.as_slice(), lit("<root>").as_slice()) && i.source_stem.is_some() {
        match &i.source_stem {
            Some(s) => copy(s),
            None => copy(&i.module_name),
        }
    } else {
        copy(&i.module_name)
    };
    let r = InstanceDoc {
        path,
        kind: i.kind,
        type_label,
        source_file: Some(copy(&i.source_file)),
        refdes: copy_opt(&i.refdes),
        text_attributes: public_attrs_exec(&i.attributes),
        children,
        pins,
    };
    proof {
        assert(pins_v(r.pins@) == pins_of(rv, r.path@, i.kind, cs));
    }
    r
}

pub open spec fn raws_path(raws: Seq<RawInstance>, k: int) -> Seq<u8> {
    dotted(segs_v(raws[k].path@))
}

/// Each instance's index, keyed by its dotted path (a later instance at
/// the same path replaces an earlier one).
pub open spec fn index_map(raws: Seq<RawInstance>) -> Seq<(Seq<u8>, usize)>
    decreases raws.len(),
{
    if raws.len() == 0 {
        Seq::empty()
    } else {
        assoc_insert(index_map(raws.drop_last()), raws_path(raws, raws.len() - 1), (raws.len() - 1) as usize)
    }
}

/// Each refdes with the dotted path of the instance bearing it.
pub open spec fn refdes_map(raws: Seq<RawInstance>) -> Seq<(Seq<u8>, Seq<u8>)>
    decreases raws.len(),
{
    if raws.len() == 0 {
        Seq::empty()
    } else {
        let m = refdes_map(raws.drop_last());
        match raws.last().refdes {
            Some(r) => assoc_insert(m, r@, raws_path(raws, raws.len() - 1)),
            None => m,
        }
    }
}

/// The schematic document of what the evaluator reported: nets in the
/// order given, each with its ports sorted; instances by dotted path,
/// each built as [`instance_doc`] says; refdes entries by refdes.
pub open spec fn spec_schematic_instances(nets: Seq<RawNetV>, raws: Seq<RawInstance>) -> Seq<InstanceV> {
    index_map(raws).map_values(|e: (Seq<u8>, usize)| instance_doc(resolved_nets(nets), raws[e.1 as int]))
}

pub open spec fn names_distinct(nets: Seq<RawNetV>) -> bool {
    forall|i: int, j: int| 0 <= i < j < nets.len() ==> (#[trigger] nets[i]).0 != (#[trigger] nets[j]).0
}

/// Assemble the schematic document.
pub fn assemble_schematic(root_module: Vec<u8>, nets: &Vec<RawNet>, instances: &Vec<RawInstance>) -> (r: SchematicDoc)
    ensures
        r.root_module@ == root_module@,
        crate::flow::nets_v(r.nets@) == raw_nets_v(nets@).map_values(|n: RawNetV| net_doc(n)),
        r.instances@.map_values(|i: InstanceDoc| instance_v(i)) == spec_schematic_instances(raw_nets_v(nets@), instances@),
        kv_view(r.by_refdes@) == refdes_map(instances@),
        sorted_keys(index_map(instances@)),
        sorted_keys(refdes_map(instances@)),
        names_distinct(raw_nets_v(nets@)) ==> r.wf(),
{
    let ghost raws = instances@;
    let ghost nv = raw_nets_v(nets@);
    let resolved = resolve_nets(nets);
    let ghost rv = resolved_v(resolved@);
    // Nets.
    let mut net_docs: Vec<NetDoc> = Vec::new();
    let mut i: usize = 0;
    while i < nets.len()
        invariant
            i <= nets@.len(),
            nv == raw_nets_v(nets@),
            crate::flow::nets_v(net_docs@) == nv.map_values(|n: RawNetV| net_doc(n)).take(i as int),
        decreases nets.len() - i,
    {
        let ports = sort_ports(resolve_ports(&nets[i]));
        let d = NetDoc { name: copy(&nets[i].name), kind: copy(&nets[i].kind), ports };
        let ghost before = net_docs@;
        net_docs.push(d);
        proof {
            assert(nv[i as int] == raw_net_v(nets@[i as int]));
            assert(crate::flow::net_v(d) == net_doc(nv[i as int]));
            assert(crate::flow::nets_v(net_docs@) =~= crate::flow::nets_v(before).push(crate::flow::net_v(d)));
            assert(crate::flow::nets_v(net_docs@) =~= nv.map_values(|n: RawNetV| net_doc(n)).take(i + 1));
        }
        i = i + 1;
    }
    proof {
        assert(nv.map_values(|n: RawNetV| net_doc(n)).take(i as int) =~= nv.map_values(|n: RawNetV| net_doc(n)));
    }
    // Instances by path, and refdes entries.
    let mut idx: Vec<(Vec<u8>, usize)> = Vec::new();
    let mut by_refdes: Vec<(Vec<u8>, Vec<u8>)> = Vec::new();
    let mut k: usize = 0;
    assert(raws.take(0) =~= Seq::<RawInstance>::empty());
    while k < instances.len()
        invariant
            k <= instances@.len(),
            raws == instances@,
            kv_view(idx@) == index_map(raws.take(k as int)),
            kv_view(by_refdes@) == refdes_map(raws.take(k as int)),
            sorted_keys(kv_view(idx@)),
            sorted_keys(kv_view(by_refdes@)),
            forall|j: int| 0 <= j < idx@.len() ==> (#[trigger] idx@[j]).1 < k && idx@[j].0@ == raws_path(raws, idx@[j].1 as int),
        decreases instances.len() - k,
    {
        let ghost t = raws.take(k + 1);
        proof {
            assert(t.drop_last() =~= raws.take(k as int));
            assert(t.last() == raws[k as int]);
            assert(raws_path(t, k as int) == raws_path(raws, k as int));
        }
        let path = dotted_path(&instances[k].path);
        let ghost before = kv_view(idx@);
        let ghost old_idx = idx@;
        proof {
            law_sorted_insert(before, path@, k);
            lemma_insert_entries(before, path@, k);
        }
        kv_insert(&mut idx, path, k);
        proof {
            assert forall|j: int| 0 <= j < idx@.len() implies (#[trigger] idx@[j]).1 < k + 1 && idx@[j].0@ == raws_path(raws, idx@[j].1 as int) by {
                assert(kv_view(idx@)[j] == (idx@[j].0@, idx@[j].1));
                if kv_view(idx@)[j] != (raws_path(raws, k as int), k) {
                    let m = choose|m: int| 0 <= m < before.len() && kv_view(idx@)[j] == before[m];
                    assert(before[m] == (old_idx[m].0@, old_idx[m].1));
                    assert(old_idx[m].1 < k && old_idx[m].0@ == raws_path(raws, old_idx[m].1 as int));
                }
            }
        }
        match &instances[k].refdes {
            Some(rd) => {
                let ghost bm = kv_view(by_refdes@);
                let p2 = dotted_path(&instances[k].path);
                proof {
                    law_sorted_insert(bm, rd@, p2@);
                }
                kv_insert(&mut by_refdes, copy(rd), p2);
            },
            None => {},
        }
        k = k + 1;
    }
    assert(raws.take(k as int) =~= raws);
    let mut insts: Vec<InstanceDoc> = Vec::new();
    let mut j: usize = 0;
    let ghost want = spec_schematic_instances(nv, raws);
    while j < idx.len()
        invariant
            j <= idx@.len(),
            raws == instances@,
            rv == resolved_v(resolved@),
            rv == resolved_nets(nv),
            nv == raw_nets_v(nets@),
            want == spec_schematic_instances(nv, raws),
            kv_view(idx@) == index_map(raws),
            forall|m: int| 0 <= m < idx@.len() ==> (#[trigger] idx@[m]).1 < instances@.len(),
            insts@.map_values(|i: InstanceDoc| instance_v(i)) == want.take(j as int),
        decreases idx.len() - j,
    {
        let ghost before = insts@;
        let d = build_instance(&resolved, &instances[idx[j].1]);
        insts.push(d);
        proof {
            assert(kv_view(idx@)[j as int] == (idx@[j as int].0@, idx@[j as int].1));
            assert(want[j as int] == instance_doc(rv, raws[idx@[j as int].1 as int]));
            assert(insts@.map_values(|i: InstanceDoc| instance_v(i)) =~= before.map_values(|i: InstanceDoc| instance_v(i)).push(instance_v(d)));
            assert(insts@.map_values(|i: InstanceDoc| instance_v(i)) =~= want.take(j + 1));
        }
        j = j + 1;
    }
    proof {
        assert(want.take(j as int) =~= want);
    }
    let r = SchematicDoc { root_module, instances: insts, nets: net_docs, by_refdes };
    proof {
        let iv = r.instances@.map_values(|i: InstanceDoc| instance_v(i));
        assert forall|a: int, b: int| 0 <= a < b < r.instances@.len() implies (#[trigger] r.instances@[a]).path@
            != (#[trigger] r.instances@[b]).path@ by {
            assert(iv[a].0 == r.instances@[a].path@);
            assert(iv[b].0 == r.instances@[b].path@);
            assert(kv_view(idx@)[a].0 == idx@[a].0@);
            assert(kv_view(idx@)[b].0 == idx@[b].0@);
            assert(bytes_lt(kv_view(idx@)[a].0, kv_view(idx@)[b].0));
            lemma_lt_irreflexive(idx@[a].0@);
        }
        assert forall|a: int, b: int| 0 <= a < b < r.by_refdes@.len() implies (#[trigger] r.by_refdes@[a]).0@
            != (#[trigger] r.by_refdes@[b]).0@ by {
            assert(kv_view(by_refdes@)[a].0 == by_refdes@[a].0@);
            assert(kv_view(by_refdes@)[b].0 == by_refdes@[b].0@);
            lemma_lt_irreflexive(by_refdes@[a].0@);
        }
        if names_distinct(nv) {
            assert forall|a: int, b: int| 0 <= a < b < r.nets@.len() implies (#[trigger] r.nets@[a]).name@
                != (#[trigger] r.nets@[b]).name@ by {
                assert(crate::flow::nets_v(r.nets@)[a] == net_doc(nv[a]));
                assert(crate::flow::nets_v(r.nets@)[b] == net_doc(nv[b]));
            }
        }
    }
    r
}


/// The component a `# pcb:sch` key declared by the module at path `owner`
/// places: `comp:<relative.path>`, with an optional `@unit` suffix,
/// addresses `<owner>.<relative.path>`; other keys (net and power
/// symbols) place none.
pub open spec fn spec_position_target(owner: Seq<u8>, key: Seq<u8>) -> Option<Seq<u8>> {
    if spec_starts_with(key, "comp:".spec_bytes()) {
        let rel = key.subrange("comp:".spec_bytes().len() as int, key.len() as int);
        let stem = match spec_find(rel, "@".spec_bytes()) {
            Some(i) => rel.subrange(0, i),
            None => rel,
        };
        Some(owner + ".".spec_bytes() + stem)
    } else {
        None
    }
}

pub fn position_target(owner: &[u8], key: &[u8]) -> (r: Option<Vec<u8>>)
    ensures
        ov(r) == spec_position_target(owner@, key@),
{
    let prefix = lit("comp:");
    if !starts_with(key, prefix.as_slice()) {
        return None;
    }
    let rel = slice_copy(key, prefix.len(), key.len());
    let at = lit("@");
    let stem = match find(rel.as_slice(), at.as_slice()) {
        Some(i) => {
            proof {
                lemma_find_from(rel@, at@, 0);
            }
            slice_copy(rel.as_slice(), 0, i)
        },
        None => rel,
    };
    Some(crate::names::child_path(owner, stem.as_slice()))
}

} // verus!
