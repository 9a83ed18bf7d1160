//! How a module's children leave or join the signal flow before packing.
//! A pull-up or pull-down attaches to a flow sibling on its signal net; a
//! pull-up whose signal partner is a pull-down still in the flow fuses
//! with it into a divider; decouplers stack in a bank; everything else
//! flows. Each flowing child (with its fused partner) is one packing unit.
use vstd::prelude::*;
use crate::bytes::copy;
use crate::flow::{
    edges_only, flow_edges, named_v, nets_v, owner, owner_from, paths_v, port_v, ports_v, raw_edges, sorted_firsts,
    spec_owner, spec_under, units_below, PortV,
};
use crate::layering::{assign_columns, layered, spec_break_cycles, tight, Edge};
use crate::model::{net_index, PinDoc, SchematicDoc};
use crate::pins::{pin_v, pins_v, PinV};
use crate::rails::{on_signal, signal_pin, RailRole};

verus! {

/// A child of the module being packed: its path, its rail role, and its
/// pins in the order its drawing lists them.
pub struct Kid {
    pub path: Vec<u8>,
    pub role: RailRole,
    pub pins: Vec<PinDoc>,
}

pub type KidV = (Seq<u8>, RailRole, Seq<PinV>);

pub open spec fn kid_v(k: Kid) -> KidV {
    (k.path@, k.role, pins_v(k.pins@))
}

pub open spec fn kids_v(ks: Seq<Kid>) -> Seq<KidV> {
    ks.map_values(|k: Kid| kid_v(k))
}

pub open spec fn kid_paths(ks: Seq<KidV>) -> Seq<Seq<u8>> {
    ks.map_values(|k: KidV| k.0)
}

/// The first pin on neither rail, from `from` on.
pub open spec fn signal_from(sch: SchematicDoc, pins: Seq<PinV>, from: int) -> Option<int>
    decreases pins.len() - from,
{
    if from < 0 || from >= pins.len() {
        None
    } else if on_signal(sch, pins[from]) {
        Some(from)
    } else {
        signal_from(sch, pins, from + 1)
    }
}

/// The net of a child's signal pin (none when that pin is unconnected).
pub open spec fn signal_net(sch: SchematicDoc, pins: Seq<PinV>) -> Option<Seq<u8>> {
    match signal_from(sch, pins, 0) {
        Some(i) => pins[i].1,
        None => None,
    }
}

/// A partner of the wanted kind: a flow child, or a pull-up or pull-down.
pub open spec fn wanted(role: RailRole, flow: bool) -> bool {
    if flow {
        role == RailRole::Flow
    } else {
        role == RailRole::PullUp || role == RailRole::PullDown
    }
}

/// Over the ports from `from` on, the first whose owning child is another
/// child than `i` of the wanted kind.
pub open spec fn partner_from(kids: Seq<KidV>, ports: Seq<PortV>, i: int, flow: bool, from: int) -> Option<int>
    decreases ports.len() - from,
{
    if from < 0 || from >= ports.len() {
        None
    } else {
        match spec_owner(kid_paths(kids), ports[from].0) {
            Some(k) => if k != i && wanted(kids[k].1, flow) {
                Some(k)
            } else {
                partner_from(kids, ports, i, flow, from + 1)
            },
            None => partner_from(kids, ports, i, flow, from + 1),
        }
    }
}

/// The partner of child `i` on its signal net.
pub open spec fn spec_partner(sch: SchematicDoc, kids: Seq<KidV>, i: int, flow: bool) -> Option<int> {
    match signal_net(sch, kids[i].2) {
        Some(net) => match net_index(sch.nets@, net) {
            Some(ni) => partner_from(kids, ports_v(sch.nets@[ni].ports@), i, flow, 0),
            None => None,
        },
        None => None,
    }
}

/// The first pass over the first `i` children: attachments (rail child,
/// partner), the decoupler bank, and the flow.
pub open spec fn first_pass(sch: SchematicDoc, kids: Seq<KidV>, i: int) -> (Seq<(usize, usize)>, Seq<usize>, Seq<usize>)
    decreases i,
{
    if i <= 0 {
        (Seq::empty(), Seq::empty(), Seq::empty())
    } else {
        let (a, b, f) = first_pass(sch, kids, i - 1);
        let k = i - 1;
        match kids[k].1 {
            RailRole::Flow => (a, b, f.push(k as usize)),
            RailRole::Decoupler => (a, b.push(k as usize), f),
            _ => match spec_partner(sch, kids, k, true) {
                Some(p) => (a.push((k as usize, p as usize)), b, f),
                None => (a, b, f.push(k as usize)),
            },
        }
    }
}

/// The pull-ups among `f`, in order.
pub open spec fn pull_ups(kids: Seq<KidV>, f: Seq<usize>) -> Seq<usize>
    decreases f.len(),
{
    if f.len() == 0 {
        Seq::empty()
    } else {
        let r = pull_ups(kids, f.drop_last());
        if kids[f.last() as int].1 == RailRole::PullUp {
            r.push(f.last())
        } else {
            r
        }
    }
}

/// `s` without `x`.
pub open spec fn without(s: Seq<usize>, x: usize) -> Seq<usize>
    decreases s.len(),
{
    if s.len() == 0 {
        Seq::empty()
    } else {
        let r = without(s.drop_last(), x);
        if s.last() == x {
            r
        } else {
            r.push(s.last())
        }
    }
}

pub open spec fn has_key(m: Seq<(usize, usize)>, k: usize) -> bool {
    exists|i: int| 0 <= i < m.len() && (#[trigger] m[i]).0 == k
}

pub open spec fn has_value(m: Seq<(usize, usize)>, v: usize) -> bool {
    exists|i: int| 0 <= i < m.len() && (#[trigger] m[i]).1 == v
}

/// Fuse the pull-up `u` with its pull-down partner when that partner is
/// still in the flow and neither is fused yet.
pub open spec fn fuse_step(sch: SchematicDoc, kids: Seq<KidV>, st: (Seq<(usize, usize)>, Seq<usize>), u: usize) -> (
    Seq<(usize, usize)>,
    Seq<usize>,
) {
    match spec_partner(sch, kids, u as int, false) {
        Some(j) => if kids[j].1 == RailRole::PullDown && st.1.contains(j as usize) && !has_key(st.0, u)
            && !has_value(st.0, j as usize) {
            (st.0.push((u, j as usize)), without(st.1, j as usize))
        } else {
            st
        },
        None => st,
    }
}

/// Fusing the first `m` pull-ups, in order.
pub open spec fn fuse_pass(sch: SchematicDoc, kids: Seq<KidV>, ups: Seq<usize>, m: int, st: (
    Seq<(usize, usize)>,
    Seq<usize>,
)) -> (Seq<(usize, usize)>, Seq<usize>)
    decreases m,
{
    if m <= 0 {
        st
    } else {
        fuse_step(sch, kids, fuse_pass(sch, kids, ups, m - 1, st), ups[m - 1])
    }
}

/// Every index a plan names is a child's.
pub open spec fn plan_below(p: RailPlanV, n: nat) -> bool {
    &&& forall|k: int| 0 <= k < p.attached_to.len() ==> (#[trigger] p.attached_to[k]).0 < n && p.attached_to[k].1 < n
    &&& forall|k: int| 0 <= k < p.fused.len() ==> (#[trigger] p.fused[k]).0 < n && p.fused[k].1 < n
    &&& forall|k: int| 0 <= k < p.bank.len() ==> #[trigger] p.bank[k] < n
    &&& forall|k: int| 0 <= k < p.flow.len() ==> #[trigger] p.flow[k] < n
}

/// Where each child goes: attached to a partner, fused into a divider
/// (pull-up, pull-down), in the decoupler bank, or in the flow.
pub struct RailPlan {
    pub attached_to: Vec<(usize, usize)>,
    pub fused: Vec<(usize, usize)>,
    pub bank: Vec<usize>,
    pub flow: Vec<usize>,
}

pub struct RailPlanV {
    pub attached_to: Seq<(usize, usize)>,
    pub fused: Seq<(usize, usize)>,
    pub bank: Seq<usize>,
    pub flow: Seq<usize>,
}

impl View for RailPlan {
    type V = RailPlanV;

    open spec fn view(&self) -> RailPlanV {
        RailPlanV {
            attached_to: self.attached_to@,
            fused: self.fused@,
            bank: self.bank@,
            flow: self.flow@,
        }
    }
}

pub open spec fn spec_plan_rails(sch: SchematicDoc, kids: Seq<KidV>) -> RailPlanV {
    let (a, b, f) = first_pass(sch, kids, kids.len() as int);
    let ups = pull_ups(kids, f);
    let (fu, f2) = fuse_pass(sch, kids, ups, ups.len() as int, (Seq::empty(), f));
    RailPlanV { attached_to: a, fused: fu, bank: b, flow: f2 }
}

fn signal_net_exec(sch: &SchematicDoc, pins: &Vec<PinDoc>) -> (r: Option<Vec<u8>>)
    ensures
        crate::editability::ov(r) == signal_net(*sch, pins_v(pins@)),
{
    let ghost pv = pins_v(pins@);
    let found = signal_pin(sch, pins.as_slice());
    proof {
        lemma_signal_from(*sch, pv, 0);
    }
    match found {
        Some(i) => {
            proof {
                assert(pv[i as int] == pin_v(pins@[i as int]));
                assert forall|j: int| 0 <= j < i implies !on_signal(*sch, #[trigger] pv[j]) by {
                    assert(pv[j] == pin_v(pins@[j]));
                }
                lemma_signal_first(*sch, pv, i as int);
            }
            match &pins[i].net {
                Some(n) => Some(copy(n)),
                None => None,
            }
        },
        None => {
            proof {
                assert forall|j: int| 0 <= j < pv.len() implies !on_signal(*sch, #[trigger] pv[j]) by {
                    assert(pv[j] == pin_v(pins@[j]));
                }
                lemma_signal_none(*sch, pv, 0);
            }
            None
        },
    }
}

proof fn lemma_signal_from(sch: SchematicDoc, pins: Seq<PinV>, from: int)
    requires
        from >= 0,
    ensures
        signal_from(sch, pins, from) matches Some(i) ==> from <= i < pins.len(),
    decreases pins.len() - from,
{
    if from < pins.len() && !on_signal(sch, pins[from]) {
        lemma_signal_from(sch, pins, from + 1);
    }
}

proof fn lemma_signal_first(sch: SchematicDoc, pins: Seq<PinV>, i: int)
    requires
        0 <= i < pins.len(),
        on_signal(sch, pins[i]),
        forall|j: int| 0 <= j < i ==> !on_signal(sch, #[trigger] pins[j]),
    ensures
        signal_from(sch, pins, 0) == Some(i),
{
    lemma_signal_first_from(sch, pins, i, 0);
}

proof fn lemma_signal_first_from(sch: SchematicDoc, pins: Seq<PinV>, i: int, from: int)
    requires
        0 <= from <= i < pins.len(),
        on_signal(sch, pins[i]),
        forall|j: int| 0 <= j < i ==> !on_signal(sch, #[trigger] pins[j]),
    ensures
        signal_from(sch, pins, from) == Some(i),
    decreases i - from,
{
    if from < i {
        lemma_signal_first_from(sch, pins, i, from + 1);
    }
}

proof fn lemma_signal_none(sch: SchematicDoc, pins: Seq<PinV>, from: int)
    requires
        from >= 0,
        forall|j: int| 0 <= j < pins.len() ==> !on_signal(sch, #[trigger] pins[j]),
    ensures
        signal_from(sch, pins, from) is None,
    decreases pins.len() - from,
{
    if from < pins.len() {
        lemma_signal_none(sch, pins, from + 1);
    }
}

fn wanted_exec(role: RailRole, flow: bool) -> (r: bool)
    ensures
        r == wanted(role, flow),
{
    if flow {
        match role {
            RailRole::Flow => true,
            _ => false,
        }
    } else {
        match role {
            RailRole::PullUp | RailRole::PullDown => true,
            _ => false,
        }
    }
}

fn paths_of(kids: &Vec<Kid>) -> (r: Vec<Vec<u8>>)
    ensures
        paths_v(r@) == kid_paths(kids_v(kids@)),
{
    let mut r: Vec<Vec<u8>> = Vec::new();
    let mut i: usize = 0;
    while i < kids.len()
        invariant
            i <= kids@.len(),
            paths_v(r@) == kid_paths(kids_v(kids@)).take(i as int),
        decreases kids.len() - i,
    {
        let ghost before = r@;
        let c = copy(&kids[i].path);
        r.push(c);
        proof {
            assert(paths_v(r@) =~= paths_v(before).push(c@));
            assert(kids_v(kids@)[i as int] == kid_v(kids@[i as int]));
            assert(kid_paths(kids_v(kids@))[i as int] == kids@[i as int].path@);
            assert(paths_v(r@) =~= kid_paths(kids_v(kids@)).take(i + 1));
        }
        i = i + 1;
    }
    proof {
        assert(kid_paths(kids_v(kids@)).take(i as int) =~= kid_paths(kids_v(kids@)));
    }
    r
}

/// The partner of child `i` on its signal net: the owner of the first
/// port of that net that is another child of the wanted kind.
pub fn partner(sch: &SchematicDoc, kids: &Vec<Kid>, i: usize, flow: bool) -> (r: Option<usize>)
    requires
        i < kids@.len(),
    ensures
        match r {
            Some(k) => spec_partner(*sch, kids_v(kids@), i as int, flow) == Some(k as int) && k < kids@.len(),
            None => spec_partner(*sch, kids_v(kids@), i as int, flow) is None,
        },
{
    let ghost kv = kids_v(kids@);
    assert(kv[i as int] == kid_v(kids@[i as int]));
    let net = match signal_net_exec(sch, &kids[i].pins) {
        Some(n) => n,
        None => {
            return None;
        },
    };
    let ni = match sch.net(net.as_slice()) {
        Some(ni) => ni,
        None => {
            return None;
        },
    };
    let paths = paths_of(kids);
    let ports = &sch.nets[ni].ports;
    let ghost pv = ports_v(ports@);
    let mut q: usize = 0;
    while q < ports.len()
        invariant
            q <= ports@.len(),
            pv == ports_v(ports@),
            kv == kids_v(kids@),
            paths_v(paths@) == kid_paths(kv),
            kids@.len() == kv.len(),
            i < kids@.len(),
            spec_partner(*sch, kv, i as int, flow) == partner_from(kv, pv, i as int, flow, 0),
            partner_from(kv, pv, i as int, flow, 0) == partner_from(kv, pv, i as int, flow, q as int),
        decreases ports.len() - q,
    {
        assert(pv[q as int] == port_v(ports@[q as int]));
        match owner(&paths, ports[q].component.as_slice()) {
            Some(k) => {
                assert(kv[k as int] == kid_v(kids@[k as int]));
                if k != i && wanted_exec(kids[k].role, flow) {
                    return Some(k);
                }
            },
            None => {},
        }
        q = q + 1;
    }
    None
}

fn contains_index(s: &Vec<usize>, x: usize) -> (r: bool)
    ensures
        r == s@.contains(x),
{
    let mut i: usize = 0;
    while i < s.len()
        invariant
            i <= s@.len(),
            forall|k: int| 0 <= k < i ==> s@[k] != x,
        decreases s.len() - i,
    {
        if s[i] == x {
            assert(s@[i as int] == x);
            return true;
        }
        i = i + 1;
    }
    false
}

fn has_key_exec(m: &Vec<(usize, usize)>, k: usize) -> (r: bool)
    ensures
        r == has_key(m@, k),
{
    let mut i: usize = 0;
    while i < m.len()
        invariant
            i <= m@.len(),
            forall|j: int| 0 <= j < i ==> (#[trigger] m@[j]).0 != k,
        decreases m.len() - i,
    {
        if m[i].0 == k {
            return true;
        }
        i = i + 1;
    }
    false
}

fn has_value_exec(m: &Vec<(usize, usize)>, v: usize) -> (r: bool)
    ensures
        r == has_value(m@, v),
{
    let mut i: usize = 0;
    while i < m.len()
        invariant
            i <= m@.len(),
            forall|j: int| 0 <= j < i ==> (#[trigger] m@[j]).1 != v,
        decreases m.len() - i,
    {
        if m[i].1 == v {
            return true;
        }
        i = i + 1;
    }
    false
}

proof fn lemma_without_sub(s: Seq<usize>, x: usize)
    ensures
        forall|k: int| 0 <= k < without(s, x).len() ==> s.contains(#[trigger] without(s, x)[k]),
    decreases s.len(),
{
    if s.len() > 0 {
        lemma_without_sub(s.drop_last(), x);
        let r = without(s, x);
        assert forall|k: int| 0 <= k < r.len() implies s.contains(#[trigger] r[k]) by {
            let d = s.drop_last();
            if k < without(d, x).len() {
                assert(r[k] == without(d, x)[k]);
                let j = choose|j: int| 0 <= j < d.len() && d[j] == r[k];
                assert(s[j] == d[j]);
            } else {
                assert(s[s.len() - 1] == r[k]);
            }
        }
    }
}

fn without_exec(s: &Vec<usize>, x: usize) -> (r: Vec<usize>)
    ensures
        r@ == without(s@, x),
{
    let mut r: Vec<usize> = Vec::new();
    let mut k: usize = 0;
    while k < s.len()
        invariant
            k <= s@.len(),
            r@ == without(s@.take(k as int), x),
        decreases s.len() - k,
    {
        proof {
            assert(s@.take(k + 1).drop_last() =~= s@.take(k as int));
        }
        if s[k] != x {
            r.push(s[k]);
        }
        k = k + 1;
    }
    assert(s@.take(k as int) =~= s@);
    r
}

/// Where each child goes before packing.
pub fn plan_rails(sch: &SchematicDoc, kids: &Vec<Kid>) -> (r: RailPlan)
    ensures
        r@ == spec_plan_rails(*sch, kids_v(kids@)),
        plan_below(r@, kids@.len()),
{
    let ghost kv = kids_v(kids@);
    let mut a: Vec<(usize, usize)> = Vec::new();
    let mut b: Vec<usize> = Vec::new();
    let mut f: Vec<usize> = Vec::new();
    let mut i: usize = 0;
    while i < kids.len()
        invariant
            i <= kids@.len(),
            kv == kids_v(kids@),
            (a@, b@, f@) == first_pass(*sch, kv, i as int),
            forall|k: int| 0 <= k < f@.len() ==> #[trigger] f@[k] < i,
            forall|k: int| 0 <= k < b@.len() ==> #[trigger] b@[k] < i,
            forall|k: int| 0 <= k < a@.len() ==> (#[trigger] a@[k]).0 < i && a@[k].1 < kids@.len(),
        decreases kids.len() - i,
    {
        assert(kv[i as int] == kid_v(kids@[i as int]));
        match kids[i].role {
            RailRole::Flow => {
                f.push(i);
            },
            RailRole::Decoupler => {
                b.push(i);
            },
            _ => match partner(sch, kids, i, true) {
                Some(p) => {
                    a.push((i, p));
                },
                None => {
                    f.push(i);
                },
            },
        }
        i = i + 1;
    }
    let mut ups: Vec<usize> = Vec::new();
    let mut m: usize = 0;
    while m < f.len()
        invariant
            m <= f@.len(),
            kv == kids_v(kids@),
            forall|k: int| 0 <= k < f@.len() ==> #[trigger] f@[k] < kids@.len(),
            ups@ == pull_ups(kv, f@.take(m as int)),
            forall|k: int| 0 <= k < ups@.len() ==> #[trigger] ups@[k] < kids@.len(),
        decreases f.len() - m,
    {
        proof {
            assert(f@.take(m + 1).drop_last() =~= f@.take(m as int));
        }
        let x = f[m];
        assert(kv[x as int] == kid_v(kids@[x as int]));
        match kids[x].role {
            RailRole::PullUp => {
                ups.push(x);
            },
            _ => {},
        }
        m = m + 1;
    }
    assert(f@.take(m as int) =~= f@);
    let ghost f0 = f@;
    assert(forall|k: int| 0 <= k < f@.len() ==> #[trigger] f@[k] < kids@.len());
    let mut fused: Vec<(usize, usize)> = Vec::new();
    let mut flow = f;
    let mut q: usize = 0;
    assert((fused@, flow@) == fuse_pass(*sch, kv, ups@, 0, (Seq::empty(), f0)));
    while q < ups.len()
        invariant
            q <= ups@.len(),
            kv == kids_v(kids@),
            forall|k: int| 0 <= k < ups@.len() ==> #[trigger] ups@[k] < kids@.len(),
            (fused@, flow@) == fuse_pass(*sch, kv, ups@, q as int, (Seq::empty(), f0)),
            forall|k: int| 0 <= k < flow@.len() ==> #[trigger] flow@[k] < kids@.len(),
            forall|k: int| 0 <= k < fused@.len() ==> (#[trigger] fused@[k]).0 < kids@.len() && fused@[k].1 < kids@.len(),
            forall|k: int| 0 <= k < b@.len() ==> #[trigger] b@[k] < kids@.len(),
            forall|k: int| 0 <= k < a@.len() ==> (#[trigger] a@[k]).0 < kids@.len() && a@[k].1 < kids@.len(),
        decreases ups.len() - q,
    {
        let u = ups[q];
        match partner(sch, kids, u, false) {
            Some(j) => {
                assert(kv[j as int] == kid_v(kids@[j as int]));
                let is_down = match kids[j].role {
                    RailRole::PullDown => true,
                    _ => false,
                };
                if is_down && contains_index(&flow, j) && !has_key_exec(&fused, u) && !has_value_exec(&fused, j) {
                    fused.push((u, j));
                    let ghost old_flow = flow@;
                    flow = without_exec(&flow, j);
                    proof {
                        lemma_without_sub(old_flow, j);
                    }
                }
            },
            None => {},
        }
        q = q + 1;
    }
    RailPlan { attached_to: a, fused, bank: b, flow }
}

/// How many of the plan's places hold child `k`: attached, banked,
/// flowing, or fused below a pull-up.
pub open spec fn places_of(p: RailPlanV, k: usize) -> int {
    (if has_key(p.attached_to, k) { 1int } else { 0int }) + (if p.bank.contains(k) { 1int } else { 0int }) + (
    if p.flow.contains(k) {
        1int
    } else {
        0int
    }) + (if has_value(p.fused, k) { 1int } else { 0int })
}

proof fn lemma_without_contains(s: Seq<usize>, x: usize, y: usize)
    ensures
        without(s, x).contains(y) <==> (s.contains(y) && y != x),
    decreases s.len(),
{
    if s.len() > 0 {
        let d = s.drop_last();
        lemma_without_contains(d, x, y);
        let r = without(s, x);
        let rd = without(d, x);
        if s.contains(y) && y != x {
            let i = choose|i: int| 0 <= i < s.len() && s[i] == y;
            if i < d.len() {
                assert(d[i] == y);
                let j = choose|j: int| 0 <= j < rd.len() && rd[j] == y;
                if s.last() != x {
                    assert(r[j] == y);
                }
            } else {
                assert(r[r.len() - 1] == y);
            }
        }
        if r.contains(y) {
            let i = choose|i: int| 0 <= i < r.len() && r[i] == y;
            if s.last() != x && i == r.len() - 1 {
                assert(s[s.len() - 1] == y);
            } else {
                assert(rd[i] == y);
                let j = choose|j: int| 0 <= j < d.len() && d[j] == y;
                assert(s[j] == y);
            }
        }
    }
}

proof fn lemma_push_contains(s: Seq<usize>, x: usize, y: usize)
    ensures
        s.push(x).contains(y) <==> (s.contains(y) || y == x),
{
    if s.contains(y) {
        let j = choose|j: int| 0 <= j < s.len() && s[j] == y;
        assert(s.push(x)[j] == y);
    }
    if y == x {
        assert(s.push(x)[s.len() as int] == y);
    }
    if s.push(x).contains(y) {
        let j = choose|j: int| 0 <= j < s.push(x).len() && s.push(x)[j] == y;
        if j < s.len() {
            assert(s[j] == y);
        }
    }
}

proof fn lemma_push_key(m: Seq<(usize, usize)>, e: (usize, usize), k: usize)
    ensures
        has_key(m.push(e), k) <==> (has_key(m, k) || e.0 == k),
        has_value(m.push(e), k) <==> (has_value(m, k) || e.1 == k),
{
    let r = m.push(e);
    if has_key(m, k) {
        let j = choose|j: int| 0 <= j < m.len() && (#[trigger] m[j]).0 == k;
        assert(r[j] == m[j]);
    }
    if has_value(m, k) {
        let j = choose|j: int| 0 <= j < m.len() && (#[trigger] m[j]).1 == k;
        assert(r[j] == m[j]);
    }
    assert(r[m.len() as int] == e);
    if has_key(r, k) {
        let j = choose|j: int| 0 <= j < r.len() && (#[trigger] r[j]).0 == k;
        if j < m.len() {
            assert(r[j] == m[j]);
        }
    }
    if has_value(r, k) {
        let j = choose|j: int| 0 <= j < r.len() && (#[trigger] r[j]).1 == k;
        if j < m.len() {
            assert(r[j] == m[j]);
        }
    }
}

proof fn lemma_partner_bound(sch: SchematicDoc, kids: Seq<KidV>, i: int, flow: bool)
    ensures
        spec_partner(sch, kids, i, flow) matches Some(k) ==> 0 <= k < kids.len(),
{
    match signal_net(sch, kids[i].2) {
        Some(net) => match net_index(sch.nets@, net) {
            Some(ni) => {
                lemma_partner_from_bound(kids, ports_v(sch.nets@[ni].ports@), i, flow, 0);
            },
            None => {},
        },
        None => {},
    }
}

proof fn lemma_partner_from_bound(kids: Seq<KidV>, ports: Seq<PortV>, i: int, flow: bool, from: int)
    ensures
        partner_from(kids, ports, i, flow, from) matches Some(k) ==> 0 <= k < kids.len(),
    decreases ports.len() - from,
{
    if 0 <= from < ports.len() {
        crate::flow::lemma_owner_from(kid_paths(kids), ports[from].0, 0);
        lemma_partner_from_bound(kids, ports, i, flow, from + 1);
    }
}

proof fn lemma_first_pass_places(sch: SchematicDoc, kids: Seq<KidV>, i: int)
    requires
        0 <= i <= kids.len(),
        kids.len() <= usize::MAX,
    ensures
        ({
            let (a, b, f) = first_pass(sch, kids, i);
            let p = RailPlanV { attached_to: a, fused: Seq::empty(), bank: b, flow: f };
            forall|k: usize| #[trigger] places_of(p, k) == if k < i { 1int } else { 0int }
        }),
    decreases i,
{
    if i > 0 {
        lemma_first_pass_places(sch, kids, i - 1);
        let (a0, b0, f0) = first_pass(sch, kids, i - 1);
        let (a, b, f) = first_pass(sch, kids, i);
        let p0 = RailPlanV { attached_to: a0, fused: Seq::empty(), bank: b0, flow: f0 };
        let p = RailPlanV { attached_to: a, fused: Seq::empty(), bank: b, flow: f };
        let n = (i - 1) as usize;
        lemma_partner_bound(sch, kids, i - 1, true);
        match kids[i - 1].1 {
            RailRole::Flow => {
                assert(a == a0 && b == b0 && f == f0.push(n));
            },
            RailRole::Decoupler => {
                assert(a == a0 && f == f0 && b == b0.push(n));
            },
            _ => match spec_partner(sch, kids, i - 1, true) {
                Some(q) => {
                    assert(b == b0 && f == f0 && a == a0.push((n, q as usize)));
                },
                None => {
                    assert(a == a0 && b == b0 && f == f0.push(n));
                },
            },
        }
        assert forall|k: usize| #[trigger] places_of(p, k) == if k < i { 1int } else { 0int } by {
            assert(places_of(p0, k) == if k < i - 1 { 1int } else { 0int });
            lemma_push_contains(f0, n, k);
            lemma_push_contains(b0, n, k);
            match spec_partner(sch, kids, i - 1, true) {
                Some(q) => {
                    lemma_push_key(a0, (n, q as usize), k);
                },
                None => {},
            }
        }
    }
}

proof fn lemma_pull_ups(kids: Seq<KidV>, f: Seq<usize>)
    ensures
        forall|m: int| 0 <= m < pull_ups(kids, f).len() ==> f.contains(#[trigger] pull_ups(kids, f)[m]) && kids[pull_ups(
            kids,
            f,
        )[m] as int].1 == RailRole::PullUp,
    decreases f.len(),
{
    if f.len() > 0 {
        let d = f.drop_last();
        lemma_pull_ups(kids, d);
        let r = pull_ups(kids, f);
        assert forall|m: int| 0 <= m < r.len() implies f.contains(#[trigger] r[m]) && kids[r[m] as int].1
            == RailRole::PullUp by {
            if m < pull_ups(kids, d).len() {
                assert(r[m] == pull_ups(kids, d)[m]);
                let j = choose|j: int| 0 <= j < d.len() && d[j] == r[m];
                assert(f[j] == d[j]);
            } else {
                assert(f[f.len() - 1] == r[m]);
            }
        }
    }
}

proof fn lemma_fuse_pass_places(
    sch: SchematicDoc,
    kids: Seq<KidV>,
    ups: Seq<usize>,
    m: int,
    a: Seq<(usize, usize)>,
    b: Seq<usize>,
    f: Seq<usize>,
)
    requires
        0 <= m <= ups.len(),
        kids.len() <= usize::MAX,
        forall|k: usize| #[trigger] places_of(RailPlanV { attached_to: a, fused: Seq::empty(), bank: b, flow: f }, k)
            == if k < kids.len() { 1int } else { 0int },
        forall|x: int| 0 <= x < ups.len() ==> f.contains(#[trigger] ups[x]) && kids[ups[x] as int].1 == RailRole::PullUp,
    ensures
        ({
            let (fu, fl) = fuse_pass(sch, kids, ups, m, (Seq::empty(), f));
            let p = RailPlanV { attached_to: a, fused: fu, bank: b, flow: fl };
            &&& forall|k: usize| #[trigger] places_of(p, k) == if k < kids.len() { 1int } else { 0int }
            &&& forall|x: int| 0 <= x < fu.len() ==> fl.contains((#[trigger] fu[x]).0) && kids[fu[x].1 as int].1 == RailRole::PullDown
                && kids[fu[x].0 as int].1 == RailRole::PullUp
            &&& forall|x: int| 0 <= x < ups.len() ==> fl.contains(#[trigger] ups[x])
        }),
    decreases m,
{
    let p0 = RailPlanV { attached_to: a, fused: Seq::<(usize, usize)>::empty(), bank: b, flow: f };
    if m > 0 {
        lemma_fuse_pass_places(sch, kids, ups, m - 1, a, b, f);
        let st = fuse_pass(sch, kids, ups, m - 1, (Seq::empty(), f));
        let (fu0, fl0) = st;
        let u = ups[m - 1];
        let (fu, fl) = fuse_pass(sch, kids, ups, m, (Seq::empty(), f));
        assert((fu, fl) == fuse_step(sch, kids, st, u));
        lemma_partner_bound(sch, kids, u as int, false);
        if fu != fu0 || fl != fl0 {
            let jj = spec_partner(sch, kids, u as int, false)->0;
            let j = jj as usize;
            assert(0 <= jj < kids.len());
            assert(fu == fu0.push((u, j)));
            assert(fl == without(fl0, j));
            assert(kids[jj].1 == RailRole::PullDown);
            let pp = RailPlanV { attached_to: a, fused: fu0, bank: b, flow: fl0 };
            let q = RailPlanV { attached_to: a, fused: fu, bank: b, flow: fl };
            assert forall|k: usize| #[trigger] places_of(q, k) == if k < kids.len() { 1int } else { 0int } by {
                assert(places_of(pp, k) == if k < kids.len() { 1int } else { 0int });
                lemma_without_contains(fl0, j, k);
                lemma_push_key(fu0, (u, j), k);
            }
            assert forall|x: int| 0 <= x < fu.len() implies fl.contains((#[trigger] fu[x]).0) && kids[fu[x].1 as int].1
                == RailRole::PullDown && kids[fu[x].0 as int].1 == RailRole::PullUp by {
                lemma_without_contains(fl0, j, fu[x].0);
                if x < fu0.len() {
                    assert(fu[x] == fu0[x]);
                    assert(kids[fu0[x].1 as int].1 == RailRole::PullDown);
                    assert(kids[fu0[x].0 as int].1 == RailRole::PullUp);
                    assert(fl0.contains(fu0[x].0));
                } else {
                    assert(fu[x] == (u, j));
                    assert(fl0.contains(ups[m - 1]));
                    assert(kids[ups[m - 1] as int].1 == RailRole::PullUp);
                    assert(kids[u as int].1 == RailRole::PullUp);
                }
            }
            assert forall|x: int| 0 <= x < ups.len() implies fl.contains(#[trigger] ups[x]) by {
                lemma_without_contains(fl0, j, ups[x]);
                assert(kids[ups[x] as int].1 == RailRole::PullUp);
            }
        }
    } else {
        assert(fuse_pass(sch, kids, ups, 0, (Seq::empty(), f)) == (Seq::<(usize, usize)>::empty(), f));
        assert forall|x: int| 0 <= x < ups.len() implies f.contains(#[trigger] ups[x]) by {
        }
    }
}

/// Every child has exactly one place in the plan: attached to a partner,
/// in the decoupler bank, in the flow, or fused below a pull-up; and each
/// fused pull-up stays in the flow as its unit's head.
pub proof fn law_each_child_placed_once(sch: SchematicDoc, kids: Seq<KidV>)
    requires
        kids.len() <= usize::MAX,
    ensures
        forall|k: usize| k < kids.len() ==> #[trigger] places_of(spec_plan_rails(sch, kids), k) == 1,
        forall|x: int|
            0 <= x < spec_plan_rails(sch, kids).fused.len() ==> spec_plan_rails(sch, kids).flow.contains(
                (#[trigger] spec_plan_rails(sch, kids).fused[x]).0,
            ),
{
    lemma_first_pass_places(sch, kids, kids.len() as int);
    let (a, b, f) = first_pass(sch, kids, kids.len() as int);
    let ups = pull_ups(kids, f);
    lemma_pull_ups(kids, f);
    let p0 = RailPlanV { attached_to: a, fused: Seq::empty(), bank: b, flow: f };
    assert forall|k: usize| #[trigger] places_of(p0, k) == if k < kids.len() { 1int } else { 0int } by {
    }
    lemma_fuse_pass_places(sch, kids, ups, ups.len() as int, a, b, f);
}

/// The packing units: each flowing child alone, or a fused pull-up with
/// its pull-down below it; and, per child, the unit it is in.
pub open spec fn spec_units(plan: RailPlanV) -> Seq<Seq<usize>> {
    plan.flow.map_values(|i: usize| match fused_with(plan.fused, i) {
        Some(j) => seq![i, j],
        None => seq![i],
    })
}

/// The pull-down fused with pull-up `i`, if any.
pub open spec fn fused_with(fused: Seq<(usize, usize)>, i: usize) -> Option<usize>
    decreases fused.len(),
{
    if fused.len() == 0 {
        None
    } else if fused[0].0 == i {
        Some(fused[0].1)
    } else {
        fused_with(fused.drop_first(), i)
    }
}

fn fused_with_exec(fused: &Vec<(usize, usize)>, i: usize) -> (r: Option<usize>)
    ensures
        r == fused_with(fused@, i),
{
    let mut k: usize = 0;
    assert(fused@.skip(0) =~= fused@);
    while k < fused.len()
        invariant
            k <= fused@.len(),
            fused_with(fused@, i) == fused_with(fused@.skip(k as int), i),
        decreases fused.len() - k,
    {
        proof {
            assert(fused@.skip(k as int).drop_first() =~= fused@.skip(k + 1));
        }
        if fused[k].0 == i {
            return Some(fused[k].1);
        }
        k = k + 1;
    }
    None
}

/// The packing units of a plan, in flow order.
pub fn units(plan: &RailPlan) -> (r: Vec<Vec<usize>>)
    ensures
        r@.map_values(|u: Vec<usize>| u@) == spec_units(plan@),
{
    let mut r: Vec<Vec<usize>> = Vec::new();
    let mut k: usize = 0;
    while k < plan.flow.len()
        invariant
            k <= plan.flow@.len(),
            r@.map_values(|u: Vec<usize>| u@) == spec_units(plan@).take(k as int),
        decreases plan.flow.len() - k,
    {
        let i = plan.flow[k];
        let mut unit: Vec<usize> = Vec::new();
        unit.push(i);
        match fused_with_exec(&plan.fused, i) {
            Some(j) => {
                unit.push(j);
            },
            None => {},
        }
        let ghost before = r@;
        proof {
            assert(unit@ == spec_units(plan@)[k as int]);
        }
        r.push(unit);
        proof {
            assert(r@.map_values(|u: Vec<usize>| u@) =~= before.map_values(|u: Vec<usize>| u@).push(
                spec_units(plan@)[k as int],
            ));
            assert(r@.map_values(|u: Vec<usize>| u@) =~= spec_units(plan@).take(k + 1));
        }
        k = k + 1;
    }
    proof {
        assert(spec_units(plan@).take(k as int) =~= spec_units(plan@));
    }
    r
}

/// The unit listing child `k` among the first `upto` units (the last
/// one, should two list it).
pub open spec fn unit_holding(units: Seq<Seq<usize>>, k: usize, upto: int) -> Option<usize>
    decreases upto,
{
    if upto <= 0 {
        None
    } else if units[upto - 1].contains(k) {
        Some((upto - 1) as usize)
    } else {
        unit_holding(units, k, upto - 1)
    }
}

pub open spec fn units_v(units: Seq<Vec<usize>>) -> Seq<Seq<usize>> {
    units.map_values(|u: Vec<usize>| u@)
}

proof fn lemma_unit_holding_below(units: Seq<Seq<usize>>, k: usize, upto: int)
    requires
        upto <= units.len(),
    ensures
        unit_holding(units, k, upto) matches Some(u) ==> u < units.len(),
    decreases upto,
{
    if upto > 0 && !units[upto - 1].contains(k) {
        lemma_unit_holding_below(units, k, upto - 1);
    }
}

/// Per child (of `n`), the unit that holds it.
pub fn unit_index(units: &Vec<Vec<usize>>, n: usize) -> (r: Vec<Option<usize>>)
    requires
        forall|u: int, j: int| 0 <= u < units@.len() && 0 <= j < units@[u]@.len() ==> #[trigger] units@[u]@[j] < n,
    ensures
        r@.len() == n,
        forall|k: int| 0 <= k < n ==> #[trigger] r@[k] == unit_holding(units_v(units@), k as usize, units@.len() as int),
        units_below(r@, units@.len() as usize),
{
    let ghost uv = units_v(units@);
    let mut r: Vec<Option<usize>> = Vec::new();
    let mut i: usize = 0;
    while i < n
        invariant
            i <= n,
            r@.len() == i,
            forall|k: int| 0 <= k < i ==> #[trigger] r@[k] is None,
        decreases n - i,
    {
        r.push(None);
        i = i + 1;
    }
    let mut u: usize = 0;
    while u < units.len()
        invariant
            u <= units@.len(),
            uv == units_v(units@),
            r@.len() == n,
            forall|a: int, j: int| 0 <= a < units@.len() && 0 <= j < units@[a]@.len() ==> #[trigger] units@[a]@[j] < n,
            forall|k: int| 0 <= k < n ==> #[trigger] r@[k] == unit_holding(uv, k as usize, u as int),
        decreases units.len() - u,
    {
        assert(uv[u as int] == units@[u as int]@);
        let mut j: usize = 0;
        while j < units[u].len()
            invariant
                u < units@.len(),
                uv == units_v(units@),
                uv[u as int] == units@[u as int]@,
                j <= units@[u as int]@.len(),
                r@.len() == n,
                forall|a: int, j: int| 0 <= a < units@.len() && 0 <= j < units@[a]@.len() ==> #[trigger] units@[a]@[j] < n,
                forall|k: int|
                    0 <= k < n ==> #[trigger] r@[k] == if uv[u as int].take(j as int).contains(k as usize) {
                        Some(u)
                    } else {
                        unit_holding(uv, k as usize, u as int)
                    },
            decreases units@[u as int]@.len() - j,
        {
            let m = units[u][j];
            let ghost before = r@;
            r.set(m, Some(u));
            proof {
                assert forall|k: int| 0 <= k < n implies #[trigger] r@[k] == if uv[u as int].take(j + 1).contains(k as usize) {
                    Some(u)
                } else {
                    unit_holding(uv, k as usize, u as int)
                } by {
                    let t1 = uv[u as int].take(j + 1);
                    let t0 = uv[u as int].take(j as int);
                    assert(t1 =~= t0.push(m));
                    if k == m as int {
                        assert(t1[j as int] == m);
                    } else {
                        assert(before[k] == r@[k]);
                        if t1.contains(k as usize) {
                            let x = choose|x: int| 0 <= x < t1.len() && t1[x] == k as usize;
                            assert(t0[x] == t1[x]);
                        }
                        if t0.contains(k as usize) {
                            let x = choose|x: int| 0 <= x < t0.len() && t0[x] == k as usize;
                            assert(t1[x] == t0[x]);
                        }
                    }
                }
            }
            j = j + 1;
        }
        proof {
            assert(uv[u as int].take(j as int) =~= uv[u as int]);
        }
        u = u + 1;
    }
    proof {
        assert forall|k: int| 0 <= k < r@.len() implies (#[trigger] r@[k] matches Some(x) ==> x < units@.len()) by {
            lemma_unit_holding_below(uv, k as usize, units@.len() as int);
        }
    }
    r
}

/// The packing plan of a module's children: where each child goes, the
/// units, each child's unit, the directed edges between units (with
/// their connecting nets), the edges kept acyclic, and each unit's column.
pub struct FlowLayering {
    pub plan: RailPlan,
    pub units: Vec<Vec<usize>>,
    pub unit_of: Vec<Option<usize>>,
    pub edges: Vec<(Edge, Vec<u8>)>,
    pub kept: Vec<Edge>,
    pub column: Vec<usize>,
}

/// Plan the packing of a module's children. The schematic's nets are
/// taken in the order it lists them (by name).
pub fn layer_flow(sch: &SchematicDoc, kids: &Vec<Kid>) -> (r: FlowLayering)
    ensures
        r.plan@ == spec_plan_rails(*sch, kids_v(kids@)),
        units_v(r.units@) == spec_units(r.plan@),
        r.unit_of@.len() == kids@.len(),
        forall|k: int|
            0 <= k < kids@.len() ==> #[trigger] r.unit_of@[k] == unit_holding(units_v(r.units@), k as usize, r.units@.len() as int),
        sorted_firsts(named_v(r.edges@), raw_edges(kid_paths(kids_v(kids@)), r.unit_of@, nets_v(sch.nets@))),
        r.kept@ == spec_break_cycles(r.units.len(), r.edges@.map_values(|x: (Edge, Vec<u8>)| x.0)),
        r.column@.len() == r.units@.len(),
        layered(r.kept@, r.column@),
        tight(r.kept@, r.column@),
{
    let plan = plan_rails(sch, kids);
    let us = units(&plan);
    proof {
        assert forall|u: int, j: int| 0 <= u < us@.len() && 0 <= j < us@[u]@.len() implies #[trigger] us@[u]@[j] < kids@.len() by {
            assert(units_v(us@).len() == us@.len());
            assert(spec_units(plan@).len() == plan@.flow.len());
            assert(units_v(us@)[u] == us@[u]@);
            let i = plan@.flow[u];
            assert(i < kids@.len());
            lemma_fused_with_found(plan@.fused, i);
            assert(us@[u]@ == spec_units(plan@)[u]);
            if j == 1 {
                let jj = fused_with(plan@.fused, i)->0;
                let k = choose|k: int| 0 <= k < plan@.fused.len() && (#[trigger] plan@.fused[k]).1 == jj;
                assert(plan@.fused[k].1 < kids@.len());
            }
        }
    }
    let unit_of = unit_index(&us, kids.len());
    let paths = paths_of(kids);
    let named = flow_edges(&paths, &unit_of, &sch.nets);
    let edges = edges_only(&paths, &unit_of, &sch.nets, us.len(), &named);
    let (kept, column) = assign_columns(us.len(), &edges);
    FlowLayering { plan, units: us, unit_of, edges: named, kept, column }
}

proof fn lemma_fused_with_found(fused: Seq<(usize, usize)>, i: usize)
    ensures
        fused_with(fused, i) matches Some(j) ==> exists|k: int| 0 <= k < fused.len() && (#[trigger] fused[k]).1 == j,
    decreases fused.len(),
{
    if fused.len() > 0 && fused[0].0 != i {
        lemma_fused_with_found(fused.drop_first(), i);
        if fused_with(fused, i) is Some {
            let j = fused_with(fused, i)->0;
            let k = choose|k: int| 0 <= k < fused.drop_first().len() && (#[trigger] fused.drop_first()[k]).1 == j;
            assert(fused[k + 1] == fused.drop_first()[k]);
        }
    } else if fused.len() > 0 {
        assert(fused[0].1 == fused[0].1);
    }
}

// ---------------------------------------------------------------------------
// Attachment wires
// ---------------------------------------------------------------------------

/// A wire between two pins, each as (component path, pin name).
pub struct Stub {
    pub a: (Vec<u8>, Vec<u8>),
    pub b: (Vec<u8>, Vec<u8>),
}

pub type StubV = ((Seq<u8>, Seq<u8>), (Seq<u8>, Seq<u8>));

pub open spec fn stub_v(s: Stub) -> StubV {
    ((s.a.0@, s.a.1@), (s.b.0@, s.b.1@))
}

pub open spec fn stubs_v(s: Seq<Stub>) -> Seq<StubV> {
    s.map_values(|x: Stub| stub_v(x))
}

/// The name of a child's signal pin.
pub open spec fn signal_pin_name(sch: SchematicDoc, pins: Seq<PinV>) -> Option<Seq<u8>> {
    match signal_from(sch, pins, 0) {
        Some(i) => Some(pins[i].0),
        None => None,
    }
}

/// From `from` on, the first port of another component than `own` that
/// lies under `partner`.
pub open spec fn port_under(ports: Seq<PortV>, own: Seq<u8>, partner: Seq<u8>, from: int) -> Option<int>
    decreases ports.len() - from,
{
    if from < 0 || from >= ports.len() {
        None
    } else if ports[from].0 != own && spec_under(partner, ports[from].0) {
        Some(from)
    } else {
        port_under(ports, own, partner, from + 1)
    }
}

/// The wire coupling rail child `i` to the pin of partner `p` it serves.
pub open spec fn attach_stub(sch: SchematicDoc, kids: Seq<KidV>, i: int, p: int) -> Option<StubV> {
    match (signal_net(sch, kids[i].2), signal_pin_name(sch, kids[i].2)) {
        (Some(net), Some(own)) => match net_index(sch.nets@, net) {
            Some(ni) => {
                let ports = ports_v(sch.nets@[ni].ports@);
                match port_under(ports, kids[i].0, kids[p].0, 0) {
                    Some(q) => Some(((kids[i].0, own), ports[q])),
                    None => None,
                }
            },
            None => None,
        },
        _ => None,
    }
}

/// The wire joining a divider's halves at their signal pins.
pub open spec fn divider_stub(sch: SchematicDoc, kids: Seq<KidV>, u: int, d: int) -> Option<StubV> {
    match (signal_pin_name(sch, kids[u].2), signal_pin_name(sch, kids[d].2)) {
        (Some(a), Some(b)) => Some(((kids[u].0, a), (kids[d].0, b))),
        _ => None,
    }
}

pub open spec fn opt_push<T>(s: Seq<T>, o: Option<T>) -> Seq<T> {
    match o {
        Some(x) => s.push(x),
        None => s,
    }
}

pub open spec fn attach_stubs(sch: SchematicDoc, kids: Seq<KidV>, pairs: Seq<(usize, usize)>) -> Seq<StubV>
    decreases pairs.len(),
{
    if pairs.len() == 0 {
        Seq::empty()
    } else {
        let e = pairs.last();
        opt_push(attach_stubs(sch, kids, pairs.drop_last()), attach_stub(sch, kids, e.0 as int, e.1 as int))
    }
}

pub open spec fn divider_stubs(sch: SchematicDoc, kids: Seq<KidV>, pairs: Seq<(usize, usize)>) -> Seq<StubV>
    decreases pairs.len(),
{
    if pairs.len() == 0 {
        Seq::empty()
    } else {
        let e = pairs.last();
        opt_push(divider_stubs(sch, kids, pairs.drop_last()), divider_stub(sch, kids, e.0 as int, e.1 as int))
    }
}

fn signal_pin_name_exec(sch: &SchematicDoc, pins: &Vec<PinDoc>) -> (r: Option<Vec<u8>>)
    ensures
        crate::editability::ov(r) == signal_pin_name(*sch, pins_v(pins@)),
{
    let ghost pv = pins_v(pins@);
    match signal_pin(sch, pins.as_slice()) {
        Some(i) => {
            proof {
                assert(pv[i as int] == pin_v(pins@[i as int]));
                assert forall|j: int| 0 <= j < i implies !on_signal(*sch, #[trigger] pv[j]) by {
                    assert(pv[j] == pin_v(pins@[j]));
                }
                lemma_signal_first(*sch, pv, i as int);
            }
            Some(copy(&pins[i].name))
        },
        None => {
            proof {
                assert forall|j: int| 0 <= j < pv.len() implies !on_signal(*sch, #[trigger] pv[j]) by {
                    assert(pv[j] == pin_v(pins@[j]));
                }
                lemma_signal_none(*sch, pv, 0);
            }
            None
        },
    }
}

fn attach_stub_exec(sch: &SchematicDoc, kids: &Vec<Kid>, i: usize, p: usize) -> (r: Option<Stub>)
    requires
        i < kids@.len(),
        p < kids@.len(),
    ensures
        match r {
            Some(s) => attach_stub(*sch, kids_v(kids@), i as int, p as int) == Some(stub_v(s)),
            None => attach_stub(*sch, kids_v(kids@), i as int, p as int) is None,
        },
{
    let ghost kv = kids_v(kids@);
    assert(kv[i as int] == kid_v(kids@[i as int]));
    assert(kv[p as int] == kid_v(kids@[p as int]));
    let net = signal_net_exec(sch, &kids[i].pins);
    let own = signal_pin_name_exec(sch, &kids[i].pins);
    let (net, own) = match (net, own) {
        (Some(n), Some(o)) => (n, o),
        _ => {
            return None;
        },
    };
    let ni = match sch.net(net.as_slice()) {
        Some(ni) => ni,
        None => {
            return None;
        },
    };
    let ports = &sch.nets[ni].ports;
    let ghost pv = ports_v(ports@);
    let mut q: usize = 0;
    while q < ports.len()
        invariant
            q <= ports@.len(),
            pv == ports_v(ports@),
            i < kids@.len(),
            p < kids@.len(),
            kv == kids_v(kids@),
            kv[i as int] == kid_v(kids@[i as int]),
            kv[p as int] == kid_v(kids@[p as int]),
            attach_stub(*sch, kv, i as int, p as int) == match port_under(pv, kv[i as int].0, kv[p as int].0, 0) {
                Some(j) => Some(((kv[i as int].0, own@), pv[j])),
                None => None,
            },
            port_under(pv, kids@[i as int].path@, kids@[p as int].path@, 0) == port_under(
                pv,
                kids@[i as int].path@,
                kids@[p as int].path@,
                q as int,
            ),
        decreases ports.len() - q,
    {
        assert(pv[q as int] == port_v(ports@[q as int]));
        let c = &ports[q].component;
        if !crate::bytes::bytes_eq(c.as_slice(), kids[i].path.as_slice()) && crate::flow::under_exec(
            kids[p].path.as_slice(),
            c.as_slice(),
        ) {
            return Some(
                Stub { a: (copy(&kids[i].path), own), b: (copy(c), copy(&ports[q].pin)) },
            );
        }
        q = q + 1;
    }
    None
}

fn divider_stub_exec(sch: &SchematicDoc, kids: &Vec<Kid>, u: usize, d: usize) -> (r: Option<Stub>)
    requires
        u < kids@.len(),
        d < kids@.len(),
    ensures
        match r {
            Some(s) => divider_stub(*sch, kids_v(kids@), u as int, d as int) == Some(stub_v(s)),
            None => divider_stub(*sch, kids_v(kids@), u as int, d as int) is None,
        },
{
    let ghost kv = kids_v(kids@);
    assert(kv[u as int] == kid_v(kids@[u as int]));
    assert(kv[d as int] == kid_v(kids@[d as int]));
    match (signal_pin_name_exec(sch, &kids[u].pins), signal_pin_name_exec(sch, &kids[d].pins)) {
        (Some(a), Some(b)) => Some(Stub { a: (copy(&kids[u].path), a), b: (copy(&kids[d].path), b) }),
        _ => None,
    }
}

/// The attachment wires: each attached rail child to the pin of its
/// partner it serves, then each divider's halves to each other.
pub fn attachment_stubs(sch: &SchematicDoc, kids: &Vec<Kid>, plan: &RailPlan) -> (r: Vec<Stub>)
    requires
        plan_below(plan@, kids@.len()),
    ensures
        stubs_v(r@) == attach_stubs(*sch, kids_v(kids@), plan@.attached_to) + divider_stubs(
            *sch,
            kids_v(kids@),
            plan@.fused,
        ),
{
    let ghost kv = kids_v(kids@);
    let mut r: Vec<Stub> = Vec::new();
    let mut k: usize = 0;
    while k < plan.attached_to.len()
        invariant
            k <= plan.attached_to@.len(),
            kv == kids_v(kids@),
            plan_below(plan@, kids@.len()),
            stubs_v(r@) == attach_stubs(*sch, kv, plan@.attached_to.take(k as int)),
        decreases plan.attached_to.len() - k,
    {
        proof {
            assert(plan@.attached_to.take(k + 1).drop_last() =~= plan@.attached_to.take(k as int));
            assert(plan@.attached_to.take(k + 1).last() == plan@.attached_to[k as int]);
        }
        let (i, p) = plan.attached_to[k];
        let ghost before = r@;
        match attach_stub_exec(sch, kids, i, p) {
            Some(s) => {
                r.push(s);
                proof {
                    assert(stubs_v(r@) =~= stubs_v(before).push(stub_v(r@[r@.len() - 1])));
                }
            },
            None => {},
        }
        k = k + 1;
    }
    proof {
        assert(plan@.attached_to.take(k as int) =~= plan@.attached_to);
    }
    let ghost head = stubs_v(r@);
    let mut m: usize = 0;
    assert(head + divider_stubs(*sch, kv, plan@.fused.take(0)) =~= head);
    while m < plan.fused.len()
        invariant
            m <= plan.fused@.len(),
            kv == kids_v(kids@),
            plan_below(plan@, kids@.len()),
            stubs_v(r@) == head + divider_stubs(*sch, kv, plan@.fused.take(m as int)),
        decreases plan.fused.len() - m,
    {
        proof {
            assert(plan@.fused.take(m + 1).drop_last() =~= plan@.fused.take(m as int));
            assert(plan@.fused.take(m + 1).last() == plan@.fused[m as int]);
        }
        let (u, d) = plan.fused[m];
        let ghost before = r@;
        match divider_stub_exec(sch, kids, u, d) {
            Some(s) => {
                r.push(s);
                proof {
                    assert(stubs_v(r@) =~= stubs_v(before).push(stub_v(r@[r@.len() - 1])));
                }
            },
            None => {},
        }
        proof {
            assert(stubs_v(r@) =~= head + divider_stubs(*sch, kv, plan@.fused.take(m + 1)));
        }
        m = m + 1;
    }
    proof {
        assert(plan@.fused.take(m as int) =~= plan@.fused);
    }
    r
}

} // verus!
