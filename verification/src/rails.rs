//! The schematic idioms a layout draws by: how a two-pin passive sits
//! against the power rails, which way such a part is turned, which of its
//! pins carries the signal, and the order a module's drawable children are
//! packed in. Geometry is the caller's; these are the decisions.
use vstd::prelude::*;
use vstd::string::StringSliceAdditionalSpecFns;
use crate::bytes::{bytes_eq, copy, lit};
use crate::editability::ov;
use crate::glyph::Orient;
use crate::model::{instance_index, lemma_instance_from, InstanceDoc, InstanceKind, PinDoc, SchematicDoc};
use crate::model::{lemma_net_from, net_index};
use crate::pins::{natural_cmp, natural_order, pin_v, pins_v, spec_split_pins, split_pins, PinV};
use std::cmp::Ordering;

verus! {

/// How a two-pin passive relates to the rails.
#[derive(PartialEq, Eq, Structural, Debug, Clone, Copy)]
pub enum RailRole {
    /// Part of the signal flow; packed into columns.
    Flow,
    /// Signal-to-power: stands above its signal partner, rail pin up.
    PullUp,
    /// Signal-to-ground: hangs below its signal partner, rail pin down.
    PullDown,
    /// Power-to-ground: stacks in the rail bank beside the flow.
    Decoupler,
}

/// The kind (`Net`, `Power`, `Ground`, ...) of the net a pin is on, when
/// the pin is connected to a net the schematic lists.
pub open spec fn spec_net_kind(sch: SchematicDoc, net: Option<Seq<u8>>) -> Option<Seq<u8>> {
    match net {
        Some(n) => match net_index(sch.nets@, n) {
            Some(i) => Some(sch.nets@[i].kind@),
            None => None,
        },
        None => None,
    }
}

pub open spec fn is_power(k: Option<Seq<u8>>) -> bool {
    k == Some("Power".spec_bytes())
}

pub open spec fn is_ground(k: Option<Seq<u8>>) -> bool {
    k == Some("Ground".spec_bytes())
}

/// A two-pin part touching power and ground decouples; power alone pulls
/// up, ground alone pulls down; anything else is in the signal flow.
pub open spec fn spec_rail_role(sch: SchematicDoc, pins: Seq<PinV>) -> RailRole {
    if pins.len() != 2 {
        RailRole::Flow
    } else {
        let a = spec_net_kind(sch, pins[0].1);
        let b = spec_net_kind(sch, pins[1].1);
        let pwr = is_power(a) || is_power(b);
        let gnd = is_ground(a) || is_ground(b);
        if pwr && gnd {
            RailRole::Decoupler
        } else if pwr {
            RailRole::PullUp
        } else if gnd {
            RailRole::PullDown
        } else {
            RailRole::Flow
        }
    }
}

/// The turn of a rail passive that puts its rail pin toward its rail: the
/// `Down` variant draws the left-split pin at the top, `Up` at the bottom.
pub open spec fn spec_vertical_orient(sch: SchematicDoc, pins: Seq<PinV>, role: RailRole) -> Orient {
    let left = spec_split_pins(pins).0;
    if left.len() == 0 {
        Orient::Right
    } else {
        let k = spec_net_kind(sch, left[0].1);
        match role {
            RailRole::Flow => Orient::Right,
            RailRole::PullUp | RailRole::Decoupler => if is_power(k) {
                Orient::Down
            } else {
                Orient::Up
            },
            RailRole::PullDown => if !is_ground(k) {
                Orient::Down
            } else {
                Orient::Up
            },
        }
    }
}

/// A pin on no rail: its net is neither power nor ground.
pub open spec fn on_signal(sch: SchematicDoc, p: PinV) -> bool {
    !is_power(spec_net_kind(sch, p.1)) && !is_ground(spec_net_kind(sch, p.1))
}

fn kind_is(k: &Option<Vec<u8>>, s: &str) -> (r: bool)
    ensures
        r == (ov(*k) == Some(s.spec_bytes())),
{
    match k {
        Some(v) => bytes_eq(v.as_slice(), lit(s).as_slice()),
        None => false,
    }
}

/// The kind of the net `net` names, if the schematic lists it.
pub fn net_kind(sch: &SchematicDoc, net: Option<&[u8]>) -> (r: Option<Vec<u8>>)
    ensures
        ov(r) == spec_net_kind(*sch, crate::catalog::opt_slice(net)),
{
    match net {
        Some(n) => match sch.net(n) {
            Some(i) => Some(copy(&sch.nets[i].kind)),
            None => None,
        },
        None => None,
    }
}

fn pin_net_kind(sch: &SchematicDoc, p: &PinDoc) -> (r: Option<Vec<u8>>)
    ensures
        ov(r) == spec_net_kind(*sch, pin_v(*p).1),
{
    match &p.net {
        Some(n) => net_kind(sch, Some(n.as_slice())),
        None => None,
    }
}

/// Classify a component by what its two pins' nets touch.
pub fn rail_role(sch: &SchematicDoc, inst: &InstanceDoc) -> (r: RailRole)
    ensures
        r == spec_rail_role(*sch, pins_v(inst.pins@)),
{
    if inst.pins.len() != 2 {
        return RailRole::Flow;
    }
    let a = pin_net_kind(sch, &inst.pins[0]);
    let b = pin_net_kind(sch, &inst.pins[1]);
    proof {
        assert(pins_v(inst.pins@)[0] == pin_v(inst.pins@[0]));
        assert(pins_v(inst.pins@)[1] == pin_v(inst.pins@[1]));
    }
    let pwr = kind_is(&a, "Power") || kind_is(&b, "Power");
    let gnd = kind_is(&a, "Ground") || kind_is(&b, "Ground");
    if pwr && gnd {
        RailRole::Decoupler
    } else if pwr {
        RailRole::PullUp
    } else if gnd {
        RailRole::PullDown
    } else {
        RailRole::Flow
    }
}

/// The vertical turn of a rail passive, chosen so its rail pin faces its
/// rail; a part in the flow stays turned right.
pub fn vertical_orient(sch: &SchematicDoc, inst: &InstanceDoc, role: RailRole) -> (r: Orient)
    ensures
        r == spec_vertical_orient(*sch, pins_v(inst.pins@), role),
{
    let (left, _right) = split_pins(inst.pins.as_slice());
    if left.len() == 0 {
        return Orient::Right;
    }
    let k = pin_net_kind(sch, &left[0]);
    proof {
        assert(pins_v(left@)[0] == pin_v(left@[0]));
    }
    let first_is_top = match role {
        RailRole::PullUp | RailRole::Decoupler => kind_is(&k, "Power"),
        RailRole::PullDown => !kind_is(&k, "Ground"),
        RailRole::Flow => {
            return Orient::Right;
        },
    };
    if first_is_top {
        Orient::Down
    } else {
        Orient::Up
    }
}

/// The first pin of a rail passive on neither rail: the wire end, where
/// the rail ends get net labels.
pub fn signal_pin(sch: &SchematicDoc, pins: &[PinDoc]) -> (r: Option<usize>)
    ensures
        match r {
            Some(i) => i < pins@.len() && on_signal(*sch, pin_v(pins@[i as int])) && forall|j: int|
                0 <= j < i ==> !on_signal(*sch, #[trigger] pin_v(pins@[j])),
            None => forall|j: int| 0 <= j < pins@.len() ==> !on_signal(*sch, #[trigger] pin_v(pins@[j])),
        },
{
    let mut i: usize = 0;
    while i < pins.len()
        invariant
            i <= pins@.len(),
            forall|j: int| 0 <= j < i ==> !on_signal(*sch, #[trigger] pin_v(pins@[j])),
        decreases pins.len() - i,
    {
        let k = pin_net_kind(sch, &pins[i]);
        if !kind_is(&k, "Power") && !kind_is(&k, "Ground") {
            return Some(i);
        }
        i = i + 1;
    }
    None
}

// ---------------------------------------------------------------------------
// Drawable children, in packing order
// ---------------------------------------------------------------------------

/// Components and modules are drawn; interfaces, ports and pins are not.
pub open spec fn drawable_kind(k: InstanceKind) -> bool {
    k == InstanceKind::Component || k == InstanceKind::Module
}

/// A child entry (its name, its instance's index) when drawable.
pub open spec fn drawable_entry(sch: SchematicDoc, child: (Vec<u8>, Vec<u8>)) -> Option<(Seq<u8>, int)> {
    match instance_index(sch.instances@, child.1@) {
        Some(i) => if drawable_kind(sch.instances@[i].kind) {
            Some((child.0@, i))
        } else {
            None
        },
        None => None,
    }
}

/// The drawable children, in the order the instance lists them.
pub open spec fn drawable_entries(sch: SchematicDoc, children: Seq<(Vec<u8>, Vec<u8>)>) -> Seq<
    (Seq<u8>, int),
>
    decreases children.len(),
{
    if children.len() == 0 {
        Seq::empty()
    } else {
        let rest = drawable_entries(sch, children.drop_last());
        match drawable_entry(sch, children.last()) {
            Some(e) => rest.push(e),
            None => rest,
        }
    }
}

/// Components before modules, then by the natural order of names.
pub open spec fn child_before(sch: SchematicDoc, x: (Seq<u8>, int), y: (Seq<u8>, int)) -> bool {
    let gx = sch.instances@[x.1].kind != InstanceKind::Component;
    let gy = sch.instances@[y.1].kind != InstanceKind::Component;
    (!gx && gy) || (gx == gy && natural_order(x.0, y.0, 0, 0) < 0)
}

/// Where a stable insertion puts `x` into `sorted`: after every entry it
/// does not sort strictly before.
pub open spec fn child_pos(sch: SchematicDoc, sorted: Seq<(Seq<u8>, int)>, x: (Seq<u8>, int)) -> int
    decreases sorted.len(),
{
    if sorted.len() == 0 {
        0
    } else if child_before(sch, x, sorted.last()) {
        child_pos(sch, sorted.drop_last(), x)
    } else {
        sorted.len() as int
    }
}

/// The stable sort of `s` by [`child_before`].
pub open spec fn child_sort(sch: SchematicDoc, s: Seq<(Seq<u8>, int)>) -> Seq<(Seq<u8>, int)>
    decreases s.len(),
{
    if s.len() == 0 {
        s
    } else {
        let r = child_sort(sch, s.drop_last());
        r.insert(child_pos(sch, r, s.last()), s.last())
    }
}

proof fn lemma_child_pos_bound(sch: SchematicDoc, sorted: Seq<(Seq<u8>, int)>, x: (Seq<u8>, int))
    ensures
        0 <= child_pos(sch, sorted, x) <= sorted.len(),
    decreases sorted.len(),
{
    if sorted.len() > 0 {
        lemma_child_pos_bound(sch, sorted.drop_last(), x);
    }
}

pub open spec fn children_v(s: Seq<(Vec<u8>, usize)>) -> Seq<(Seq<u8>, int)> {
    s.map_values(|e: (Vec<u8>, usize)| (e.0@, e.1 as int))
}

fn is_component(k: InstanceKind) -> (r: bool)
    ensures
        r == (k == InstanceKind::Component),
{
    match k {
        InstanceKind::Component => true,
        _ => false,
    }
}

fn name_less(a: &[u8], b: &[u8]) -> (r: bool)
    ensures
        r == (natural_order(a@, b@, 0, 0) < 0),
{
    match natural_cmp(a, b) {
        Ordering::Less => true,
        _ => false,
    }
}

fn child_before_exec(sch: &SchematicDoc, x: &(Vec<u8>, usize), y: &(Vec<u8>, usize)) -> (r: bool)
    requires
        x.1 < sch.instances@.len(),
        y.1 < sch.instances@.len(),
    ensures
        r == child_before(*sch, (x.0@, x.1 as int), (y.0@, y.1 as int)),
{
    let gx = !is_component(sch.instances[x.1].kind);
    let gy = !is_component(sch.instances[y.1].kind);
    let less = name_less(x.0.as_slice(), y.0.as_slice());
    (!gx && gy) || (gx == gy && less)
}

/// A module's drawable children (components and modules), each as its
/// name and the index of its instance: components first, then by the
/// natural order of names, ties kept in listing order.
pub fn drawable_children(sch: &SchematicDoc, inst: &InstanceDoc) -> (r: Vec<(Vec<u8>, usize)>)
    ensures
        children_v(r@) == child_sort(*sch, drawable_entries(*sch, inst.children@)),
        forall|k: int| 0 <= k < r@.len() ==> (#[trigger] r@[k]).1 < sch.instances@.len(),
{
    let ghost cs = inst.children@;
    let mut out: Vec<(Vec<u8>, usize)> = Vec::new();
    let mut i: usize = 0;
    assert(cs.take(0) =~= Seq::<(Vec<u8>, Vec<u8>)>::empty());
    assert(children_v(out@) =~= Seq::<(Seq<u8>, int)>::empty());
    while i < inst.children.len()
        invariant
            i <= cs.len(),
            cs == inst.children@,
            children_v(out@) == child_sort(*sch, drawable_entries(*sch, cs.take(i as int))),
            forall|k: int| 0 <= k < out@.len() ==> (#[trigger] out@[k]).1 < sch.instances@.len(),
        decreases cs.len() - i,
    {
        proof {
            assert(cs.take(i + 1).drop_last() =~= cs.take(i as int));
            assert(cs.take(i + 1).last() == cs[i as int]);
        }
        let child = &inst.children[i];
        let found = sch.instance(child.1.as_slice());
        proof {
            lemma_instance_from(sch.instances@, child.1@, 0);
        }
        let idx = match found {
            Some(idx) => idx,
            None => {
                i = i + 1;
                continue;
            },
        };
        let kind = sch.instances[idx].kind;
        let drawable = match kind {
            InstanceKind::Component | InstanceKind::Module => true,
            _ => false,
        };
        if !drawable {
            i = i + 1;
            continue;
        }
        let x = (copy(&child.0), idx);
        let ghost xv = (x.0@, x.1 as int);
        let ghost ov_ = children_v(out@);
        let mut k: usize = out.len();
        assert(ov_.take(k as int) =~= ov_);
        while k > 0 && child_before_exec(sch, &x, &out[k - 1])
            invariant
                k <= out@.len(),
                ov_ == children_v(out@),
                x.1 < sch.instances@.len(),
                xv == (x.0@, x.1 as int),
                forall|m: int| 0 <= m < out@.len() ==> (#[trigger] out@[m]).1 < sch.instances@.len(),
                child_pos(*sch, ov_, xv) == child_pos(*sch, ov_.take(k as int), xv),
            decreases k,
        {
            proof {
                assert(ov_.take(k as int).drop_last() =~= ov_.take(k - 1));
                assert(ov_.take(k as int).last() == ov_[k - 1]);
            }
            k = k - 1;
        }
        proof {
            if k > 0 {
                assert(ov_.take(k as int).last() == ov_[k - 1]);
            }
            lemma_child_pos_bound(*sch, ov_, xv);
        }
        out.insert(k, x);
        proof {
            assert(children_v(out@) =~= ov_.insert(k as int, xv));
            let de = drawable_entries(*sch, cs.take(i as int));
            assert(drawable_entry(*sch, cs[i as int]) == Some(xv));
            assert(drawable_entries(*sch, cs.take(i + 1)) == de.push(xv));
            assert(de.push(xv).drop_last() =~= de);
            assert(de.push(xv).last() == xv);
        }
        i = i + 1;
    }
    assert(cs.take(cs.len() as int) =~= cs);
    out
}

} // verus!
