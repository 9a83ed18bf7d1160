//! Choosing a drawn symbol: the orientation variant of a symbol base, and
//! the normalized pin labels that pins are matched to ports by. The
//! symbol geometry itself, and which variants exist, come from the
//! generated symbol table the caller holds.
use vstd::prelude::*;
use vstd::string::StringSliceAdditionalSpecFns;
use crate::bytes::{bytes_eq, contains_bytes, lit};
use crate::catalog::trim;
use crate::scaffold::ascii_lower;
use crate::model::PinDoc;
use crate::pins::{pin_v, pins_v, spec_split_pins, split_pins, PinV};
use crate::text::push_all;

verus! {

/// A quarter-turn orientation of a drawn symbol.
#[derive(PartialEq, Eq, Structural, Debug, Clone, Copy)]
pub enum Orient {
    Right,
    Up,
    Left,
    Down,
}

pub open spec fn spec_suffix(o: Orient) -> Seq<u8> {
    match o {
        Orient::Right => "right".spec_bytes(),
        Orient::Up => "up".spec_bytes(),
        Orient::Left => "left".spec_bytes(),
        Orient::Down => "down".spec_bytes(),
    }
}

/// The axis variant a base ships when it has no variant per direction.
pub open spec fn spec_axis(o: Orient) -> Seq<u8> {
    match o {
        Orient::Right | Orient::Left => "horz".spec_bytes(),
        Orient::Up | Orient::Down => "vert".spec_bytes(),
    }
}

impl Orient {
    /// The symbol-name suffix of the orientation.
    pub fn suffix(self) -> (r: Vec<u8>)
        ensures
            r@ == spec_suffix(self),
    {
        match self {
            Orient::Right => lit("right"),
            Orient::Up => lit("up"),
            Orient::Left => lit("left"),
            Orient::Down => lit("down"),
        }
    }

    fn axis(self) -> (r: Vec<u8>)
        ensures
            r@ == spec_axis(self),
    {
        match self {
            Orient::Right | Orient::Left => lit("horz"),
            Orient::Up | Orient::Down => lit("vert"),
        }
    }
}

pub open spec fn variant_name(base: Seq<u8>, tail: Seq<u8>) -> Seq<u8> {
    base + "_".spec_bytes() + tail
}

/// The variant of `base` drawn at `orient`: `<base>_<direction>` when the
/// table has it, else the axis variant `<base>_horz` / `<base>_vert`,
/// else none.
pub open spec fn spec_resolve_variant(base: Seq<u8>, orient: Orient, known: Seq<Seq<u8>>) -> Option<
    Seq<u8>,
> {
    let primary = variant_name(base, spec_suffix(orient));
    let alt = variant_name(base, spec_axis(orient));
    if known.contains(primary) {
        Some(primary)
    } else if known.contains(alt) {
        Some(alt)
    } else {
        None
    }
}

fn variant_exec(base: &[u8], tail: &[u8]) -> (r: Vec<u8>)
    ensures
        r@ == variant_name(base@, tail@),
{
    let mut v: Vec<u8> = Vec::new();
    push_all(&mut v, base);
    push_all(&mut v, lit("_").as_slice());
    push_all(&mut v, tail);
    v
}

/// Pick the variant for an orientation from the symbol names the
/// geometry table holds, falling back to the horz/vert axis variants that
/// many bases ship instead of all four.
pub fn resolve_variant(base: &[u8], orient: Orient, known: &Vec<Vec<u8>>) -> (r: Option<Vec<u8>>)
    ensures
        match r {
            Some(n) => spec_resolve_variant(base@, orient, crate::writers::views(known@)) == Some(n@),
            None => spec_resolve_variant(base@, orient, crate::writers::views(known@)) is None,
        },
{
    let primary = variant_exec(base, orient.suffix().as_slice());
    if contains_bytes(known, primary.as_slice()) {
        proof {
            lemma_contains_views(known@, primary@);
        }
        return Some(primary);
    }
    proof {
        lemma_contains_views(known@, primary@);
    }
    let alt = variant_exec(base, orient.axis().as_slice());
    proof {
        lemma_contains_views(known@, alt@);
    }
    if contains_bytes(known, alt.as_slice()) {
        Some(alt)
    } else {
        None
    }
}

proof fn lemma_contains_views(v: Seq<Vec<u8>>, x: Seq<u8>)
    ensures
        crate::writers::views(v).contains(x) <==> exists|i: int| 0 <= i < v.len() && v[i]@ == x,
{
    let w = crate::writers::views(v);
    if w.contains(x) {
        let i = choose|i: int| 0 <= i < w.len() && w[i] == x;
        assert(v[i]@ == x);
    }
    if exists|i: int| 0 <= i < v.len() && v[i]@ == x {
        let i = choose|i: int| 0 <= i < v.len() && v[i]@ == x;
        assert(w[i] == x);
    }
}

/// A pin name or port label as `Labeled` matching compares it: trimmed,
/// ASCII-lowercased, and mapped onto one name per role.
pub open spec fn spec_pin_key(name: Seq<u8>) -> Seq<u8> {
    let l = ascii_lower(trim(name));
    if l == "c".spec_bytes() || l == "collector".spec_bytes() {
        "collector".spec_bytes()
    } else if l == "b".spec_bytes() || l == "base".spec_bytes() {
        "base".spec_bytes()
    } else if l == "e".spec_bytes() || l == "emitter".spec_bytes() {
        "emitter".spec_bytes()
    } else if l == "d".spec_bytes() || l == "drain".spec_bytes() {
        "drain".spec_bytes()
    } else if l == "g".spec_bytes() || l == "gate".spec_bytes() {
        "gate".spec_bytes()
    } else if l == "s".spec_bytes() || l == "source".spec_bytes() {
        "source".spec_bytes()
    } else if l == "+".spec_bytes() || l == "in+".spec_bytes() || l == "inp".spec_bytes() || l
        == "inp1".spec_bytes() {
        "inp1".spec_bytes()
    } else if l == "-".spec_bytes() || l == "in-".spec_bytes() || l == "inn".spec_bytes() || l
        == "inp2".spec_bytes() {
        "inp2".spec_bytes()
    } else if l == "o".spec_bytes() || l == "out".spec_bytes() || l == "output".spec_bytes() {
        "out".spec_bytes()
    } else {
        l
    }
}

fn is(l: &[u8], s: &str) -> (r: bool)
    ensures
        r == (l@ == s.spec_bytes()),
{
    bytes_eq(l, lit(s).as_slice())
}

pub fn pin_key(name: &[u8]) -> (r: Vec<u8>)
    ensures
        r@ == spec_pin_key(name@),
{
    let t = crate::catalog::trim_exec(name);
    let l = crate::catalog::lower_exec(t.as_slice());
    let s = l.as_slice();
    if is(s, "c") || is(s, "collector") {
        lit("collector")
    } else if is(s, "b") || is(s, "base") {
        lit("base")
    } else if is(s, "e") || is(s, "emitter") {
        lit("emitter")
    } else if is(s, "d") || is(s, "drain") {
        lit("drain")
    } else if is(s, "g") || is(s, "gate") {
        lit("gate")
    } else if is(s, "s") || is(s, "source") {
        lit("source")
    } else if is(s, "+") || is(s, "in+") || is(s, "inp") || is(s, "inp1") {
        lit("inp1")
    } else if is(s, "-") || is(s, "in-") || is(s, "inn") || is(s, "inp2") {
        lit("inp2")
    } else if is(s, "o") || is(s, "out") || is(s, "output") {
        lit("out")
    } else {
        l
    }
}


// ---------------------------------------------------------------------------
// Component classes
// ---------------------------------------------------------------------------

/// How component pins map onto a symbol's ports.
#[derive(PartialEq, Eq, Structural, Debug, Clone, Copy)]
pub enum MapStrategy {
    /// 1-2 pins: the left/right split onto ports labeled `1` / `2`.
    TwoPin,
    /// 3+ pins: pin names match port labels (with aliases); any unmapped
    /// pin falls the component back to a chip.
    Labeled,
}

/// How a component is drawn: a symbol base to try (else a box with pins),
/// its element type, and the field whose numeric value the glyph shows.
pub struct CompClass {
    pub symbol: Option<(Vec<u8>, MapStrategy)>,
    pub ftype: Vec<u8>,
    /// For resistors, capacitors and inductors: the field (or else `value`)
    /// that must read as a number for the glyph to apply; a component
    /// whose value does not read is a chip.
    pub numeric: Option<Vec<u8>>,
}

#[verifier::ext_equal]
pub struct ClassV {
    pub symbol: Option<(Seq<u8>, MapStrategy)>,
    pub ftype: Seq<u8>,
    pub numeric: Option<Seq<u8>>,
}

impl View for CompClass {
    type V = ClassV;

    open spec fn view(&self) -> ClassV {
        ClassV {
            symbol: match self.symbol {
                Some((b, m)) => Some((b@, m)),
                None => None,
            },
            ftype: self.ftype@,
            numeric: crate::editability::ov(self.numeric),
        }
    }
}

pub open spec fn chip_class() -> ClassV {
    ClassV { symbol: None, ftype: "simple_chip".spec_bytes(), numeric: None }
}

pub open spec fn two_pin(base: Seq<u8>, ftype: Seq<u8>) -> ClassV {
    ClassV { symbol: Some((base, MapStrategy::TwoPin)), ftype, numeric: None }
}

pub open spec fn labeled(base: Seq<u8>) -> ClassV {
    ClassV { symbol: Some((base, MapStrategy::Labeled)), ftype: "simple_chip".spec_bytes(), numeric: None }
}

/// The class of a component by its `type` attribute and pin count;
/// unknown types and pin-count mismatches are chips.
pub open spec fn spec_symbol_class(ty: Option<Seq<u8>>, n: nat) -> ClassV {
    match ty {
        None => chip_class(),
        Some(t) => {
            let is = |s: &str| t == s.spec_bytes();
            if n == 2 && is("resistor") {
                ClassV { numeric: Some("resistance".spec_bytes()), ..two_pin("boxresistor".spec_bytes(), "simple_resistor".spec_bytes()) }
            } else if n == 2 && is("capacitor") {
                ClassV { numeric: Some("capacitance".spec_bytes()), ..two_pin("capacitor".spec_bytes(), "simple_capacitor".spec_bytes()) }
            } else if n == 2 && is("inductor") {
                ClassV { numeric: Some("inductance".spec_bytes()), ..two_pin("inductor".spec_bytes(), "simple_inductor".spec_bytes()) }
            } else if n == 2 && is("led") {
                two_pin("led".spec_bytes(), "simple_led".spec_bytes())
            } else if n == 2 && is("diode") {
                two_pin("diode".spec_bytes(), "simple_diode".spec_bytes())
            } else if n == 2 && (is("zener") || is("tvs")) {
                two_pin("zener_diode".spec_bytes(), "simple_diode".spec_bytes())
            } else if n == 2 && is("rectifier") {
                two_pin("rectifier_diode".spec_bytes(), "simple_diode".spec_bytes())
            } else if n == 2 && is("schottky") {
                two_pin("schottky_diode".spec_bytes(), "simple_diode".spec_bytes())
            } else if n == 2 && is("crystal") {
                two_pin("crystal".spec_bytes(), "simple_chip".spec_bytes())
            } else if n == 2 && is("ferrite_bead") {
                two_pin("ferrite_bead".spec_bytes(), "simple_chip".spec_bytes())
            } else if n == 2 && is("thermistor") {
                two_pin("boxresistor".spec_bytes(), "simple_chip".spec_bytes())
            } else if n == 2 && is("fuse") {
                two_pin("fuse".spec_bytes(), "simple_chip".spec_bytes())
            } else if n == 2 && is("potentiometer") {
                two_pin("potentiometer".spec_bytes(), "simple_chip".spec_bytes())
            } else if n == 2 && is("battery") {
                two_pin("battery".spec_bytes(), "simple_chip".spec_bytes())
            } else if n == 1 && is("testpoint") {
                two_pin("testpoint".spec_bytes(), "simple_chip".spec_bytes())
            } else if n == 3 && is("npn") {
                labeled("npn_bipolar_transistor".spec_bytes())
            } else if n == 3 && is("pnp") {
                labeled("pnp_bipolar_transistor".spec_bytes())
            } else if n == 3 && (is("nfet") || is("mosfet")) {
                labeled("n_channel_e_mosfet_transistor".spec_bytes())
            } else if n == 3 && is("pfet") {
                labeled("p_channel_e_mosfet_transistor".spec_bytes())
            } else if n == 3 && is("opamp") {
                labeled("opamp_no_power".spec_bytes())
            } else if n == 5 && is("opamp") {
                labeled("opamp_with_power".spec_bytes())
            } else {
                chip_class()
            }
        },
    }
}

fn class(base: &str, strategy: MapStrategy, ftype: &str, numeric: Option<&str>) -> (r: CompClass)
    ensures
        r@ == (ClassV {
            symbol: Some((base.spec_bytes(), strategy)),
            ftype: ftype.spec_bytes(),
            numeric: match numeric {
                Some(f) => Some(f.spec_bytes()),
                None => None,
            },
        }),
{
    let r = CompClass {
        symbol: Some((lit(base), strategy)),
        ftype: lit(ftype),
        numeric: match numeric {
            Some(f) => Some(lit(f)),
            None => None,
        },
    };
    assert(r@ =~= (ClassV {
        symbol: Some((base.spec_bytes(), strategy)),
        ftype: ftype.spec_bytes(),
        numeric: match numeric {
            Some(f) => Some(f.spec_bytes()),
            None => None,
        },
    }));
    r
}

/// Classify a component by its `type` attribute and pin count.
pub fn symbol_class(ty: Option<&[u8]>, n: usize) -> (r: CompClass)
    ensures
        r@ == spec_symbol_class(crate::catalog::opt_slice(ty), n as nat),
{
    let t = match ty {
        None => {
            let r = CompClass { symbol: None, ftype: lit("simple_chip"), numeric: None };
            assert(r@ =~= chip_class());
            return r;
        },
        Some(t) => t,
    };
    let r = if n == 2 && is(t, "resistor") {
        class("boxresistor", MapStrategy::TwoPin, "simple_resistor", Some("resistance"))
    } else if n == 2 && is(t, "capacitor") {
        class("capacitor", MapStrategy::TwoPin, "simple_capacitor", Some("capacitance"))
    } else if n == 2 && is(t, "inductor") {
        class("inductor", MapStrategy::TwoPin, "simple_inductor", Some("inductance"))
    } else if n == 2 && is(t, "led") {
        class("led", MapStrategy::TwoPin, "simple_led", None)
    } else if n == 2 && is(t, "diode") {
        class("diode", MapStrategy::TwoPin, "simple_diode", None)
    } else if n == 2 && (is(t, "zener") || is(t, "tvs")) {
        class("zener_diode", MapStrategy::TwoPin, "simple_diode", None)
    } else if n == 2 && is(t, "rectifier") {
        class("rectifier_diode", MapStrategy::TwoPin, "simple_diode", None)
    } else if n == 2 && is(t, "schottky") {
        class("schottky_diode", MapStrategy::TwoPin, "simple_diode", None)
    } else if n == 2 && is(t, "crystal") {
        class("crystal", MapStrategy::TwoPin, "simple_chip", None)
    } else if n == 2 && is(t, "ferrite_bead") {
        class("ferrite_bead", MapStrategy::TwoPin, "simple_chip", None)
    } else if n == 2 && is(t, "thermistor") {
        class("boxresistor", MapStrategy::TwoPin, "simple_chip", None)
    } else if n == 2 && is(t, "fuse") {
        class("fuse", MapStrategy::TwoPin, "simple_chip", None)
    } else if n == 2 && is(t, "potentiometer") {
        class("potentiometer", MapStrategy::TwoPin, "simple_chip", None)
    } else if n == 2 && is(t, "battery") {
        class("battery", MapStrategy::TwoPin, "simple_chip", None)
    } else if n == 1 && is(t, "testpoint") {
        class("testpoint", MapStrategy::TwoPin, "simple_chip", None)
    } else if n == 3 && is(t, "npn") {
        class("npn_bipolar_transistor", MapStrategy::Labeled, "simple_chip", None)
    } else if n == 3 && is(t, "pnp") {
        class("pnp_bipolar_transistor", MapStrategy::Labeled, "simple_chip", None)
    } else if n == 3 && (is(t, "nfet") || is(t, "mosfet")) {
        class("n_channel_e_mosfet_transistor", MapStrategy::Labeled, "simple_chip", None)
    } else if n == 3 && is(t, "pfet") {
        class("p_channel_e_mosfet_transistor", MapStrategy::Labeled, "simple_chip", None)
    } else if n == 3 && is(t, "opamp") {
        class("opamp_no_power", MapStrategy::Labeled, "simple_chip", None)
    } else if n == 5 && is(t, "opamp") {
        class("opamp_with_power", MapStrategy::Labeled, "simple_chip", None)
    } else {
        let r = CompClass { symbol: None, ftype: lit("simple_chip"), numeric: None };
        assert(r@ =~= chip_class());
        r
    };
    r
}


// ---------------------------------------------------------------------------
// Mapping pins onto a symbol's ports
// ---------------------------------------------------------------------------

/// Labels equal ignoring ASCII case.
pub open spec fn same_label(a: Seq<u8>, b: Seq<u8>) -> bool {
    ascii_lower(a) == ascii_lower(b)
}

/// The first port holding a label equal to `label` ignoring ASCII case.
pub open spec fn port_with_label(ports: Seq<Seq<Seq<u8>>>, label: Seq<u8>) -> Option<int>
    decreases ports.len(),
{
    if ports.len() == 0 {
        None
    } else if exists|k: int| 0 <= k < ports[0].len() && same_label(#[trigger] ports[0][k], label) {
        Some(0)
    } else {
        match port_with_label(ports.drop_first(), label) {
            Some(i) => Some(i + 1),
            None => None,
        }
    }
}

/// The first port holding a label whose pin key is `key`.
pub open spec fn port_with_key(ports: Seq<Seq<Seq<u8>>>, key: Seq<u8>) -> Option<int>
    decreases ports.len(),
{
    if ports.len() == 0 {
        None
    } else if exists|k: int| 0 <= k < ports[0].len() && spec_pin_key(#[trigger] ports[0][k]) == key {
        Some(0)
    } else {
        match port_with_key(ports.drop_first(), key) {
            Some(i) => Some(i + 1),
            None => None,
        }
    }
}

/// The first pin named `name`.
pub open spec fn pin_position(pins: Seq<PinV>, name: Seq<u8>) -> Option<int>
    decreases pins.len(),
{
    if pins.len() == 0 {
        None
    } else if pins[0].0 == name {
        Some(0)
    } else {
        match pin_position(pins.drop_first(), name) {
            Some(i) => Some(i + 1),
            None => None,
        }
    }
}

/// Two-pin mapping of the first `k` split pins: pin `i` (left pins first,
/// then right) goes to the port labeled `i + 1`.
pub open spec fn two_pin_fold(ordered: Seq<PinV>, pins: Seq<PinV>, ports: Seq<Seq<Seq<u8>>>, k: nat) -> Option<
    Seq<Option<int>>,
>
    decreases k,
{
    if k == 0 {
        Some(Seq::new(ports.len(), |i: int| None))
    } else {
        match two_pin_fold(ordered, pins, ports, (k - 1) as nat) {
            None => None,
            Some(slots) => match port_with_label(ports, crate::bytes::decimal(k)) {
                None => None,
                Some(p) => match pin_position(pins, ordered[k - 1].0) {
                    None => None,
                    Some(idx) => Some(slots.update(p, Some(idx))),
                },
            },
        }
    }
}

/// Labeled mapping of the first `k` pins: each goes to the first port with
/// a label of the same pin key; two pins on one port fail.
pub open spec fn labeled_fold(pins: Seq<PinV>, ports: Seq<Seq<Seq<u8>>>, k: nat) -> Option<Seq<Option<int>>>
    decreases k,
{
    if k == 0 {
        Some(Seq::new(ports.len(), |i: int| None))
    } else {
        match labeled_fold(pins, ports, (k - 1) as nat) {
            None => None,
            Some(slots) => match port_with_key(ports, spec_pin_key(pins[k - 1].0)) {
                None => None,
                Some(p) => if slots[p] is Some {
                    None
                } else {
                    Some(slots.update(p, Some(k - 1)))
                },
            },
        }
    }
}

/// Every port got a pin.
pub open spec fn all_filled(slots: Seq<Option<int>>) -> bool {
    forall|i: int| 0 <= i < slots.len() ==> (#[trigger] slots[i]) is Some
}

/// The port slots a strategy fills, before checking that all are filled.
#[verifier::opaque]
pub open spec fn strategy_slots(strategy: MapStrategy, pins: Seq<PinV>, ports: Seq<Seq<Seq<u8>>>) -> Option<
    Seq<Option<int>>,
> {
    match strategy {
        MapStrategy::TwoPin => {
            let (left, right) = spec_split_pins(pins);
            let ordered = left + right;
            if ordered.len() != ports.len() {
                None
            } else {
                two_pin_fold(ordered, pins, ports, ordered.len())
            }
        },
        MapStrategy::Labeled => if pins.len() != ports.len() {
            None
        } else {
            labeled_fold(pins, ports, pins.len())
        },
    }
}

/// For each port of a symbol (given by its labels), the index of the
/// component pin drawn on it; `None` when the pins do not map, and the
/// component is drawn as a chip.
pub open spec fn spec_map_pins(strategy: MapStrategy, pins: Seq<PinV>, ports: Seq<Seq<Seq<u8>>>) -> Option<
    Seq<int>,
> {
    match strategy_slots(strategy, pins, ports) {
        Some(s) => if all_filled(s) {
            Some(s.map_values(|o: Option<int>| o.unwrap()))
        } else {
            None
        },
        None => None,
    }
}

proof fn lemma_strategy_slots_two(pins: Seq<PinV>, ports: Seq<Seq<Seq<u8>>>, ordered: Seq<PinV>)
    requires
        ordered == spec_split_pins(pins).0 + spec_split_pins(pins).1,
    ensures
        strategy_slots(MapStrategy::TwoPin, pins, ports) == if ordered.len() != ports.len() {
            None
        } else {
            two_pin_fold(ordered, pins, ports, ordered.len())
        },
{
    reveal(strategy_slots);
}

proof fn lemma_strategy_slots_labeled(pins: Seq<PinV>, ports: Seq<Seq<Seq<u8>>>)
    ensures
        strategy_slots(MapStrategy::Labeled, pins, ports) == if pins.len() != ports.len() {
            None
        } else {
            labeled_fold(pins, ports, pins.len())
        },
{
    reveal(strategy_slots);
}

proof fn lemma_two_fold_step(
    ordered: Seq<PinV>,
    pins: Seq<PinV>,
    ports: Seq<Seq<Seq<u8>>>,
    k: nat,
    slots: Seq<Option<int>>,
    label: Seq<u8>,
    p: Option<int>,
    idx: Option<int>,
    j: nat,
)
    requires
        two_pin_fold(ordered, pins, ports, k) == Some(slots),
        label == crate::bytes::decimal(k + 1),
        p == port_with_label(ports, label),
        idx == pin_position(pins, ordered[k as int].0),
        k + 1 <= j,
    ensures
        p is Some && idx is Some ==> two_pin_fold(ordered, pins, ports, k + 1) == Some(
            slots.update(p->0, Some(idx->0)),
        ),
        p is None || idx is None ==> two_pin_fold(ordered, pins, ports, j) is None,
{
    if p is None || idx is None {
        lemma_two_fold_none(ordered, pins, ports, k + 1, j);
    }
}

proof fn lemma_labeled_fold_step(
    pins: Seq<PinV>,
    ports: Seq<Seq<Seq<u8>>>,
    k: nat,
    slots: Seq<Option<int>>,
    key: Seq<u8>,
    p: Option<int>,
    j: nat,
)
    requires
        labeled_fold(pins, ports, k) == Some(slots),
        key == spec_pin_key(pins[k as int].0),
        p == port_with_key(ports, key),
        k + 1 <= j,
    ensures
        p is Some && slots[p->0] is None ==> labeled_fold(pins, ports, k + 1) == Some(
            slots.update(p->0, Some(k as int)),
        ),
        p is None || slots[p->0] is Some ==> labeled_fold(pins, ports, j) is None,
{
    if p is None || slots[p->0] is Some {
        lemma_labeled_fold_none(pins, ports, k + 1, j);
    }
}

proof fn lemma_two_fold_none(ordered: Seq<PinV>, pins: Seq<PinV>, ports: Seq<Seq<Seq<u8>>>, k: nat, j: nat)
    requires
        k <= j,
        two_pin_fold(ordered, pins, ports, k) is None,
    ensures
        two_pin_fold(ordered, pins, ports, j) is None,
    decreases j - k,
{
    if k < j {
        lemma_two_fold_none(ordered, pins, ports, k, (j - 1) as nat);
    }
}

proof fn lemma_labeled_fold_none(pins: Seq<PinV>, ports: Seq<Seq<Seq<u8>>>, k: nat, j: nat)
    requires
        k <= j,
        labeled_fold(pins, ports, k) is None,
    ensures
        labeled_fold(pins, ports, j) is None,
    decreases j - k,
{
    if k < j {
        lemma_labeled_fold_none(pins, ports, k, (j - 1) as nat);
    }
}

pub open spec fn labels_v(ports: Seq<Vec<Vec<u8>>>) -> Seq<Seq<Seq<u8>>> {
    ports.map_values(|p: Vec<Vec<u8>>| crate::writers::views(p@))
}

fn same_label_exec(a: &[u8], b: &[u8]) -> (r: bool)
    ensures
        r == same_label(a@, b@),
{
    let la = crate::catalog::lower_exec(a);
    let lb = crate::catalog::lower_exec(b);
    bytes_eq(la.as_slice(), lb.as_slice())
}

fn port_with_label_exec(ports: &Vec<Vec<Vec<u8>>>, label: &[u8]) -> (r: Option<usize>)
    ensures
        match r {
            Some(i) => port_with_label(labels_v(ports@), label@) == Some(i as int) && i < ports@.len(),
            None => port_with_label(labels_v(ports@), label@) is None,
        },
{
    let ghost pv = labels_v(ports@);
    let mut i: usize = 0;
    assert(pv.skip(0) =~= pv);
    while i < ports.len()
        invariant
            i <= ports@.len(),
            pv == labels_v(ports@),
            port_with_label(pv, label@) == match port_with_label(pv.skip(i as int), label@) {
                Some(j) => Some(j + i),
                None => None::<int>,
            },
        decreases ports.len() - i,
    {
        let ghost rest = pv.skip(i as int);
        proof {
            assert(rest.drop_first() =~= pv.skip(i + 1));
            assert(rest[0] == crate::writers::views(ports@[i as int]@));
        }
        let labels = &ports[i];
        let mut k: usize = 0;
        let mut hit = false;
        while k < labels.len()
            invariant_except_break
                !hit,
            invariant
                k <= labels@.len(),
                forall|m: int| 0 <= m < k ==> !same_label(#[trigger] labels@[m]@, label@),
            ensures
                hit ==> k < labels@.len() && same_label(labels@[k as int]@, label@),
                !hit ==> forall|m: int| 0 <= m < labels@.len() ==> !same_label(#[trigger] labels@[m]@, label@),
            decreases labels.len() - k,
        {
            if same_label_exec(labels[k].as_slice(), label) {
                hit = true;
                break;
            }
            k = k + 1;
        }
        if hit {
            proof {
                assert(rest[0][k as int] == labels@[k as int]@);
            }
            return Some(i);
        }
        proof {
            assert forall|m: int| 0 <= m < rest[0].len() implies !same_label(#[trigger] rest[0][m], label@) by {
                assert(rest[0][m] == labels@[m]@);
            }
        }
        i = i + 1;
    }
    proof {
        assert(pv.skip(i as int).len() == 0);
    }
    None
}

fn port_with_key_exec(ports: &Vec<Vec<Vec<u8>>>, key: &[u8]) -> (r: Option<usize>)
    ensures
        match r {
            Some(i) => port_with_key(labels_v(ports@), key@) == Some(i as int) && i < ports@.len(),
            None => port_with_key(labels_v(ports@), key@) is None,
        },
{
    let ghost pv = labels_v(ports@);
    let mut i: usize = 0;
    assert(pv.skip(0) =~= pv);
    while i < ports.len()
        invariant
            i <= ports@.len(),
            pv == labels_v(ports@),
            port_with_key(pv, key@) == match port_with_key(pv.skip(i as int), key@) {
                Some(j) => Some(j + i),
                None => None::<int>,
            },
        decreases ports.len() - i,
    {
        let ghost rest = pv.skip(i as int);
        proof {
            assert(rest.drop_first() =~= pv.skip(i + 1));
            assert(rest[0] == crate::writers::views(ports@[i as int]@));
        }
        let labels = &ports[i];
        let mut k: usize = 0;
        let mut hit = false;
        while k < labels.len()
            invariant_except_break
                !hit,
            invariant
                k <= labels@.len(),
                forall|m: int| 0 <= m < k ==> spec_pin_key(#[trigger] labels@[m]@) != key@,
            ensures
                hit ==> k < labels@.len() && spec_pin_key(labels@[k as int]@) == key@,
                !hit ==> forall|m: int| 0 <= m < labels@.len() ==> spec_pin_key(#[trigger] labels@[m]@) != key@,
            decreases labels.len() - k,
        {
            if bytes_eq(pin_key(labels[k].as_slice()).as_slice(), key) {
                hit = true;
                break;
            }
            k = k + 1;
        }
        if hit {
            proof {
                assert(rest[0][k as int] == labels@[k as int]@);
            }
            return Some(i);
        }
        proof {
            assert forall|m: int| 0 <= m < rest[0].len() implies spec_pin_key(#[trigger] rest[0][m]) != key@ by {
                assert(rest[0][m] == labels@[m]@);
            }
        }
        i = i + 1;
    }
    proof {
        assert(pv.skip(i as int).len() == 0);
    }
    None
}

fn pin_position_exec(pins: &[PinDoc], name: &[u8]) -> (r: Option<usize>)
    ensures
        match r {
            Some(i) => pin_position(pins_v(pins@), name@) == Some(i as int) && i < pins@.len(),
            None => pin_position(pins_v(pins@), name@) is None,
        },
{
    let ghost pv = pins_v(pins@);
    let mut i: usize = 0;
    assert(pv.skip(0) =~= pv);
    while i < pins.len()
        invariant
            i <= pins@.len(),
            pv == pins_v(pins@),
            pin_position(pv, name@) == match pin_position(pv.skip(i as int), name@) {
                Some(j) => Some(j + i),
                None => None::<int>,
            },
        decreases pins.len() - i,
    {
        proof {
            assert(pv.skip(i as int).drop_first() =~= pv.skip(i + 1));
            assert(pv.skip(i as int)[0] == pin_v(pins@[i as int]));
        }
        if bytes_eq(pins[i].name.as_slice(), name) {
            return Some(i);
        }
        i = i + 1;
    }
    proof {
        assert(pv.skip(i as int).len() == 0);
    }
    None
}

pub open spec fn slots_v(s: Seq<Option<usize>>) -> Seq<Option<int>> {
    s.map_values(|o: Option<usize>| match o {
        Some(v) => Some(v as int),
        None => None,
    })
}

fn empty_slots(n: usize) -> (r: Vec<Option<usize>>)
    ensures
        r@.len() == n,
        slots_v(r@) == Seq::new(n as nat, |i: int| None::<int>),
{
    let mut r: Vec<Option<usize>> = Vec::new();
    let mut i: usize = 0;
    while i < n
        invariant
            i <= n,
            r@.len() == i,
            forall|k: int| 0 <= k < i ==> (#[trigger] r@[k]) is None,
        decreases n - i,
    {
        r.push(None);
        i = i + 1;
    }
    assert(slots_v(r@) =~= Seq::new(n as nat, |i: int| None::<int>));
    r
}

fn finish_slots(slots: &Vec<Option<usize>>) -> (r: Option<Vec<usize>>)
    ensures
        match r {
            Some(v) => all_filled(slots_v(slots@)) && v@.map_values(|x: usize| x as int)
                == slots_v(slots@).map_values(|o: Option<int>| o.unwrap()),
            None => !all_filled(slots_v(slots@)),
        },
{
    let ghost sv = slots_v(slots@);
    let mut out: Vec<usize> = Vec::new();
    let mut i: usize = 0;
    while i < slots.len()
        invariant
            i <= slots@.len(),
            sv == slots_v(slots@),
            forall|k: int| 0 <= k < i ==> (#[trigger] sv[k]) is Some,
            out@.map_values(|x: usize| x as int) == sv.take(i as int).map_values(|o: Option<int>| o.unwrap()),
        decreases slots.len() - i,
    {
        match slots[i] {
            Some(v) => {
                let ghost before = out@;
                out.push(v);
                proof {
                    assert(sv[i as int] == Some(v as int));
                    assert(sv.take(i + 1) =~= sv.take(i as int).push(Some(v as int)));
                    assert(out@.map_values(|x: usize| x as int) =~= before.map_values(|x: usize| x as int).push(
                        v as int,
                    ));
                    assert(out@.map_values(|x: usize| x as int) =~= sv.take(i + 1).map_values(
                        |o: Option<int>| o.unwrap(),
                    ));
                }
            },
            None => {
                assert(sv[i as int] is None);
                return None;
            },
        }
        i = i + 1;
    }
    assert(sv.take(i as int) =~= sv);
    Some(out)
}

/// Map a component's pins onto a symbol's ports (each port given by its
/// labels): for each port, the index of the pin drawn on it, or `None`
/// when the pins do not map one to one.
pub fn map_pins(strategy: MapStrategy, pins: &[PinDoc], ports: &Vec<Vec<Vec<u8>>>) -> (r: Option<Vec<usize>>)
    ensures
        match r {
            Some(v) => spec_map_pins(strategy, pins_v(pins@), labels_v(ports@)) == Some(
                v@.map_values(|x: usize| x as int),
            ),
            None => spec_map_pins(strategy, pins_v(pins@), labels_v(ports@)) is None,
        },
{
    let ghost pv = pins_v(pins@);
    let ghost lv = labels_v(ports@);
    let mut slots = empty_slots(ports.len());
    match strategy {
        MapStrategy::TwoPin => {
            let (left, right) = split_pins(pins);
            let mut ordered = left;
            let mut right = right;
            let ghost lv_ = pins_v(ordered@);
            let ghost rv_ = pins_v(right@);
            ordered.append(&mut right);
            assert(pins_v(ordered@) =~= lv_ + rv_);
            let ghost ov = pins_v(ordered@);
            proof {
                lemma_strategy_slots_two(pv, lv, ov);
            }
            if ordered.len() != ports.len() {
                return None;
            }
            let mut k: usize = 0;
            while k < ordered.len()
                invariant
                    k <= ordered@.len(),
                    ordered@.len() == ports@.len(),
                    slots@.len() == ports@.len(),
                    pv == pins_v(pins@),
                    lv == labels_v(ports@),
                    ov == pins_v(ordered@),
                    strategy_slots(strategy, pv, lv) == two_pin_fold(ov, pv, lv, ov.len()),
                    two_pin_fold(ov, pv, lv, k as nat) == Some(slots_v(slots@)),
                decreases ordered.len() - k,
            {
                let label = crate::bytes::decimal_text((k + 1) as u64);
                let op = port_with_label_exec(ports, label.as_slice());
                let oi = pin_position_exec(pins, ordered[k].name.as_slice());
                proof {
                    assert(ov[k as int] == pin_v(ordered@[k as int]));
                    lemma_two_fold_step(
                        ov,
                        pv,
                        lv,
                        k as nat,
                        slots_v(slots@),
                        label@,
                        match op { Some(p) => Some(p as int), None => None },
                        match oi { Some(i) => Some(i as int), None => None },
                        ov.len(),
                    );
                }
                let (p, idx) = match (op, oi) {
                    (Some(p), Some(i)) => (p, i),
                    _ => {
                        return None;
                    },
                };
                let ghost before = slots@;
                slots.set(p, Some(idx));
                proof {
                    assert(slots_v(slots@) =~= slots_v(before).update(p as int, Some(idx as int)));
                }
                k = k + 1;
            }
            assert(strategy_slots(strategy, pv, lv) == Some(slots_v(slots@)));
        },
        MapStrategy::Labeled => {
            proof {
                lemma_strategy_slots_labeled(pv, lv);
            }
            if pins.len() != ports.len() {
                return None;
            }
            let mut k: usize = 0;
            while k < pins.len()
                invariant
                    k <= pins@.len(),
                    pins@.len() == ports@.len(),
                    slots@.len() == ports@.len(),
                    pv == pins_v(pins@),
                    lv == labels_v(ports@),
                    strategy_slots(strategy, pv, lv) == labeled_fold(pv, lv, pv.len()),
                    labeled_fold(pv, lv, k as nat) == Some(slots_v(slots@)),
                decreases pins.len() - k,
            {
                let key = pin_key(pins[k].name.as_slice());
                let op = port_with_key_exec(ports, key.as_slice());
                proof {
                    assert(pv[k as int] == pin_v(pins@[k as int]));
                    lemma_labeled_fold_step(
                        pv,
                        lv,
                        k as nat,
                        slots_v(slots@),
                        key@,
                        match op { Some(p) => Some(p as int), None => None },
                        pv.len(),
                    );
                }
                let p = match op {
                    Some(p) => p,
                    None => {
                        return None;
                    },
                };
                proof {
                    assert(slots_v(slots@)[p as int] is Some <==> slots@[p as int] is Some);
                }
                if slots[p].is_some() {
                    return None;
                }
                let ghost before = slots@;
                slots.set(p, Some(k));
                proof {
                    assert(slots_v(slots@) =~= slots_v(before).update(p as int, Some(k as int)));
                }
                k = k + 1;
            }
            assert(strategy_slots(strategy, pv, lv) == Some(slots_v(slots@)));
        },
    }
    finish_slots(&slots)
}

proof fn lemma_class_literals()
    ensures
        "simple_resistor".spec_bytes() =~= "simple_".spec_bytes() + "resistor".spec_bytes(),
        "simple_capacitor".spec_bytes() =~= "simple_".spec_bytes() + "capacitor".spec_bytes(),
        "simple_inductor".spec_bytes() =~= "simple_".spec_bytes() + "inductor".spec_bytes(),
        "simple_led".spec_bytes() =~= "simple_".spec_bytes() + "led".spec_bytes(),
        "simple_diode".spec_bytes() =~= "simple_".spec_bytes() + "diode".spec_bytes(),
        "simple_chip".spec_bytes() =~= "simple_".spec_bytes() + "chip".spec_bytes(),
        "boxresistor".spec_bytes() =~= "box".spec_bytes() + "resistor".spec_bytes(),
        "zener_diode".spec_bytes() =~= "zener_".spec_bytes() + "diode".spec_bytes(),
        "rectifier_diode".spec_bytes() =~= "rectifier_".spec_bytes() + "diode".spec_bytes(),
        "schottky_diode".spec_bytes() =~= "schottky_".spec_bytes() + "diode".spec_bytes(),
{
    reveal_strlit("simple_");
    reveal_strlit("simple_resistor");
    reveal_strlit("simple_capacitor");
    reveal_strlit("simple_inductor");
    reveal_strlit("simple_led");
    reveal_strlit("simple_diode");
    reveal_strlit("simple_chip");
    reveal_strlit("resistor");
    reveal_strlit("capacitor");
    reveal_strlit("inductor");
    reveal_strlit("led");
    reveal_strlit("diode");
    reveal_strlit("chip");
    reveal_strlit("box");
    reveal_strlit("boxresistor");
    reveal_strlit("zener_");
    reveal_strlit("zener_diode");
    reveal_strlit("rectifier_");
    reveal_strlit("rectifier_diode");
    reveal_strlit("schottky_");
    reveal_strlit("schottky_diode");
    broadcast use vstd::string::is_ascii_spec_bytes;

    assert(vstd::string::is_ascii("simple_"));
    assert(vstd::string::is_ascii("simple_resistor"));
    assert(vstd::string::is_ascii("simple_capacitor"));
    assert(vstd::string::is_ascii("simple_inductor"));
    assert(vstd::string::is_ascii("simple_led"));
    assert(vstd::string::is_ascii("simple_diode"));
    assert(vstd::string::is_ascii("simple_chip"));
    assert(vstd::string::is_ascii("resistor"));
    assert(vstd::string::is_ascii("capacitor"));
    assert(vstd::string::is_ascii("inductor"));
    assert(vstd::string::is_ascii("led"));
    assert(vstd::string::is_ascii("diode"));
    assert(vstd::string::is_ascii("chip"));
    assert(vstd::string::is_ascii("box"));
    assert(vstd::string::is_ascii("boxresistor"));
    assert(vstd::string::is_ascii("zener_"));
    assert(vstd::string::is_ascii("zener_diode"));
    assert(vstd::string::is_ascii("rectifier_"));
    assert(vstd::string::is_ascii("rectifier_diode"));
    assert(vstd::string::is_ascii("schottky_"));
    assert(vstd::string::is_ascii("schottky_diode"));
}

proof fn lemma_prefix_cancel(p: Seq<u8>, x: Seq<u8>, y: Seq<u8>)
    ensures
        p + x == p + y ==> x == y,
{
    if p + x == p + y {
        assert(x =~= (p + x).subrange(p.len() as int, (p + x).len() as int));
        assert(y =~= (p + y).subrange(p.len() as int, (p + y).len() as int));
    }
}

proof fn lemma_ends_with_concat(a: Seq<u8>, y: Seq<u8>)
    ensures
        crate::bytes::spec_ends_with(a + y, y),
{
    assert((a + y).subrange((a + y).len() - y.len(), (a + y).len() as int) =~= y);
}

/// The glyph a component is drawn with agrees with its element type: when
/// the element type is `simple_<x>` for a specific `x` (anything but the
/// generic `chip`), a symbol is chosen and its base names `x`, ending with
/// it (`capacitor` for `simple_capacitor`, `boxresistor` for
/// `simple_resistor`, `zener_diode` for `simple_diode`).
pub proof fn law_symbol_base_agrees_with_ftype(ty: Option<Seq<u8>>, n: nat, x: Seq<u8>)
    requires
        spec_symbol_class(ty, n).ftype == "simple_".spec_bytes() + x,
        x != "chip".spec_bytes(),
    ensures
        spec_symbol_class(ty, n).symbol matches Some((base, _)) && crate::bytes::spec_ends_with(base, x),
{
    lemma_class_literals();
    let p = "simple_".spec_bytes();
    lemma_prefix_cancel(p, x, "resistor".spec_bytes());
    lemma_prefix_cancel(p, x, "capacitor".spec_bytes());
    lemma_prefix_cancel(p, x, "inductor".spec_bytes());
    lemma_prefix_cancel(p, x, "led".spec_bytes());
    lemma_prefix_cancel(p, x, "diode".spec_bytes());
    lemma_prefix_cancel(p, x, "chip".spec_bytes());
    lemma_ends_with_concat("box".spec_bytes(), "resistor".spec_bytes());
    lemma_ends_with_concat(Seq::empty(), "capacitor".spec_bytes());
    lemma_ends_with_concat(Seq::empty(), "inductor".spec_bytes());
    lemma_ends_with_concat(Seq::empty(), "led".spec_bytes());
    lemma_ends_with_concat(Seq::empty(), "diode".spec_bytes());
    lemma_ends_with_concat("zener_".spec_bytes(), "diode".spec_bytes());
    lemma_ends_with_concat("rectifier_".spec_bytes(), "diode".spec_bytes());
    lemma_ends_with_concat("schottky_".spec_bytes(), "diode".spec_bytes());
    assert(Seq::<u8>::empty() + "capacitor".spec_bytes() =~= "capacitor".spec_bytes());
    assert(Seq::<u8>::empty() + "inductor".spec_bytes() =~= "inductor".spec_bytes());
    assert(Seq::<u8>::empty() + "led".spec_bytes() =~= "led".spec_bytes());
    assert(Seq::<u8>::empty() + "diode".spec_bytes() =~= "diode".spec_bytes());
}

proof fn lemma_type_literals()
    ensures
        "capacitor".spec_bytes() != "resistor".spec_bytes(),
        "inductor".spec_bytes() != "resistor".spec_bytes(),
        "inductor".spec_bytes() != "capacitor".spec_bytes(),
        "led".spec_bytes() != "resistor".spec_bytes(),
        "led".spec_bytes() != "capacitor".spec_bytes(),
        "led".spec_bytes() != "inductor".spec_bytes(),
        "diode".spec_bytes() != "resistor".spec_bytes(),
        "diode".spec_bytes() != "capacitor".spec_bytes(),
        "diode".spec_bytes() != "inductor".spec_bytes(),
        "diode".spec_bytes() != "led".spec_bytes(),
{
    reveal_strlit("resistor");
    reveal_strlit("capacitor");
    reveal_strlit("inductor");
    reveal_strlit("led");
    reveal_strlit("diode");
    broadcast use vstd::string::is_ascii_spec_bytes;

    assert(vstd::string::is_ascii("resistor"));
    assert(vstd::string::is_ascii("capacitor"));
    assert(vstd::string::is_ascii("inductor"));
    assert(vstd::string::is_ascii("led"));
    assert(vstd::string::is_ascii("diode"));
    assert("inductor".spec_bytes()[0] != "resistor".spec_bytes()[0]);
}

/// A two-pin capacitor, inductor, LED or diode is drawn with the glyph of
/// its own name, as the element type `simple_<name>`.
pub proof fn law_two_pin_types_use_own_glyph(t: Seq<u8>)
    requires
        t == "capacitor".spec_bytes() || t == "inductor".spec_bytes() || t == "led".spec_bytes() || t
            == "diode".spec_bytes(),
    ensures
        spec_symbol_class(Some(t), 2).symbol == Some((t, MapStrategy::TwoPin)),
        spec_symbol_class(Some(t), 2).ftype == "simple_".spec_bytes() + t,
{
    lemma_type_literals();
    lemma_class_literals();
}

proof fn lemma_quantity_literals()
    ensures
        "simple_resistor".spec_bytes() =~= "simple_".spec_bytes() + "resist".spec_bytes() + "or".spec_bytes(),
        "simple_capacitor".spec_bytes() =~= "simple_".spec_bytes() + "capacit".spec_bytes() + "or".spec_bytes(),
        "simple_inductor".spec_bytes() =~= "simple_".spec_bytes() + "induct".spec_bytes() + "or".spec_bytes(),
        "resistance".spec_bytes() =~= "resist".spec_bytes() + "ance".spec_bytes(),
        "capacitance".spec_bytes() =~= "capacit".spec_bytes() + "ance".spec_bytes(),
        "inductance".spec_bytes() =~= "induct".spec_bytes() + "ance".spec_bytes(),
{
    reveal_strlit("simple_");
    reveal_strlit("simple_resistor");
    reveal_strlit("simple_capacitor");
    reveal_strlit("simple_inductor");
    reveal_strlit("resist");
    reveal_strlit("capacit");
    reveal_strlit("induct");
    reveal_strlit("or");
    reveal_strlit("ance");
    reveal_strlit("resistance");
    reveal_strlit("capacitance");
    reveal_strlit("inductance");
    broadcast use vstd::string::is_ascii_spec_bytes;

    assert(vstd::string::is_ascii("simple_"));
    assert(vstd::string::is_ascii("simple_resistor"));
    assert(vstd::string::is_ascii("simple_capacitor"));
    assert(vstd::string::is_ascii("simple_inductor"));
    assert(vstd::string::is_ascii("resist"));
    assert(vstd::string::is_ascii("capacit"));
    assert(vstd::string::is_ascii("induct"));
    assert(vstd::string::is_ascii("or"));
    assert(vstd::string::is_ascii("ance"));
    assert(vstd::string::is_ascii("resistance"));
    assert(vstd::string::is_ascii("capacitance"));
    assert(vstd::string::is_ascii("inductance"));
}

/// The field whose number a glyph shows is the element's own quantity: a
/// class typed `simple_<stem>or` reads `<stem>ance` (resistance for a
/// resistor, capacitance for a capacitor, inductance for an inductor), and
/// only those classes read a number at all.
pub proof fn law_numeric_field_is_the_quantity(ty: Option<Seq<u8>>, n: nat)
    ensures
        spec_symbol_class(ty, n).numeric matches Some(q) ==> exists|stem: Seq<u8>|
            spec_symbol_class(ty, n).ftype == "simple_".spec_bytes() + stem + "or".spec_bytes() && q == #[trigger] (stem
                + "ance".spec_bytes()),
{
    lemma_quantity_literals();
    let c = spec_symbol_class(ty, n);
    if let Some(q) = c.numeric {
        if c.ftype == "simple_resistor".spec_bytes() {
            assert(c.ftype == "simple_".spec_bytes() + "resist".spec_bytes() + "or".spec_bytes());
        } else if c.ftype == "simple_capacitor".spec_bytes() {
            assert(c.ftype == "simple_".spec_bytes() + "capacit".spec_bytes() + "or".spec_bytes());
        } else {
            assert(c.ftype == "simple_".spec_bytes() + "induct".spec_bytes() + "or".spec_bytes());
        }
    }
}

/// The drawing strategy follows the pin count: a two-pin glyph is chosen
/// only for a part with two pins (one for a test point), a labeled glyph
/// only for one with three or five, and a part without a type is a chip.
pub proof fn law_strategy_fits_pin_count(ty: Option<Seq<u8>>, n: nat)
    ensures
        spec_symbol_class(ty, n).symbol matches Some((_, MapStrategy::TwoPin)) ==> n == 2 || n == 1,
        spec_symbol_class(ty, n).symbol matches Some((_, MapStrategy::Labeled)) ==> n == 3 || n == 5,
        ty is None ==> spec_symbol_class(ty, n) == chip_class(),
{
}

} // verus!
