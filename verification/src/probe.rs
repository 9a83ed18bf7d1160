//! The placement preflight's decisions. The exact instantiation is
//! evaluated in a scratch file before the board is touched; the
//! evaluator's own diagnostics say which inputs are required and which
//! constructor each wants, and each round feeds that back into the next
//! scratch text. Evaluating is the caller's; what to write next, and when
//! to give up, is decided here.
use vstd::prelude::*;
use vstd::string::StringSliceAdditionalSpecFns;
use crate::bytes::{bytes_eq, copy, lit, slice_copy};
use crate::placement::{attr_key_listed, plan_view};
use crate::text::push_all;

verus! {

/// A map with byte-string keys, as values, in key order.
pub type Assoc = Seq<(Seq<u8>, Seq<u8>)>;

/// `m` with `k` set to `v`: an existing entry replaced, else a new one
/// placed before the first larger key (a sorted map's insert).
pub open spec fn assoc_insert<V>(m: Seq<(Seq<u8>, V)>, k: Seq<u8>, v: V) -> Seq<(Seq<u8>, V)>
    decreases m.len(),
{
    if m.len() == 0 {
        seq![(k, v)]
    } else if m[0].0 == k {
        seq![(k, v)] + m.drop_first()
    } else if crate::bytes::bytes_lt(k, m[0].0) {
        seq![(k, v)] + m
    } else {
        seq![m[0]] + assoc_insert(m.drop_first(), k, v)
    }
}

pub open spec fn assoc_has(m: Assoc, k: Seq<u8>) -> bool {
    exists|i: int| 0 <= i < m.len() && (#[trigger] m[i]).0 == k
}

/// Where an insert of `k` stops: every entry before `j` has a smaller key.
pub open spec fn insert_stop<V>(m: Seq<(Seq<u8>, V)>, k: Seq<u8>, j: int) -> bool {
    &&& 0 <= j <= m.len()
    &&& forall|i: int| 0 <= i < j ==> (#[trigger] m[i]).0 != k && !crate::bytes::bytes_lt(k, m[i].0)
    &&& j == m.len() || m[j].0 == k || crate::bytes::bytes_lt(k, m[j].0)
}

pub proof fn lemma_assoc_insert<V>(m: Seq<(Seq<u8>, V)>, k: Seq<u8>, v: V, j: int)
    requires
        insert_stop(m, k, j),
    ensures
        assoc_insert(m, k, v) == (if j < m.len() && m[j].0 == k {
            m.take(j) + seq![(k, v)] + m.skip(j + 1)
        } else {
            m.take(j) + seq![(k, v)] + m.skip(j)
        }),
    decreases m.len(),
{
    if j == 0 {
        assert(m.take(0) + seq![(k, v)] + m.skip(1) =~= seq![(k, v)] + m.drop_first());
        assert(m.take(0) + seq![(k, v)] + m.skip(0) =~= seq![(k, v)] + m);
    } else {
        let d = m.drop_first();
        assert(insert_stop(d, k, j - 1)) by {
            assert forall|i: int| 0 <= i < j - 1 implies (#[trigger] d[i]).0 != k
                && !crate::bytes::bytes_lt(k, d[i].0) by {
                assert(d[i] == m[i + 1]);
            }
            if j < m.len() {
                assert(d[j - 1] == m[j]);
            }
        }
        lemma_assoc_insert(d, k, v, j - 1);
        assert(m[0].0 != k && !crate::bytes::bytes_lt(k, m[0].0));
        if j < m.len() && m[j].0 == k {
            assert(d[j - 1] == m[j]);
            assert(seq![m[0]] + (d.take(j - 1) + seq![(k, v)] + d.skip(j)) =~= m.take(j) + seq![
                (k, v),
            ] + m.skip(j + 1));
        } else {
            if j < m.len() {
                assert(d[j - 1] == m[j]);
            }
            assert(seq![m[0]] + (d.take(j - 1) + seq![(k, v)] + d.skip(j - 1)) =~= m.take(j)
                + seq![(k, v)] + m.skip(j));
        }
    }
}

/// Set `k` to `v` in a key-ordered map.
pub fn map_insert(m: &Vec<(Vec<u8>, Vec<u8>)>, k: &[u8], v: &[u8]) -> (r: Vec<(Vec<u8>, Vec<u8>)>)
    ensures
        plan_view(r@) == assoc_insert(plan_view(m@), k@, v@),
{
    let ghost mv = plan_view(m@);
    let mut j: usize = 0;
    while j < m.len()
        invariant
            j <= m@.len(),
            mv == plan_view(m@),
            forall|i: int| 0 <= i < j ==> (#[trigger] mv[i]).0 != k@ && !crate::bytes::bytes_lt(
                k@,
                mv[i].0,
            ),
        ensures
            j <= m@.len(),
            mv == plan_view(m@),
            forall|i: int| 0 <= i < j ==> (#[trigger] mv[i]).0 != k@ && !crate::bytes::bytes_lt(
                k@,
                mv[i].0,
            ),
            j == m@.len() || mv[j as int].0 == k@ || crate::bytes::bytes_lt(k@, mv[j as int].0),
        decreases m.len() - j,
    {
        if bytes_eq(m[j].0.as_slice(), k) || crate::bytes::lt_bytes(k, m[j].0.as_slice()) {
            break;
        }
        j = j + 1;
    }
    let replace = j < m.len() && bytes_eq(m[j].0.as_slice(), k);
    proof {
        assert(insert_stop(mv, k@, j as int));
        lemma_assoc_insert(mv, k@, v@, j as int);
    }
    let mut out: Vec<(Vec<u8>, Vec<u8>)> = Vec::new();
    let mut i: usize = 0;
    assert(plan_view(out@) =~= mv.take(0));
    while i < j
        invariant
            i <= j <= m@.len(),
            mv == plan_view(m@),
            plan_view(out@) == mv.take(i as int),
        decreases j - i,
    {
        let ghost old_out = out@;
        let e = (copy(&m[i].0), copy(&m[i].1));
        out.push(e);
        proof {
            crate::text::lemma_map_push(old_out, e, |e: (Vec<u8>, Vec<u8>)| (e.0@, e.1@));
            assert(mv.take(i + 1) =~= mv.take(i as int).push(mv[i as int]));
        }
        i = i + 1;
    }
    let ghost old_out = out@;
    let e = (slice_copy(k, 0, k.len()), slice_copy(v, 0, v.len()));
    assert(e.0@ =~= k@);
    assert(e.1@ =~= v@);
    out.push(e);
    proof {
        crate::text::lemma_map_push(old_out, e, |e: (Vec<u8>, Vec<u8>)| (e.0@, e.1@));
        assert(plan_view(out@) =~= mv.take(j as int) + seq![(k@, v@)]);
    }
    let mut i: usize = if replace {
        j + 1
    } else {
        j
    };
    let ghost start = i;
    let ghost head = plan_view(out@);
    while i < m.len()
        invariant
            start <= i <= m@.len(),
            mv == plan_view(m@),
            plan_view(out@) == head + mv.subrange(start as int, i as int),
        decreases m.len() - i,
    {
        let ghost old_out = out@;
        let e = (copy(&m[i].0), copy(&m[i].1));
        out.push(e);
        proof {
            crate::text::lemma_map_push(old_out, e, |e: (Vec<u8>, Vec<u8>)| (e.0@, e.1@));
            assert(head + mv.subrange(start as int, i + 1) =~= (head + mv.subrange(
                start as int,
                i as int,
            )).push(mv[i as int]));
        }
        i = i + 1;
    }
    assert(mv.subrange(start as int, m@.len() as int) =~= mv.skip(start as int));
    out
}

/// Where the preflight stands between evaluations.
pub struct ProbeState {
    /// io -> constructor, in io order.
    pub pins: Vec<(Vec<u8>, Vec<u8>)>,
    /// Constructor symbol -> load module (board form), in symbol order.
    pub loads: Vec<(Vec<u8>, Vec<u8>)>,
    /// Some round solved an input.
    pub solved_any: bool,
    /// The last round solved an input.
    pub progressed: bool,
    /// The first error of the last evaluation.
    pub last_err: Vec<u8>,
    pub rounds: usize,
}

/// The state before the first evaluation.
pub fn probe_start() -> (r: ProbeState)
    ensures
        r.pins@.len() == 0,
        r.loads@.len() == 0,
        !r.solved_any,
        r.progressed,
        r.last_err@.len() == 0,
        r.rounds == 0,
{
    ProbeState {
        pins: Vec::new(),
        loads: Vec::new(),
        solved_any: false,
        progressed: true,
        last_err: Vec::new(),
        rounds: 0,
    }
}

/// `, IO=Ctor("PROBE_IO")` for each pin.
pub open spec fn probe_pins_text(pins: Assoc) -> Seq<u8>
    decreases pins.len(),
{
    if pins.len() == 0 {
        Seq::empty()
    } else {
        probe_pins_text(pins.drop_last()) + ", ".spec_bytes() + pins.last().0 + "=".spec_bytes()
            + pins.last().1 + "(\"PROBE_".spec_bytes() + pins.last().0 + "\")".spec_bytes()
    }
}

/// The scratch file: the loads, the module binding, and one instantiation
/// with the attributes and every pin solved so far.
pub open spec fn spec_probe_text(
    module: Seq<u8>,
    attrs: Seq<(Vec<u8>, Vec<u8>)>,
    loads: Assoc,
    pins: Assoc,
) -> Seq<u8> {
    crate::placement::loads_text(loads) + "M = Module(".spec_bytes() + crate::quote::spec_debug_str(
        module,
    ) + ")\n".spec_bytes() + "M(name=\"PROBE\"".spec_bytes() + crate::placement::attrs_text(attrs)
        + probe_pins_text(pins) + ")\n".spec_bytes()
}

pub fn probe_text(module: &[u8], attrs: &Vec<(Vec<u8>, Vec<u8>)>, st: &ProbeState) -> (r: Vec<u8>)
    ensures
        r@ == spec_probe_text(module@, attrs@, plan_view(st.loads@), plan_view(st.pins@)),
{
    let ghost lv = plan_view(st.loads@);
    let mut out: Vec<u8> = Vec::new();
    let mut i: usize = 0;
    assert(crate::placement::loads_text(lv.take(0)) =~= Seq::<u8>::empty());
    while i < st.loads.len()
        invariant
            i <= st.loads@.len(),
            lv == plan_view(st.loads@),
            out@ == crate::placement::loads_text(lv.take(i as int)),
        decreases st.loads.len() - i,
    {
        proof {
            assert(lv.take(i + 1).drop_last() =~= lv.take(i as int));
            assert(lv.take(i + 1).last() == (st.loads@[i as int].0@, st.loads@[i as int].1@));
        }
        push_all(&mut out, lit("load(").as_slice());
        push_all(&mut out, crate::quote::debug_quote(st.loads[i].1.as_slice()).as_slice());
        push_all(&mut out, lit(", ").as_slice());
        push_all(&mut out, crate::quote::debug_quote(st.loads[i].0.as_slice()).as_slice());
        push_all(&mut out, lit(")\n").as_slice());
        i = i + 1;
    }
    assert(lv.take(lv.len() as int) =~= lv);
    push_all(&mut out, lit("M = Module(").as_slice());
    push_all(&mut out, crate::quote::debug_quote(module).as_slice());
    push_all(&mut out, lit(")\n").as_slice());
    push_all(&mut out, lit("M(name=\"PROBE\"").as_slice());
    let mut a: Vec<u8> = Vec::new();
    let mut k: usize = 0;
    assert(crate::placement::attrs_text(attrs@.take(0)) =~= Seq::<u8>::empty());
    while k < attrs.len()
        invariant
            k <= attrs@.len(),
            a@ == crate::placement::attrs_text(attrs@.take(k as int)),
        decreases attrs.len() - k,
    {
        proof {
            assert(attrs@.take(k + 1).drop_last() =~= attrs@.take(k as int));
            assert(attrs@.take(k + 1).last() == attrs@[k as int]);
        }
        push_all(&mut a, lit(", ").as_slice());
        push_all(&mut a, attrs[k].0.as_slice());
        push_all(&mut a, lit("=").as_slice());
        push_all(&mut a, crate::quote::debug_quote(attrs[k].1.as_slice()).as_slice());
        k = k + 1;
    }
    assert(attrs@.take(attrs@.len() as int) =~= attrs@);
    push_all(&mut out, a.as_slice());
    let ghost pv = plan_view(st.pins@);
    let mut p: Vec<u8> = Vec::new();
    let mut j: usize = 0;
    assert(probe_pins_text(pv.take(0)) =~= Seq::<u8>::empty());
    while j < st.pins.len()
        invariant
            j <= st.pins@.len(),
            pv == plan_view(st.pins@),
            p@ == probe_pins_text(pv.take(j as int)),
        decreases st.pins.len() - j,
    {
        proof {
            assert(pv.take(j + 1).drop_last() =~= pv.take(j as int));
            assert(pv.take(j + 1).last() == (st.pins@[j as int].0@, st.pins@[j as int].1@));
        }
        push_all(&mut p, lit(", ").as_slice());
        push_all(&mut p, st.pins[j].0.as_slice());
        push_all(&mut p, lit("=").as_slice());
        push_all(&mut p, st.pins[j].1.as_slice());
        push_all(&mut p, lit("(\"PROBE_").as_slice());
        push_all(&mut p, st.pins[j].0.as_slice());
        push_all(&mut p, lit("\")").as_slice());
        j = j + 1;
    }
    assert(pv.take(pv.len() as int) =~= pv);
    push_all(&mut out, p.as_slice());
    push_all(&mut out, lit(")\n").as_slice());
    out
}

/// The first value stored under `k`.
pub open spec fn assoc_get(m: Assoc, k: Seq<u8>) -> Option<Seq<u8>>
    decreases m.len(),
{
    if m.len() == 0 {
        None
    } else if m[0].0 == k {
        Some(m[0].1)
    } else {
        assoc_get(m.drop_first(), k)
    }
}

/// The constructor a newly required input starts with: the probe's
/// standalone net kind when it is `Power` or `Ground`, else `Net`.
pub open spec fn hint_ctor(hints: Assoc, input: Seq<u8>) -> Seq<u8> {
    match assoc_get(hints, input) {
        Some(h) => if h == "Power".spec_bytes() {
            "Power".spec_bytes()
        } else if h == "Ground".spec_bytes() {
            "Ground".spec_bytes()
        } else {
            "Net".spec_bytes()
        },
        None => "Net".spec_bytes(),
    }
}

pub open spec fn builtin_ctor(c: Seq<u8>) -> bool {
    c == "Net".spec_bytes() || c == "Power".spec_bytes() || c == "Ground".spec_bytes()
}

/// The loads after making `ctor` constructible: built-ins and loaded
/// symbols need nothing; another symbol needs the module's load of it, or
/// cannot be constructed (`None`).
pub open spec fn ensure_ctor(ctor: Seq<u8>, loads: Assoc, type_loads: Assoc) -> Option<Assoc> {
    if builtin_ctor(ctor) || assoc_has(loads, ctor) {
        Some(loads)
    } else {
        match assoc_get(type_loads, ctor) {
            Some(m) => Some(assoc_insert(loads, ctor, m)),
            None => None,
        }
    }
}

/// `Input 'X' is required`: the input.
pub open spec fn required_input(msg: Seq<u8>) -> Option<Seq<u8>> {
    crate::names::spec_between(msg, "Input '".spec_bytes(), "' is required".spec_bytes())
}

/// `Input 'X' has wrong net type: expected T, …`: the input.
pub open spec fn wrong_type_input(msg: Seq<u8>) -> Option<Seq<u8>> {
    crate::names::spec_between(msg, "Input '".spec_bytes(), "' has wrong net type".spec_bytes())
}

pub open spec fn expected_type(msg: Seq<u8>) -> Option<Seq<u8>> {
    crate::names::spec_between(msg, "expected ".spec_bytes(), ",".spec_bytes())
}

/// One diagnostic applied to (pins, loads, progressed): a required input
/// gains a pin, a wrongly typed pin changes constructor; `Err(ctor)` when
/// the constructor cannot be built.
pub open spec fn apply_msg(
    st: (Assoc, Assoc, bool),
    msg: Seq<u8>,
    attrs: Seq<(Vec<u8>, Vec<u8>)>,
    type_loads: Assoc,
    hints: Assoc,
) -> Result<(Assoc, Assoc, bool), Seq<u8>> {
    let (pins, loads, progressed) = st;
    match required_input(msg) {
        Some(input) => if !assoc_has(pins, input) && !attr_key_listed(attrs, input) {
            let ctor = hint_ctor(hints, input);
            match ensure_ctor(ctor, loads, type_loads) {
                None => Err(ctor),
                Some(l2) => Ok((assoc_insert(pins, input, ctor), l2, true)),
            }
        } else {
            Ok(st)
        },
        None => match wrong_type_input(msg) {
            Some(input) => match expected_type(msg) {
                Some(exp) => if assoc_has(pins, input) {
                    match ensure_ctor(exp, loads, type_loads) {
                        None => Err(exp),
                        Some(l2) => Ok((assoc_insert(pins, input, exp), l2, true)),
                    }
                } else {
                    Ok(st)
                },
                None => Ok(st),
            },
            None => Ok(st),
        },
    }
}

/// Every diagnostic of one evaluation applied in order.
pub open spec fn apply_msgs(
    st: (Assoc, Assoc, bool),
    msgs: Seq<Vec<u8>>,
    attrs: Seq<(Vec<u8>, Vec<u8>)>,
    type_loads: Assoc,
    hints: Assoc,
) -> Result<(Assoc, Assoc, bool), Seq<u8>>
    decreases msgs.len(),
{
    if msgs.len() == 0 {
        Ok(st)
    } else {
        match apply_msgs(st, msgs.drop_last(), attrs, type_loads, hints) {
            Err(c) => Err(c),
            Ok(s2) => apply_msg(s2, msgs.last()@, attrs, type_loads, hints),
        }
    }
}

/// What the caller does after an evaluation that reported errors.
pub enum ProbeNext {
    /// Evaluate this scratch text next.
    Evaluate { text: Vec<u8> },
    /// The evaluator engaged but what it reports cannot be solved: refuse
    /// with this error.
    Refuse { message: Vec<u8> },
    /// The module never evaluated; fall back to the static pins.
    Unresolved,
}

/// The decision after a round: another evaluation while it progressed and
/// rounds remain (six in all), else a refusal when something was solved,
/// else the fallback.
pub open spec fn spec_probe_next(
    module: Seq<u8>,
    attrs: Seq<(Vec<u8>, Vec<u8>)>,
    pins: Assoc,
    loads: Assoc,
    progressed: bool,
    solved_any: bool,
    last_err: Seq<u8>,
    rounds: nat,
) -> (bool, Seq<u8>) {
    if progressed && rounds < 6 {
        (true, spec_probe_text(module, attrs, loads, pins))
    } else if solved_any {
        (false, last_err)
    } else {
        (false, Seq::empty())
    }
}

pub open spec fn state_view(st: ProbeState) -> (Assoc, Assoc, bool) {
    (plan_view(st.pins@), plan_view(st.loads@), st.progressed)
}

fn assoc_get_exec(m: &Vec<(Vec<u8>, Vec<u8>)>, k: &[u8]) -> (r: Option<Vec<u8>>)
    ensures
        r matches Some(v) ==> assoc_get(plan_view(m@), k@) == Some(v@),
        r is None ==> assoc_get(plan_view(m@), k@) is None,
{
    let ghost mv = plan_view(m@);
    let mut i: usize = 0;
    assert(mv.skip(0) =~= mv);
    while i < m.len()
        invariant
            i <= m@.len(),
            mv == plan_view(m@),
            assoc_get(mv, k@) == assoc_get(mv.skip(i as int), k@),
        decreases m.len() - i,
    {
        proof {
            assert(mv.skip(i as int)[0] == mv[i as int]);
            assert(mv.skip(i as int).drop_first() =~= mv.skip(i + 1));
        }
        if bytes_eq(m[i].0.as_slice(), k) {
            return Some(copy(&m[i].1));
        }
        i = i + 1;
    }
    None
}

fn assoc_has_exec(m: &Vec<(Vec<u8>, Vec<u8>)>, k: &[u8]) -> (r: bool)
    ensures
        r == assoc_has(plan_view(m@), k@),
{
    let ghost mv = plan_view(m@);
    let mut i: usize = 0;
    while i < m.len()
        invariant
            i <= m@.len(),
            mv == plan_view(m@),
            forall|j: int| 0 <= j < i ==> (#[trigger] mv[j]).0 != k@,
        decreases m.len() - i,
    {
        if bytes_eq(m[i].0.as_slice(), k) {
            assert(mv[i as int].0 == k@);
            return true;
        }
        i = i + 1;
    }
    false
}

fn ensure_ctor_exec(ctor: &[u8], loads: &Vec<(Vec<u8>, Vec<u8>)>, type_loads: &Vec<(Vec<u8>, Vec<u8>)>) -> (r:
    Option<Vec<(Vec<u8>, Vec<u8>)>>)
    ensures
        r matches Some(l) ==> ensure_ctor(ctor@, plan_view(loads@), plan_view(type_loads@))
            == Some(plan_view(l@)),
        r is None ==> ensure_ctor(ctor@, plan_view(loads@), plan_view(type_loads@)) is None,
{
    if bytes_eq(ctor, lit("Net").as_slice()) || bytes_eq(ctor, lit("Power").as_slice()) || bytes_eq(
        ctor,
        lit("Ground").as_slice(),
    ) || assoc_has_exec(loads, ctor) {
        let mut same: Vec<(Vec<u8>, Vec<u8>)> = Vec::new();
        let mut i: usize = 0;
        while i < loads.len()
            invariant
                i <= loads@.len(),
                plan_view(same@) == plan_view(loads@).take(i as int),
            decreases loads.len() - i,
        {
            let ghost old = same@;
            let e = (copy(&loads[i].0), copy(&loads[i].1));
            same.push(e);
            proof {
                crate::text::lemma_map_push(old, e, |e: (Vec<u8>, Vec<u8>)| (e.0@, e.1@));
                assert(plan_view(loads@).take(i + 1) =~= plan_view(loads@).take(i as int).push(
                    plan_view(loads@)[i as int],
                ));
            }
            i = i + 1;
        }
        assert(plan_view(loads@).take(loads@.len() as int) =~= plan_view(loads@));
        return Some(same);
    }
    match assoc_get_exec(type_loads, ctor) {
        Some(m) => Some(map_insert(loads, ctor, m.as_slice())),
        None => None,
    }
}

fn hint_ctor_exec(hints: &Vec<(Vec<u8>, Vec<u8>)>, input: &[u8]) -> (r: Vec<u8>)
    ensures
        r@ == hint_ctor(plan_view(hints@), input@),
{
    match assoc_get_exec(hints, input) {
        Some(h) => if bytes_eq(h.as_slice(), lit("Power").as_slice()) {
            lit("Power")
        } else if bytes_eq(h.as_slice(), lit("Ground").as_slice()) {
            lit("Ground")
        } else {
            lit("Net")
        },
        None => lit("Net"),
    }
}

fn apply_msg_exec(
    pins: Vec<(Vec<u8>, Vec<u8>)>,
    loads: Vec<(Vec<u8>, Vec<u8>)>,
    progressed: bool,
    msg: &[u8],
    attrs: &Vec<(Vec<u8>, Vec<u8>)>,
    type_loads: &Vec<(Vec<u8>, Vec<u8>)>,
    hints: &Vec<(Vec<u8>, Vec<u8>)>,
) -> (r: Result<(Vec<(Vec<u8>, Vec<u8>)>, Vec<(Vec<u8>, Vec<u8>)>, bool), Vec<u8>>)
    ensures
        r matches Ok((p2, l2, g2)) ==> apply_msg(
            (plan_view(pins@), plan_view(loads@), progressed),
            msg@,
            attrs@,
            plan_view(type_loads@),
            plan_view(hints@),
        ) == Ok::<(Assoc, Assoc, bool), Seq<u8>>((plan_view(p2@), plan_view(l2@), g2)),
        r matches Err(c) ==> apply_msg(
            (plan_view(pins@), plan_view(loads@), progressed),
            msg@,
            attrs@,
            plan_view(type_loads@),
            plan_view(hints@),
        ) == Err::<(Assoc, Assoc, bool), Seq<u8>>(c@),
{
    match crate::names::between(msg, lit("Input '").as_slice(), lit("' is required").as_slice()) {
        Some(input) => {
            if !assoc_has_exec(&pins, input.as_slice()) && !crate::placement::attr_key_listed_exec(
                attrs,
                input.as_slice(),
            ) {
                let ctor = hint_ctor_exec(hints, input.as_slice());
                match ensure_ctor_exec(ctor.as_slice(), &loads, type_loads) {
                    None => Err(ctor),
                    Some(l2) => Ok(
                        (map_insert(&pins, input.as_slice(), ctor.as_slice()), l2, true),
                    ),
                }
            } else {
                Ok((pins, loads, progressed))
            }
        },
        None => match crate::names::between(
            msg,
            lit("Input '").as_slice(),
            lit("' has wrong net type").as_slice(),
        ) {
            Some(input) => match crate::names::between(
                msg,
                lit("expected ").as_slice(),
                lit(",").as_slice(),
            ) {
                Some(exp) => if assoc_has_exec(&pins, input.as_slice()) {
                    match ensure_ctor_exec(exp.as_slice(), &loads, type_loads) {
                        None => Err(exp),
                        Some(l2) => Ok(
                            (map_insert(&pins, input.as_slice(), exp.as_slice()), l2, true),
                        ),
                    }
                } else {
                    Ok((pins, loads, progressed))
                },
                None => Ok((pins, loads, progressed)),
            },
            None => Ok((pins, loads, progressed)),
        },
    }
}

/// Fold one evaluation's error diagnostics (`errors`, in order, at least
/// one) into the state: pins solved, loads added, the round counted.
/// `type_loads` are the module's loaded symbols (symbol -> board-form load
/// string) and `hints` the module's standalone nets (name -> kind). An
/// `Err` names a constructor the canvas cannot build.
pub fn probe_step(
    st: ProbeState,
    errors: &Vec<Vec<u8>>,
    attrs: &Vec<(Vec<u8>, Vec<u8>)>,
    type_loads: &Vec<(Vec<u8>, Vec<u8>)>,
    hints: &Vec<(Vec<u8>, Vec<u8>)>,
) -> (r: Result<ProbeState, Vec<u8>>)
    requires
        errors@.len() > 0,
        st.rounds < usize::MAX,
    ensures
        r matches Ok(s2) ==> apply_msgs(
            (plan_view(st.pins@), plan_view(st.loads@), false),
            errors@,
            attrs@,
            plan_view(type_loads@),
            plan_view(hints@),
        ) == Ok::<(Assoc, Assoc, bool), Seq<u8>>(state_view(s2)) && s2.solved_any == (
        st.solved_any || s2.progressed) && s2.last_err@ == errors@[0]@ && s2.rounds == st.rounds
            + 1,
        r matches Err(c) ==> apply_msgs(
            (plan_view(st.pins@), plan_view(st.loads@), false),
            errors@,
            attrs@,
            plan_view(type_loads@),
            plan_view(hints@),
        ) == Err::<(Assoc, Assoc, bool), Seq<u8>>(c@),
{
    let ghost s0 = (plan_view(st.pins@), plan_view(st.loads@), false);
    let ProbeState { pins, loads, solved_any, progressed: _, last_err: _, rounds } = st;
    let mut pins = pins;
    let mut loads = loads;
    let mut progressed = false;
    let mut i: usize = 0;
    assert(errors@.take(0) =~= Seq::<Vec<u8>>::empty());
    while i < errors.len()
        invariant
            i <= errors@.len(),
            s0 == (plan_view(st.pins@), plan_view(st.loads@), false),
            apply_msgs(s0, errors@.take(i as int), attrs@, plan_view(type_loads@), plan_view(hints@))
                == Ok::<(Assoc, Assoc, bool), Seq<u8>>(
                (plan_view(pins@), plan_view(loads@), progressed),
            ),
        decreases errors.len() - i,
    {
        proof {
            assert(errors@.take(i + 1).drop_last() =~= errors@.take(i as int));
            assert(errors@.take(i + 1).last() == errors@[i as int]);
        }
        match apply_msg_exec(pins, loads, progressed, errors[i].as_slice(), attrs, type_loads, hints) {
            Ok((p2, l2, g2)) => {
                pins = p2;
                loads = l2;
                progressed = g2;
            },
            Err(c) => {
                proof {
                    lemma_apply_msgs_err(
                        s0,
                        errors@,
                        (i + 1) as int,
                        attrs@,
                        plan_view(type_loads@),
                        plan_view(hints@),
                        c@,
                    );
                    assert(s0 == (plan_view(st.pins@), plan_view(st.loads@), false));
                    assert(apply_msgs(
                        s0,
                        errors@,
                        attrs@,
                        plan_view(type_loads@),
                        plan_view(hints@),
                    ) == Err::<(Assoc, Assoc, bool), Seq<u8>>(c@));
                }
                return Err(c);
            },
        }
        i = i + 1;
    }
    assert(errors@.take(errors@.len() as int) =~= errors@);
    let last_err = copy(&errors[0]);
    Ok(
        ProbeState {
            pins,
            loads,
            solved_any: solved_any || progressed,
            progressed,
            last_err,
            rounds: rounds + 1,
        },
    )
}

proof fn lemma_apply_msgs_err(
    st: (Assoc, Assoc, bool),
    msgs: Seq<Vec<u8>>,
    n: int,
    attrs: Seq<(Vec<u8>, Vec<u8>)>,
    type_loads: Assoc,
    hints: Assoc,
    c: Seq<u8>,
)
    requires
        0 < n <= msgs.len(),
        apply_msgs(st, msgs.take(n), attrs, type_loads, hints) == Err::<(Assoc, Assoc, bool), Seq<u8>>(c),
    ensures
        apply_msgs(st, msgs, attrs, type_loads, hints) == Err::<(Assoc, Assoc, bool), Seq<u8>>(c),
    decreases msgs.len() - n,
{
    if n < msgs.len() {
        assert(msgs.take(n + 1).drop_last() =~= msgs.take(n));
        lemma_apply_msgs_err(st, msgs, n + 1, attrs, type_loads, hints, c);
    } else {
        assert(msgs.take(n) =~= msgs);
    }
}

pub open spec fn next_view(n: ProbeNext) -> (bool, Seq<u8>) {
    match n {
        ProbeNext::Evaluate { text } => (true, text@),
        ProbeNext::Refuse { message } => (false, message@),
        ProbeNext::Unresolved => (false, Seq::empty()),
    }
}

/// What follows a round that reported errors (see [`spec_probe_next`]).
pub fn probe_next(module: &[u8], attrs: &Vec<(Vec<u8>, Vec<u8>)>, st: &ProbeState) -> (r: ProbeNext)
    ensures
        next_view(r) == spec_probe_next(
            module@,
            attrs@,
            plan_view(st.pins@),
            plan_view(st.loads@),
            st.progressed,
            st.solved_any,
            st.last_err@,
            st.rounds as nat,
        ),
        r is Unresolved ==> !st.solved_any && !(st.progressed && st.rounds < 6),
        r is Refuse ==> st.solved_any && !(st.progressed && st.rounds < 6),
{
    if st.progressed && st.rounds < 6 {
        ProbeNext::Evaluate { text: probe_text(module, attrs, st) }
    } else if st.solved_any {
        ProbeNext::Refuse { message: copy(&st.last_err) }
    } else {
        ProbeNext::Unresolved
    }
}


/// The message of the first error diagnostic, suppressed or not; empty
/// when there is none.
pub open spec fn first_error_message(ds: Seq<crate::model::Diag>) -> Seq<u8>
    decreases ds.len(),
{
    if ds.len() == 0 {
        Seq::empty()
    } else if ds[0].severity == crate::model::Severity::Error {
        ds[0].message@
    } else {
        first_error_message(ds.drop_first())
    }
}

pub open spec fn net_kinds(nets: Seq<crate::model::NetDoc>) -> Seq<(Seq<u8>, Seq<u8>)> {
    nets.map_values(|n: crate::model::NetDoc| (n.name@, n.kind@))
}

/// What probing a module answers from its standalone build: the type of
/// each of its nets, unless the build has errors or made no schematic.
pub open spec fn spec_probe_module_ios(out: crate::model::BuildOutput) -> Result<
    Seq<(Seq<u8>, Seq<u8>)>,
    Seq<u8>,
> {
    if exists|i: int|
        0 <= i < out.diagnostics@.len() && crate::model::counts(
            #[trigger] out.diagnostics@[i],
            crate::model::Severity::Error,
        ) {
        Err(
            "the module itself does not build: ".spec_bytes() + first_error_message(
                out.diagnostics@,
            ),
        )
    } else {
        match out.schematic {
            Some(s) => Ok(net_kinds(s.nets@)),
            None => Err("module probe produced no schematic".spec_bytes()),
        }
    }
}

/// A module's io surface from its own build (opened offline, against the
/// bundled stdlib): net name -> net type, in net order.
pub fn probe_module_ios(out: &crate::model::BuildOutput) -> (r: Result<Vec<(Vec<u8>, Vec<u8>)>, Vec<u8>>)
    ensures
        match r {
            Ok(m) => spec_probe_module_ios(*out) == Ok::<Seq<(Seq<u8>, Seq<u8>)>, Seq<u8>>(
                plan_view(m@),
            ),
            Err(e) => spec_probe_module_ios(*out) == Err::<Seq<(Seq<u8>, Seq<u8>)>, Seq<u8>>(e@),
        },
{
    if out.has_errors() {
        let ds = &out.diagnostics;
        let mut i: usize = 0;
        let mut first: Vec<u8> = Vec::new();
        assert(ds@.skip(0) =~= ds@);
        while i < ds.len()
            invariant_except_break
                first@ == Seq::<u8>::empty(),
            invariant
                i <= ds@.len(),
                first_error_message(ds@) == first_error_message(ds@.skip(i as int)),
            ensures
                first@ == first_error_message(ds@),
            decreases ds.len() - i,
        {
            proof {
                assert(ds@.skip(i as int).drop_first() =~= ds@.skip(i + 1));
                assert(ds@.skip(i as int)[0] == ds@[i as int]);
            }
            if ds[i].severity == crate::model::Severity::Error {
                first = copy(&ds[i].message);
                break;
            }
            i = i + 1;
            proof {
                if i == ds@.len() {
                    assert(ds@.skip(i as int) =~= Seq::<crate::model::Diag>::empty());
                }
            }
        }
        let mut m = lit("the module itself does not build: ");
        push_all(&mut m, first.as_slice());
        return Err(m);
    }
    match &out.schematic {
        None => Err(lit("module probe produced no schematic")),
        Some(s) => {
            let mut r: Vec<(Vec<u8>, Vec<u8>)> = Vec::new();
            let mut i: usize = 0;
            while i < s.nets.len()
                invariant
                    i <= s.nets@.len(),
                    plan_view(r@) == net_kinds(s.nets@.take(i as int)),
                decreases s.nets.len() - i,
            {
                let e = (copy(&s.nets[i].name), copy(&s.nets[i].kind));
                let ghost before = r@;
                r.push(e);
                proof {
                    crate::text::lemma_map_push(before, e, |e: (Vec<u8>, Vec<u8>)| (e.0@, e.1@));
                    assert(net_kinds(s.nets@.take(i + 1)) =~= net_kinds(s.nets@.take(i as int)).push(
                        (s.nets@[i as int].name@, s.nets@[i as int].kind@),
                    ));
                }
                i = i + 1;
            }
            assert(s.nets@.take(s.nets@.len() as int) =~= s.nets@);
            Ok(r)
        },
    }
}


/// The stand-in for a value the pin set does not depend on: its type's
/// example, else `1`.
pub open spec fn spec_type_fallback(ty: Seq<u8>) -> Seq<u8> {
    match crate::names::spec_type_example(ty) {
        Some(e) => e,
        None => "1".spec_bytes(),
    }
}

/// The value required config `k` is stood in with when a placement is
/// warmed before the user gives one: the first variant of its enum type,
/// else its type's example, else `1`; an undeclared type reads as `str`.
pub open spec fn spec_stand_in(facts: crate::facts::ModuleFacts, k: Seq<u8>) -> Seq<u8> {
    let ty: Seq<u8> = match crate::facts::lookup(facts.config_types@, k) {
        Some(t) => t@,
        None => "str".spec_bytes(),
    };
    match crate::facts::lookup(facts.enums@, ty) {
        Some(vs) => if vs@.len() > 0 {
            vs@[0]@
        } else {
            spec_type_fallback(ty)
        },
        None => spec_type_fallback(ty),
    }
}

fn stand_in(facts: &crate::facts::ModuleFacts, k: &[u8]) -> (r: Vec<u8>)
    ensures
        r@ == spec_stand_in(*facts, k@),
{
    let ty = match crate::facts::find_key(&facts.config_types, k) {
        Some(i) => copy(&facts.config_types[i].1),
        None => lit("str"),
    };
    let fallback = match crate::names::type_example(ty.as_slice()) {
        Some(e) => e,
        None => lit("1"),
    };
    match crate::facts::find_key(&facts.enums, ty.as_slice()) {
        Some(j) => if facts.enums[j].1.len() > 0 {
            copy(&facts.enums[j].1[0])
        } else {
            fallback
        },
        None => fallback,
    }
}

/// Every required config paired with its stand-in, in declaration order:
/// the attributes a warmed placement evaluates with.
pub fn stand_in_attrs(facts: &crate::facts::ModuleFacts) -> (r: Vec<(Vec<u8>, Vec<u8>)>)
    ensures
        r@.len() == facts.config_required@.len(),
        forall|i: int|
            0 <= i < r@.len() ==> (#[trigger] r@[i]).0@ == facts.config_required@[i]@ && r@[i].1@
                == spec_stand_in(*facts, facts.config_required@[i]@),
{
    let mut out: Vec<(Vec<u8>, Vec<u8>)> = Vec::new();
    let mut i: usize = 0;
    while i < facts.config_required.len()
        invariant
            i <= facts.config_required@.len(),
            out@.len() == i,
            forall|j: int|
                0 <= j < i ==> (#[trigger] out@[j]).0@ == facts.config_required@[j]@ && out@[j].1@
                    == spec_stand_in(*facts, facts.config_required@[j]@),
        decreases facts.config_required.len() - i,
    {
        let k = copy(&facts.config_required[i]);
        let v = stand_in(facts, k.as_slice());
        out.push((k, v));
        i = i + 1;
    }
    out
}

} // verus!
