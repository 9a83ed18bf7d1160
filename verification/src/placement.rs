//! Placing a new instance: the `Module("…")` binding it goes through, the
//! attribute checks that run before anything is written, the call text with
//! placeholder nets for its pins, and where each inserted statement lands.
use vstd::prelude::*;
use vstd::string::StringSliceAdditionalSpecFns;
use crate::bytes::{bytes_eq, copy, lit, slice_copy, spec_ends_with, spec_rfind_byte};
use crate::index::{first_binding_ident, ModuleBinding};
use crate::names::{is_ascii_alnum, is_ascii_alpha};

verus! {

/// The last `/`-separated segment of a module spec.
pub open spec fn last_path_segment(s: Seq<u8>) -> Seq<u8> {
    match spec_rfind_byte(s, 47u8) {
        Some(i) => s.subrange(i + 1, s.len() as int),
        None => s,
    }
}

/// `s` with every trailing `.zen` removed.
pub open spec fn trim_zen(s: Seq<u8>) -> Seq<u8>
    decreases s.len(),
{
    let z = ".zen".spec_bytes();
    if z.len() > 0 && spec_ends_with(s, z) {
        trim_zen(s.subrange(0, s.len() - z.len()))
    } else {
        s
    }
}

/// A UTF-8 continuation byte (`10xxxxxx`).
pub open spec fn is_continuation(b: u8) -> bool {
    128u8 <= b < 192u8
}

/// The text with each character that is not ASCII alphanumeric replaced by
/// `_`, the bytes read as UTF-8 (a character's continuation bytes go with
/// its lead byte).
pub open spec fn ident_chars(s: Seq<u8>) -> Seq<u8>
    decreases s.len(),
{
    if s.len() == 0 {
        Seq::empty()
    } else {
        let r = ident_chars(s.drop_last());
        let b = s.last();
        if is_continuation(b) {
            r
        } else if is_ascii_alnum(b) {
            r.push(b)
        } else {
            r.push(95u8)
        }
    }
}

/// The identifier a new binding for `module` starts from: the file stem
/// made identifier-safe, prefixed with `M` unless it starts with a letter.
pub open spec fn base_ident(module: Seq<u8>) -> Seq<u8> {
    let i = ident_chars(trim_zen(last_path_segment(module)));
    if i.len() > 0 && is_ascii_alpha(i[0]) {
        i
    } else {
        seq![77u8] + i
    }
}

/// Longest binding identifier.
pub open spec fn max_ident_len(bs: Seq<ModuleBinding>) -> nat
    decreases bs.len(),
{
    if bs.len() == 0 {
        0
    } else {
        let m = max_ident_len(bs.drop_last());
        let l = bs.last().ident@.len();
        if l > m {
            l
        } else {
            m
        }
    }
}

pub proof fn lemma_max_ident_len(bs: Seq<ModuleBinding>)
    ensures
        forall|i: int| 0 <= i < bs.len() ==> (#[trigger] bs[i]).ident@.len() <= max_ident_len(bs),
    decreases bs.len(),
{
    if bs.len() > 0 {
        lemma_max_ident_len(bs.drop_last());
        assert forall|i: int| 0 <= i < bs.len() - 1 implies bs.drop_last()[i] == bs[i] by {}
    }
}

pub open spec fn taken(bs: Seq<ModuleBinding>, s: Seq<u8>) -> bool {
    first_binding_ident(bs, s) is Some
}

/// `s` with `_` appended until no binding uses it.
pub open spec fn fresh_ident(bs: Seq<ModuleBinding>, s: Seq<u8>) -> Seq<u8>
    decreases max_ident_len(bs) + 1 - s.len(),
{
    if taken(bs, s) && s.len() <= max_ident_len(bs) {
        fresh_ident(bs, s.push(95u8))
    } else {
        s
    }
}

proof fn lemma_taken_len(bs: Seq<ModuleBinding>, s: Seq<u8>)
    ensures
        taken(bs, s) ==> s.len() <= max_ident_len(bs),
{
    crate::index::lemma_first_binding_from(bs, s, 0);
    lemma_max_ident_len(bs);
    if taken(bs, s) {
        let i = first_binding_ident(bs, s)->0;
        assert(bs[i].ident@ == s);
    }
}

fn trim_zen_exec(s: &[u8]) -> (r: Vec<u8>)
    ensures
        r@ == trim_zen(s@),
{
    let z = lit(".zen");
    let mut n = s.len();
    assert(s@.subrange(0, n as int) =~= s@);
    while z.len() > 0 && z.len() <= n && crate::bytes::ends_with(slice_copy(s, 0, n).as_slice(), z.as_slice())
        invariant
            n <= s@.len(),
            z@ == ".zen".spec_bytes(),
            trim_zen(s@) == trim_zen(s@.subrange(0, n as int)),
        decreases n,
    {
        proof {
            assert(s@.subrange(0, n as int).subrange(0, n - z@.len()) =~= s@.subrange(
                0,
                n - z@.len(),
            ));
        }
        n = n - z.len();
    }
    proof {
        if z@.len() > n {
            assert(!spec_ends_with(s@.subrange(0, n as int), z@));
        }
    }
    slice_copy(s, 0, n)
}

fn ident_chars_exec(s: &[u8]) -> (r: Vec<u8>)
    ensures
        r@ == ident_chars(s@),
{
    let mut out: Vec<u8> = Vec::new();
    let mut i: usize = 0;
    assert(s@.take(0) =~= Seq::<u8>::empty());
    while i < s.len()
        invariant
            i <= s@.len(),
            out@ == ident_chars(s@.take(i as int)),
        decreases s.len() - i,
    {
        proof {
            assert(s@.take(i + 1).drop_last() =~= s@.take(i as int));
            assert(s@.take(i + 1).last() == s@[i as int]);
        }
        let b = s[i];
        if 128u8 <= b && b < 192u8 {
        } else if (65u8 <= b && b <= 90u8) || (97u8 <= b && b <= 122u8) || (48u8 <= b && b <= 57u8) {
            out.push(b);
        } else {
            out.push(95u8);
        }
        i = i + 1;
    }
    assert(s@.take(s@.len() as int) =~= s@);
    out
}

/// The identifier for a new `Module(…)` binding of `module`, unused by the
/// file's bindings.
pub fn binding_ident(bindings: &Vec<ModuleBinding>, module: &[u8]) -> (r: Vec<u8>)
    ensures
        r@ == fresh_ident(bindings@, base_ident(module@)),
        !taken(bindings@, r@),
{
    let n: usize = module.len();
    proof {
        crate::bytes::lemma_rfind_byte(module@, 47u8);
    }
    let seg = match crate::bytes::rfind_byte(module, 47u8) {
        Some(i) => {
            assert(i < n);
            slice_copy(module, i + 1, n)
        },
        None => slice_copy(module, 0, module.len()),
    };
    assert(seg@ == last_path_segment(module@));
    let stem = trim_zen_exec(seg.as_slice());
    let chars = ident_chars_exec(stem.as_slice());
    let mut ident: Vec<u8> = if chars.len() > 0 && ((65u8 <= chars[0] && chars[0] <= 90u8) || (
    97u8 <= chars[0] && chars[0] <= 122u8)) {
        chars
    } else {
        let mut m: Vec<u8> = Vec::new();
        m.push(77u8);
        crate::text::push_all(&mut m, chars.as_slice());
        m
    };
    assert(ident@ == base_ident(module@));
    loop
        invariant
            fresh_ident(bindings@, base_ident(module@)) == fresh_ident(bindings@, ident@),
        ensures
            fresh_ident(bindings@, base_ident(module@)) == ident@,
            !taken(bindings@, ident@),
        decreases max_ident_len(bindings@) + 1 - ident@.len(),
    {
        proof {
            lemma_taken_len(bindings@, ident@);
            crate::index::lemma_first_binding_from(bindings@, ident@, 0);
        }
        let found = binding_taken(bindings, ident.as_slice());
        if !found {
            break;
        }
        ident.push(95u8);
    }
    ident
}

fn binding_taken(bindings: &Vec<ModuleBinding>, ident: &[u8]) -> (r: bool)
    ensures
        r == taken(bindings@, ident@),
{
    let mut i: usize = 0;
    proof {
        crate::index::lemma_first_binding_from(bindings@, ident@, 0);
    }
    while i < bindings.len()
        invariant
            i <= bindings@.len(),
            first_binding_ident(bindings@, ident@) == crate::index::first_binding_from(
                bindings@,
                ident@,
                i as int,
            ),
        decreases bindings.len() - i,
    {
        if bytes_eq(bindings[i].ident.as_slice(), ident) {
            return true;
        }
        i = i + 1;
    }
    false
}

// ---------------------------------------------------------------------------
// Attribute checks
// ---------------------------------------------------------------------------

/// What the module's declared config type makes of an attribute value. An
/// `int` value passes exactly when it parses as an `i64`; the last two
/// leave a parse to the caller: a number, or a physical value of the config
/// type's unit (a bare number also passes).
#[derive(PartialEq, Eq, Structural, Debug, Clone, Copy)]
pub enum AttrVerdict {
    Valid,
    /// The module declares configs and this is not one of them.
    NotAParameter,
    /// The config is an enum and the value is none of its variants.
    NotAVariant,
    NotBool,
    NeedsWholeNumber,
    NeedsNumber,
    NeedsUnit,
}

pub open spec fn spec_attr_verdict(facts: crate::facts::ModuleFacts, key: Seq<u8>, value: Seq<u8>) -> AttrVerdict {
    match crate::facts::lookup(facts.config_types@, key) {
        None => if facts.config_types@.len() == 0 {
            AttrVerdict::Valid
        } else {
            AttrVerdict::NotAParameter
        },
        Some(ty) => match crate::facts::lookup(facts.enums@, ty@) {
            Some(vs) => if crate::index::listed(vs@, value) {
                AttrVerdict::Valid
            } else {
                AttrVerdict::NotAVariant
            },
            None => if ty@ == "str".spec_bytes() {
                AttrVerdict::Valid
            } else if ty@ == "bool".spec_bytes() {
                if value == "True".spec_bytes() || value == "False".spec_bytes() || value
                    == "true".spec_bytes() || value == "false".spec_bytes() {
                    AttrVerdict::Valid
                } else {
                    AttrVerdict::NotBool
                }
            } else if ty@ == "int".spec_bytes() {
                if crate::names::spec_parses_i64(value) {
                    AttrVerdict::Valid
                } else {
                    AttrVerdict::NeedsWholeNumber
                }
            } else if ty@ == "float".spec_bytes() {
                AttrVerdict::NeedsNumber
            } else if crate::names::spec_type_example(ty@) is Some {
                AttrVerdict::NeedsUnit
            } else {
                AttrVerdict::Valid
            },
        },
    }
}

/// Check one attribute value against the module's declared config type
/// before anything is written. Unknown or unresolvable types pass (the
/// build decides); enum, bool and parameter-name refusals are final.
pub fn validate_attr(facts: &crate::facts::ModuleFacts, key: &[u8], value: &[u8]) -> (r: AttrVerdict)
    ensures
        r == spec_attr_verdict(*facts, key@, value@),
{
    let t = match crate::facts::find_key(&facts.config_types, key) {
        None => {
            return if facts.config_types.len() == 0 {
                AttrVerdict::Valid
            } else {
                AttrVerdict::NotAParameter
            };
        },
        Some(t) => t,
    };
    let ty = facts.config_types[t].1.as_slice();
    match crate::facts::find_key(&facts.enums, ty) {
        Some(e) => {
            return if crate::bytes::contains_bytes(&facts.enums[e].1, value) {
                AttrVerdict::Valid
            } else {
                AttrVerdict::NotAVariant
            };
        },
        None => {},
    }
    if bytes_eq(ty, lit("str").as_slice()) {
        AttrVerdict::Valid
    } else if bytes_eq(ty, lit("bool").as_slice()) {
        if bytes_eq(value, lit("True").as_slice()) || bytes_eq(value, lit("False").as_slice())
            || bytes_eq(value, lit("true").as_slice()) || bytes_eq(value, lit("false").as_slice()) {
            AttrVerdict::Valid
        } else {
            AttrVerdict::NotBool
        }
    } else if bytes_eq(ty, lit("int").as_slice()) {
        if crate::names::parses_i64(value) {
            AttrVerdict::Valid
        } else {
            AttrVerdict::NeedsWholeNumber
        }
    } else if bytes_eq(ty, lit("float").as_slice()) {
        AttrVerdict::NeedsNumber
    } else if crate::names::type_example(ty).is_some() {
        AttrVerdict::NeedsUnit
    } else {
        AttrVerdict::Valid
    }
}

// ---------------------------------------------------------------------------
// add_instance
// ---------------------------------------------------------------------------

pub struct AddInstanceRequest {
    /// Module spec exactly as it appears in `Module("…")`.
    pub module: Vec<u8>,
    pub name: Vec<u8>,
    /// Ordered kwargs after `name=`; values are emitted as string literals.
    pub attrs: Vec<(Vec<u8>, Vec<u8>)>,
}

/// The io kwargs a placement writes and the loads their constructors need.
pub struct PinPlan {
    /// io name -> constructor (`Net`/`Power`/`Ground`/an interface), in io
    /// order.
    pub pins: Vec<(Vec<u8>, Vec<u8>)>,
    /// Constructor symbol -> load module string (board form), in symbol
    /// order.
    pub loads: Vec<(Vec<u8>, Vec<u8>)>,
}

/// The placement's own results, before the rewritten file is re-parsed.
pub struct PlacedCall {
    /// The inserted statement text.
    pub inserted: Vec<u8>,
    /// The module-binding identifier the call uses.
    pub binding: Vec<u8>,
    /// Placeholder nets synthesized for pins not given as attributes
    /// (`NAME_IO`).
    pub placeholder_nets: Vec<Vec<u8>>,
    /// The instance's connection points (io names).
    pub pins: Vec<Vec<u8>>,
}

/// [`PlacedCall`] with the new text, as values.
pub struct PlacedView {
    pub text: Seq<u8>,
    pub inserted: Seq<u8>,
    pub binding: Seq<u8>,
    pub placeholder_nets: Seq<Seq<u8>>,
    pub pins: Seq<Seq<u8>>,
}

/// The plan when the module does not evaluate: each required io on a
/// plain `Net`, no loads.
pub open spec fn spec_static_plan(required: Seq<Vec<u8>>) -> Seq<(Seq<u8>, Seq<u8>)> {
    required.map_values(|io: Vec<u8>| (io@, "Net".spec_bytes()))
}

pub open spec fn plan_view(p: Seq<(Vec<u8>, Vec<u8>)>) -> Seq<(Seq<u8>, Seq<u8>)> {
    p.map_values(|e: (Vec<u8>, Vec<u8>)| (e.0@, e.1@))
}

pub fn static_plan(facts: &crate::facts::ModuleFacts) -> (r: PinPlan)
    ensures
        plan_view(r.pins@) == spec_static_plan(facts.required_ios@),
        r.loads@.len() == 0,
{
    let mut pins: Vec<(Vec<u8>, Vec<u8>)> = Vec::new();
    let mut i: usize = 0;
    proof {
        assert(plan_view(pins@) =~= spec_static_plan(facts.required_ios@.take(0)));
    }
    while i < facts.required_ios.len()
        invariant
            i <= facts.required_ios@.len(),
            plan_view(pins@) == spec_static_plan(facts.required_ios@.take(i as int)),
        decreases facts.required_ios.len() - i,
    {
        let ghost old_pins = pins@;
        let e = (copy(&facts.required_ios[i]), lit("Net"));
        pins.push(e);
        proof {
            crate::text::lemma_map_push(old_pins, e, |e: (Vec<u8>, Vec<u8>)| (e.0@, e.1@));
            assert(facts.required_ios@.take(i + 1) =~= facts.required_ios@.take(i as int).push(
                facts.required_ios@[i as int],
            ));
            crate::text::lemma_map_push(
                facts.required_ios@.take(i as int),
                facts.required_ios@[i as int],
                |io: Vec<u8>| (io@, "Net".spec_bytes()),
            );
        }
        i = i + 1;
    }
    assert(facts.required_ios@.take(facts.required_ios@.len() as int) =~= facts.required_ios@);
    PinPlan { pins, loads: Vec::new() }
}

pub open spec fn attr_key_listed(attrs: Seq<(Vec<u8>, Vec<u8>)>, k: Seq<u8>) -> bool {
    exists|i: int| 0 <= i < attrs.len() && (#[trigger] attrs[i]).0@ == k
}

/// The first attribute problem, in order: `(i, true)` when attribute `i`
/// has an invalid name, `(i, false)` when its value failed its check.
pub open spec fn first_attr_problem(attrs: Seq<(Vec<u8>, Vec<u8>)>, ok: Seq<bool>, from: int) -> Option<
    (int, bool),
>
    decreases attrs.len() - from,
{
    if from < 0 || from >= attrs.len() {
        None
    } else if !crate::names::spec_valid_attr_key(attrs[from].0@) {
        Some((from, true))
    } else if !ok[from] {
        Some((from, false))
    } else {
        first_attr_problem(attrs, ok, from + 1)
    }
}

/// The first required config, at or after `from`, that no attribute sets.
pub open spec fn first_missing_config(
    required: Seq<Vec<u8>>,
    attrs: Seq<(Vec<u8>, Vec<u8>)>,
    from: int,
) -> Option<int>
    decreases required.len() - from,
{
    if from < 0 || from >= required.len() {
        None
    } else if !attr_key_listed(attrs, required[from]@) {
        Some(from)
    } else {
        first_missing_config(required, attrs, from + 1)
    }
}

/// The last build's board already has a child of this name.
pub open spec fn root_has_child(sch: Option<&crate::model::SchematicDoc>, name: Seq<u8>) -> bool {
    match sch {
        Some(s) => match crate::model::instance_index(s.instances@, "root".spec_bytes()) {
            Some(r) => crate::model::pair_from(s.instances@[r].children@, name, 0) is Some,
            None => false,
        },
        None => false,
    }
}

/// First binding, at or after `from`, of module spec `module`.
pub open spec fn first_binding_spec(bs: Seq<ModuleBinding>, module: Seq<u8>, from: int) -> Option<int>
    decreases bs.len() - from,
{
    if from < 0 || from >= bs.len() {
        None
    } else if bs[from].spec@ == module {
        Some(from)
    } else {
        first_binding_spec(bs, module, from + 1)
    }
}

/// The binding identifier a call of `module` uses, and whether the binding
/// is new.
pub open spec fn chosen_binding(bs: Seq<ModuleBinding>, module: Seq<u8>) -> (Seq<u8>, bool) {
    match first_binding_spec(bs, module, 0) {
        Some(b) => (bs[b].ident@, false),
        None => (fresh_ident(bs, base_ident(module)), true),
    }
}

/// `, KEY="VALUE"` for each attribute.
pub open spec fn attrs_text(attrs: Seq<(Vec<u8>, Vec<u8>)>) -> Seq<u8>
    decreases attrs.len(),
{
    if attrs.len() == 0 {
        Seq::empty()
    } else {
        attrs_text(attrs.drop_last()) + ", ".spec_bytes() + attrs.last().0@ + "=".spec_bytes()
            + crate::quote::spec_debug_str(attrs.last().1@)
    }
}

/// `, IO=Ctor("NAME_IO")` for each planned pin no attribute sets.
pub open spec fn pins_text(name: Seq<u8>, pins: Seq<(Vec<u8>, Vec<u8>)>, attrs: Seq<(Vec<u8>, Vec<u8>)>) -> Seq<u8>
    decreases pins.len(),
{
    if pins.len() == 0 {
        Seq::empty()
    } else {
        let r = pins_text(name, pins.drop_last(), attrs);
        let io = pins.last().0@;
        if attr_key_listed(attrs, io) {
            r
        } else {
            r + ", ".spec_bytes() + io + "=".spec_bytes() + pins.last().1@ + "(".spec_bytes()
                + crate::quote::spec_debug_str(crate::wiring::placeholder_name(name, io))
                + ")".spec_bytes()
        }
    }
}

/// The placeholder nets the call creates, in pin order.
pub open spec fn placeholders(name: Seq<u8>, pins: Seq<(Vec<u8>, Vec<u8>)>, attrs: Seq<(Vec<u8>, Vec<u8>)>) -> Seq<Seq<u8>>
    decreases pins.len(),
{
    if pins.len() == 0 {
        Seq::empty()
    } else {
        let r = placeholders(name, pins.drop_last(), attrs);
        let io = pins.last().0@;
        if attr_key_listed(attrs, io) {
            r
        } else {
            r.push(crate::wiring::placeholder_name(name, io))
        }
    }
}

/// `BINDING(name="NAME", attrs…, pins…)`.
pub open spec fn call_text(
    binding: Seq<u8>,
    name: Seq<u8>,
    attrs: Seq<(Vec<u8>, Vec<u8>)>,
    pins: Seq<(Vec<u8>, Vec<u8>)>,
) -> Seq<u8> {
    binding + "(name=".spec_bytes() + crate::names::quoted(name) + attrs_text(attrs) + pins_text(
        name,
        pins,
        attrs,
    ) + ")".spec_bytes()
}

/// The loads whose symbol the file does not bind yet.
pub open spec fn needed_loads(loads: Seq<(Seq<u8>, Seq<u8>)>, bound: Seq<Vec<u8>>) -> Seq<(Seq<u8>, Seq<u8>)>
    decreases loads.len(),
{
    if loads.len() == 0 {
        Seq::empty()
    } else {
        let r = needed_loads(loads.drop_last(), bound);
        if crate::index::listed(bound, loads.last().0) {
            r
        } else {
            r.push(loads.last())
        }
    }
}

/// `load("MODULE", "SYMBOL")` lines.
pub open spec fn loads_text(loads: Seq<(Seq<u8>, Seq<u8>)>) -> Seq<u8>
    decreases loads.len(),
{
    if loads.len() == 0 {
        Seq::empty()
    } else {
        loads_text(loads.drop_last()) + "load(".spec_bytes() + crate::quote::spec_debug_str(
            loads.last().1,
        ) + ", ".spec_bytes() + crate::quote::spec_debug_str(loads.last().0) + ")\n".spec_bytes()
    }
}

/// Largest end offset of the named calls.
pub open spec fn max_call_end(calls: Seq<crate::index::CallSite>) -> Option<usize>
    decreases calls.len(),
{
    if calls.len() == 0 {
        None
    } else {
        match max_call_end(calls.drop_last()) {
            None => Some(calls.last().stmt_end),
            Some(m) => Some(crate::edit::max_usize(m, calls.last().stmt_end)),
        }
    }
}

/// Below the module bindings, else the loads, else the docstring.
pub open spec fn binding_anchor(idx: crate::index::FileIndex) -> Option<usize> {
    crate::edit::or_else(
        crate::edit::max_binding_end(idx.module_bindings@),
        crate::edit::or_else(idx.last_load_end, idx.docstring_end),
    )
}

/// Where the new call goes: after the last named call (else below the
/// binding area), and never below the line `Board(...)` starts on.
pub open spec fn spec_call_at(c: Seq<u8>, idx: crate::index::FileIndex) -> int {
    let base = match max_call_end(idx.calls@) {
        Some(e) => crate::text::spec_line_boundary_after(c, e as int),
        None => crate::edit::spec_anchor_at(c, binding_anchor(idx)),
    };
    match idx.board_start {
        Some(b) => if base > b {
            crate::text::spec_line_boundary_before(c, b as int)
        } else {
            base
        },
        None => base,
    }
}

/// The edits of a placement: the load block (when loads are needed), the
/// binding (when new), and the call.
pub open spec fn placement_edits(
    c: Seq<u8>,
    idx: crate::index::FileIndex,
    req: AddInstanceRequest,
    plan: PinPlan,
    binding: Seq<u8>,
    is_new: bool,
) -> Seq<crate::text::EditV> {
    let call_at = spec_call_at(c, idx);
    let nl = needed_loads(plan_view(plan.loads@), idx.bound_idents@);
    let le: Seq<crate::text::EditV> = if nl.len() > 0 {
        let at = crate::wiring::min_int(
            crate::edit::spec_anchor_at(c, crate::edit::or_else(idx.last_load_end, idx.docstring_end)),
            call_at,
        );
        seq![(at, at, crate::text::spec_separator(c, at) + loads_text(nl))]
    } else {
        Seq::empty()
    };
    let be: Seq<crate::text::EditV> = if is_new {
        let at = crate::wiring::min_int(crate::edit::spec_anchor_at(c, binding_anchor(idx)), call_at);
        seq![
            (
                at,
                at,
                crate::text::spec_separator(c, at) + binding + " = Module(".spec_bytes()
                    + crate::quote::spec_debug_str(req.module@) + ")\n".spec_bytes(),
            ),
        ]
    } else {
        Seq::empty()
    };
    le + be + seq![
        (
            call_at,
            call_at,
            crate::text::spec_separator(c, call_at) + call_text(
                binding,
                req.name@,
                req.attrs@,
                plan.pins@,
            ) + "\n".spec_bytes(),
        ),
    ]
}

/// What `add_instance` does, or why it refuses. `value_ok[i]` says whether
/// attribute `i`'s value passed [`validate_attr`] (with the caller's parse
/// where it asked for one).
pub open spec fn spec_add_instance(
    c: Seq<u8>,
    idx: crate::index::FileIndex,
    sch: Option<&crate::model::SchematicDoc>,
    facts: crate::facts::ModuleFacts,
    req: AddInstanceRequest,
    value_ok: Seq<bool>,
    plan: PinPlan,
) -> Result<PlacedView, crate::edit::EditError> {
    if !crate::index::index_fits(idx, c.len()) {
        Err(crate::edit::EditError::IndexMismatch)
    } else if !crate::names::spec_valid_name(req.name@) {
        Err(crate::edit::EditError::InvalidName)
    } else if idx.error is Some {
        Err(crate::edit::EditError::Unparseable)
    } else if crate::index::calls_named(idx.calls@, req.name@).len() > 0 {
        Err(crate::edit::EditError::InstanceExists)
    } else if root_has_child(sch, req.name@) {
        Err(crate::edit::EditError::ChildExists)
    } else {
        match first_attr_problem(req.attrs@, value_ok, 0) {
            Some((i, true)) => Err(crate::edit::EditError::InvalidAttrName),
            Some((i, false)) => Err(crate::edit::EditError::InvalidAttrValue { index: i as usize }),
            None => match first_missing_config(facts.config_required@, req.attrs@, 0) {
                Some(j) => Err(crate::edit::EditError::MissingConfig { index: j as usize }),
                None => {
                    let (binding, is_new) = chosen_binding(idx.module_bindings@, req.module@);
                    match crate::text::spec_apply_edits(
                        c,
                        placement_edits(c, idx, req, plan, binding, is_new),
                    ) {
                        None => Err(crate::edit::EditError::Overlap),
                        Some(t) => Ok(
                            PlacedView {
                                text: t,
                                inserted: call_text(binding, req.name@, req.attrs@, plan.pins@),
                                binding,
                                placeholder_nets: placeholders(req.name@, plan.pins@, req.attrs@),
                                pins: plan.pins@.map_values(|e: (Vec<u8>, Vec<u8>)| e.0@),
                            },
                        ),
                    }
                },
            },
        }
    }
}

pub fn attr_key_listed_exec(attrs: &Vec<(Vec<u8>, Vec<u8>)>, k: &[u8]) -> (r: bool)
    ensures
        r == attr_key_listed(attrs@, k@),
{
    let mut i: usize = 0;
    while i < attrs.len()
        invariant
            i <= attrs@.len(),
            forall|j: int| 0 <= j < i ==> (#[trigger] attrs@[j]).0@ != k@,
        decreases attrs.len() - i,
    {
        if bytes_eq(attrs[i].0.as_slice(), k) {
            return true;
        }
        i = i + 1;
    }
    false
}

fn attrs_text_exec(attrs: &Vec<(Vec<u8>, Vec<u8>)>) -> (r: Vec<u8>)
    ensures
        r@ == attrs_text(attrs@),
{
    let mut out: Vec<u8> = Vec::new();
    let mut i: usize = 0;
    assert(attrs_text(attrs@.take(0)) =~= Seq::<u8>::empty());
    while i < attrs.len()
        invariant
            i <= attrs@.len(),
            out@ == attrs_text(attrs@.take(i as int)),
        decreases attrs.len() - i,
    {
        proof {
            assert(attrs@.take(i + 1).drop_last() =~= attrs@.take(i as int));
            assert(attrs@.take(i + 1).last() == attrs@[i as int]);
        }
        crate::text::push_all(&mut out, lit(", ").as_slice());
        crate::text::push_all(&mut out, attrs[i].0.as_slice());
        crate::text::push_all(&mut out, lit("=").as_slice());
        crate::text::push_all(&mut out, crate::quote::debug_quote(attrs[i].1.as_slice()).as_slice());
        i = i + 1;
    }
    assert(attrs@.take(attrs@.len() as int) =~= attrs@);
    out
}

/// The pins' kwarg text and the placeholder nets it creates.
fn pins_text_exec(name: &[u8], pins: &Vec<(Vec<u8>, Vec<u8>)>, attrs: &Vec<(Vec<u8>, Vec<u8>)>) -> (r:
    (Vec<u8>, Vec<Vec<u8>>))
    ensures
        r.0@ == pins_text(name@, pins@, attrs@),
        crate::writers::views(r.1@) == placeholders(name@, pins@, attrs@),
{
    let mut out: Vec<u8> = Vec::new();
    let mut nets: Vec<Vec<u8>> = Vec::new();
    let mut i: usize = 0;
    assert(pins_text(name@, pins@.take(0), attrs@) =~= Seq::<u8>::empty());
    assert(crate::writers::views(nets@) =~= placeholders(name@, pins@.take(0), attrs@));
    while i < pins.len()
        invariant
            i <= pins@.len(),
            out@ == pins_text(name@, pins@.take(i as int), attrs@),
            crate::writers::views(nets@) == placeholders(name@, pins@.take(i as int), attrs@),
        decreases pins.len() - i,
    {
        proof {
            assert(pins@.take(i + 1).drop_last() =~= pins@.take(i as int));
            assert(pins@.take(i + 1).last() == pins@[i as int]);
        }
        let io = pins[i].0.as_slice();
        if !attr_key_listed_exec(attrs, io) {
            let net = crate::wiring::placeholder_exec(name, io);
            crate::text::push_all(&mut out, lit(", ").as_slice());
            crate::text::push_all(&mut out, io);
            crate::text::push_all(&mut out, lit("=").as_slice());
            crate::text::push_all(&mut out, pins[i].1.as_slice());
            crate::text::push_all(&mut out, lit("(").as_slice());
            crate::text::push_all(&mut out, crate::quote::debug_quote(net.as_slice()).as_slice());
            crate::text::push_all(&mut out, lit(")").as_slice());
            let ghost old_nets = nets@;
            nets.push(net);
            proof {
                crate::text::lemma_map_push(old_nets, net, |x: Vec<u8>| x@);
            }
        }
        i = i + 1;
    }
    assert(pins@.take(pins@.len() as int) =~= pins@);
    (out, nets)
}

/// The needed loads' text and how many there are.
fn loads_text_exec(loads: &Vec<(Vec<u8>, Vec<u8>)>, bound: &Vec<Vec<u8>>) -> (r: (Vec<u8>, usize))
    ensures
        r.0@ == loads_text(needed_loads(plan_view(loads@), bound@)),
        r.1 == needed_loads(plan_view(loads@), bound@).len(),
{
    let ghost lv = plan_view(loads@);
    let mut out: Vec<u8> = Vec::new();
    let mut n: usize = 0;
    let mut i: usize = 0;
    assert(lv.take(0) =~= Seq::<(Seq<u8>, Seq<u8>)>::empty());
    while i < loads.len()
        invariant
            i <= loads@.len(),
            lv == plan_view(loads@),
            out@ == loads_text(needed_loads(lv.take(i as int), bound@)),
            n == needed_loads(lv.take(i as int), bound@).len(),
            n <= i,
        decreases loads.len() - i,
    {
        proof {
            assert(lv.take(i + 1).drop_last() =~= lv.take(i as int));
            assert(lv.take(i + 1).last() == (loads@[i as int].0@, loads@[i as int].1@));
        }
        let sym = loads[i].0.as_slice();
        if !crate::bytes::contains_bytes(bound, sym) {
            let ghost nl = needed_loads(lv.take(i as int), bound@);
            crate::text::push_all(&mut out, lit("load(").as_slice());
            crate::text::push_all(&mut out, crate::quote::debug_quote(loads[i].1.as_slice()).as_slice());
            crate::text::push_all(&mut out, lit(", ").as_slice());
            crate::text::push_all(&mut out, crate::quote::debug_quote(sym).as_slice());
            crate::text::push_all(&mut out, lit(")\n").as_slice());
            n = n + 1;
            proof {
                let e = (loads@[i as int].0@, loads@[i as int].1@);
                assert(needed_loads(lv.take(i + 1), bound@) == nl.push(e));
                assert(nl.push(e).drop_last() =~= nl);
            }
        }
        i = i + 1;
    }
    assert(lv.take(lv.len() as int) =~= lv);
    (out, n)
}

fn last_call_end(idx: &crate::index::FileIndex) -> (r: Option<usize>)
    ensures
        r == max_call_end(idx.calls@),
{
    let mut m: Option<usize> = None;
    let mut i: usize = 0;
    while i < idx.calls.len()
        invariant
            i <= idx.calls@.len(),
            m == max_call_end(idx.calls@.take(i as int)),
        decreases idx.calls.len() - i,
    {
        assert(idx.calls@.take(i + 1).drop_last() =~= idx.calls@.take(i as int));
        let e = idx.calls[i].stmt_end;
        m = match m {
            None => Some(e),
            Some(x) => Some(if x >= e { x } else { e }),
        };
        i = i + 1;
    }
    assert(idx.calls@.take(idx.calls@.len() as int) =~= idx.calls@);
    m
}

proof fn lemma_max_call_end_bound(calls: Seq<crate::index::CallSite>, len: nat)
    requires
        forall|i: int| 0 <= i < calls.len() ==> (#[trigger] calls[i]).stmt_end <= len,
    ensures
        max_call_end(calls) matches Some(m) ==> m <= len,
    decreases calls.len(),
{
    if calls.len() > 0 {
        lemma_max_call_end_bound(calls.drop_last(), len);
        assert(calls.last() == calls[calls.len() - 1]);
    }
}

fn binding_anchor_exec(idx: &crate::index::FileIndex) -> (r: Option<usize>)
    ensures
        r == binding_anchor(*idx),
{
    match crate::edit::last_binding_end(idx) {
        Some(e) => Some(e),
        None => match idx.last_load_end {
            Some(e) => Some(e),
            None => idx.docstring_end,
        },
    }
}

fn call_at_exec(c: &[u8], idx: &crate::index::FileIndex) -> (r: usize)
    requires
        crate::index::index_fits(*idx, c@.len()),
    ensures
        r == spec_call_at(c@, *idx),
        r <= c@.len(),
{
    proof {
        crate::edit::lemma_anchor_bound(*idx, c@.len());
        assert forall|i: int| 0 <= i < idx.calls@.len() implies (#[trigger] idx.calls@[i]).stmt_end
            <= c@.len() by {
            assert(crate::index::call_fits(idx.calls@[i], c@.len()));
        }
        lemma_max_call_end_bound(idx.calls@, c@.len());
    }
    let base = match last_call_end(idx) {
        Some(e) => crate::text::line_boundary_after(c, e),
        None => {
            proof {
                assert forall|i: int| 0 <= i < idx.module_bindings@.len() implies (
                #[trigger] idx.module_bindings@[i]).stmt_end <= c@.len() by {
                    assert(crate::index::span_ok(
                        idx.module_bindings@[i].stmt_start,
                        idx.module_bindings@[i].stmt_end,
                        c@.len(),
                    ));
                }
            }
            crate::edit::anchor_at(c, binding_anchor_exec(idx))
        },
    };
    match idx.board_start {
        Some(b) => if base > b {
            crate::text::line_boundary_before(c, b)
        } else {
            base
        },
        None => base,
    }
}

fn first_attr_problem_exec(attrs: &Vec<(Vec<u8>, Vec<u8>)>, ok: &Vec<bool>) -> (r: Option<(usize, bool)>)
    requires
        ok@.len() == attrs@.len(),
    ensures
        r matches Some((i, b)) ==> first_attr_problem(attrs@, ok@, 0) == Some((i as int, b)),
        r is None ==> first_attr_problem(attrs@, ok@, 0) is None,
{
    let mut i: usize = 0;
    while i < attrs.len()
        invariant
            i <= attrs@.len(),
            ok@.len() == attrs@.len(),
            first_attr_problem(attrs@, ok@, 0) == first_attr_problem(attrs@, ok@, i as int),
        decreases attrs.len() - i,
    {
        if !crate::names::valid_attr_key(attrs[i].0.as_slice()) {
            return Some((i, true));
        }
        if !ok[i] {
            return Some((i, false));
        }
        i = i + 1;
    }
    None
}

fn first_missing_config_exec(required: &Vec<Vec<u8>>, attrs: &Vec<(Vec<u8>, Vec<u8>)>) -> (r: Option<usize>)
    ensures
        r matches Some(j) ==> first_missing_config(required@, attrs@, 0) == Some(j as int),
        r is None ==> first_missing_config(required@, attrs@, 0) is None,
{
    let mut j: usize = 0;
    while j < required.len()
        invariant
            j <= required@.len(),
            first_missing_config(required@, attrs@, 0) == first_missing_config(
                required@,
                attrs@,
                j as int,
            ),
        decreases required.len() - j,
    {
        if !attr_key_listed_exec(attrs, required[j].as_slice()) {
            return Some(j);
        }
        j = j + 1;
    }
    None
}

fn root_has_child_exec(sch: Option<&crate::model::SchematicDoc>, name: &[u8]) -> (r: bool)
    ensures
        r == root_has_child(sch, name@),
{
    match sch {
        Some(s) => match s.instance(lit("root").as_slice()) {
            Some(ri) => crate::model::find_pair(&s.instances[ri].children, name).is_some(),
            None => false,
        },
        None => false,
    }
}

fn binding_for_spec(bs: &Vec<ModuleBinding>, module: &[u8]) -> (r: Option<usize>)
    ensures
        r matches Some(b) ==> first_binding_spec(bs@, module@, 0) == Some(b as int) && b
            < bs@.len(),
        r is None ==> first_binding_spec(bs@, module@, 0) is None,
{
    let mut i: usize = 0;
    while i < bs.len()
        invariant
            i <= bs@.len(),
            first_binding_spec(bs@, module@, 0) == first_binding_spec(bs@, module@, i as int),
        decreases bs.len() - i,
    {
        if bytes_eq(bs[i].spec.as_slice(), module) {
            return Some(i);
        }
        i = i + 1;
    }
    None
}

pub open spec fn placed_view(t: Seq<u8>, p: PlacedCall) -> PlacedView {
    PlacedView {
        text: t,
        inserted: p.inserted@,
        binding: p.binding@,
        placeholder_nets: crate::writers::views(p.placeholder_nets@),
        pins: crate::writers::views(p.pins@),
    }
}

fn pin_names(pins: &Vec<(Vec<u8>, Vec<u8>)>) -> (r: Vec<Vec<u8>>)
    ensures
        crate::writers::views(r@) == pins@.map_values(|e: (Vec<u8>, Vec<u8>)| e.0@),
{
    let mut out: Vec<Vec<u8>> = Vec::new();
    let mut i: usize = 0;
    assert(crate::writers::views(out@) =~= pins@.take(0).map_values(|e: (Vec<u8>, Vec<u8>)| e.0@));
    while i < pins.len()
        invariant
            i <= pins@.len(),
            crate::writers::views(out@) == pins@.take(i as int).map_values(
                |e: (Vec<u8>, Vec<u8>)| e.0@,
            ),
        decreases pins.len() - i,
    {
        let ghost old_out = out@;
        let c = copy(&pins[i].0);
        out.push(c);
        proof {
            crate::text::lemma_map_push(old_out, c, |x: Vec<u8>| x@);
            assert(pins@.take(i + 1) =~= pins@.take(i as int).push(pins@[i as int]));
            crate::text::lemma_map_push(
                pins@.take(i as int),
                pins@[i as int],
                |e: (Vec<u8>, Vec<u8>)| e.0@,
            );
        }
        i = i + 1;
    }
    assert(pins@.take(pins@.len() as int) =~= pins@);
    out
}

/// Append-shaped program edit: ensure a `Module("…")` binding, insert the
/// instantiation call after the last instantiation (above `Board(...)`),
/// and join any loads its pin constructors need to the load block — one
/// text. `sch` is the last good build (cross-file name collisions), `facts`
/// describe the module, `value_ok` says which attribute values passed
/// their checks, and `plan` gives the pins (from the evaluator, or
/// [`static_plan`]).
fn add_instance_unchecked(
    content: &[u8],
    idx: &crate::index::FileIndex,
    sch: Option<&crate::model::SchematicDoc>,
    facts: &crate::facts::ModuleFacts,
    req: &AddInstanceRequest,
    value_ok: &Vec<bool>,
    plan: &PinPlan,
) -> (r: Result<(Vec<u8>, PlacedCall), crate::edit::EditError>)
    requires
        value_ok@.len() == req.attrs@.len(),
    ensures
        r matches Ok((t, p)) ==> spec_add_instance(
            content@,
            *idx,
            sch,
            *facts,
            *req,
            value_ok@,
            *plan,
        ) == Ok::<PlacedView, crate::edit::EditError>(placed_view(t@, p)),
        r matches Err(e) ==> spec_add_instance(content@, *idx, sch, *facts, *req, value_ok@, *plan)
            == Err::<PlacedView, crate::edit::EditError>(e),
{
    if !crate::index::index_fits_len(idx, content.len()) {
        return Err(crate::edit::EditError::IndexMismatch);
    }
    if !crate::names::valid_instance_name(req.name.as_slice()) {
        return Err(crate::edit::EditError::InvalidName);
    }
    if idx.error.is_some() {
        return Err(crate::edit::EditError::Unparseable);
    }
    if crate::index::find_calls_named(idx, req.name.as_slice()).len() > 0 {
        return Err(crate::edit::EditError::InstanceExists);
    }
    if root_has_child_exec(sch, req.name.as_slice()) {
        return Err(crate::edit::EditError::ChildExists);
    }
    match first_attr_problem_exec(&req.attrs, value_ok) {
        Some((i, true)) => return Err(crate::edit::EditError::InvalidAttrName),
        Some((i, false)) => return Err(crate::edit::EditError::InvalidAttrValue { index: i }),
        None => {},
    }
    match first_missing_config_exec(&facts.config_required, &req.attrs) {
        Some(j) => return Err(crate::edit::EditError::MissingConfig { index: j }),
        None => {},
    }
    let (binding, is_new) = match binding_for_spec(&idx.module_bindings, req.module.as_slice()) {
        Some(b) => (copy(&idx.module_bindings[b].ident), false),
        None => (binding_ident(&idx.module_bindings, req.module.as_slice()), true),
    };
    proof {
        crate::edit::lemma_anchor_bound(*idx, content@.len());
        assert forall|i: int| 0 <= i < idx.module_bindings@.len() implies (
        #[trigger] idx.module_bindings@[i]).stmt_end <= content@.len() by {
            assert(crate::index::span_ok(
                idx.module_bindings@[i].stmt_start,
                idx.module_bindings@[i].stmt_end,
                content@.len(),
            ));
        }
    }
    let call_at = call_at_exec(content, idx);
    // The call text.
    let mut call = copy(&binding);
    crate::text::push_all(&mut call, lit("(name=").as_slice());
    crate::text::push_all(&mut call, crate::names::quote(req.name.as_slice()).as_slice());
    crate::text::push_all(&mut call, attrs_text_exec(&req.attrs).as_slice());
    let (pt, nets) = pins_text_exec(req.name.as_slice(), &plan.pins, &req.attrs);
    crate::text::push_all(&mut call, pt.as_slice());
    crate::text::push_all(&mut call, lit(")").as_slice());
    let mut edits: Vec<crate::text::TextEdit> = Vec::new();
    let ghost e0 = crate::text::edits_view(edits@);
    let (lt, nl) = loads_text_exec(&plan.loads, &idx.bound_idents);
    if nl > 0 {
        let la = crate::edit::anchor_at(
            content,
            match idx.last_load_end {
                Some(o) => Some(o),
                None => idx.docstring_end,
            },
        );
        let at = if la <= call_at {
            la
        } else {
            call_at
        };
        let mut text = crate::text::separator(content, at);
        crate::text::push_all(&mut text, lt.as_slice());
        let e = crate::text::TextEdit { start: at, end: at, text };
        edits.push(e);
        proof {
            assert(crate::text::edits_view(edits@) =~= seq![crate::text::edit_view(e)]);
        }
    } else {
        assert(crate::text::edits_view(edits@) =~= Seq::<crate::text::EditV>::empty());
    }
    let ghost e1 = crate::text::edits_view(edits@);
    if is_new {
        let ba = crate::edit::anchor_at(content, binding_anchor_exec(idx));
        let at = if ba <= call_at {
            ba
        } else {
            call_at
        };
        let mut text = crate::text::separator(content, at);
        crate::text::push_all(&mut text, binding.as_slice());
        crate::text::push_all(&mut text, lit(" = Module(").as_slice());
        crate::text::push_all(&mut text, crate::quote::debug_quote(req.module.as_slice()).as_slice());
        crate::text::push_all(&mut text, lit(")\n").as_slice());
        let e = crate::text::TextEdit { start: at, end: at, text };
        let ghost before = edits@;
        edits.push(e);
        proof {
            crate::text::lemma_edits_view_push(before, e);
        }
    }
    let ghost e2 = crate::text::edits_view(edits@);
    let mut ctext = crate::text::separator(content, call_at);
    crate::text::push_all(&mut ctext, call.as_slice());
    crate::text::push_all(&mut ctext, lit("\n").as_slice());
    let ce = crate::text::TextEdit { start: call_at, end: call_at, text: ctext };
    let ghost before = edits@;
    edits.push(ce);
    proof {
        crate::text::lemma_edits_view_push(before, ce);
        assert(crate::text::edits_view(edits@) =~= placement_edits(
            content@,
            *idx,
            *req,
            *plan,
            binding@,
            is_new,
        ));
        assert forall|k: int| 0 <= k < crate::text::edits_view(edits@).len() implies 0 <= (
        #[trigger] crate::text::edits_view(edits@)[k]).0 <= crate::text::edits_view(edits@)[k].1
            <= content@.len() by {}
    }
    let pins = pin_names(&plan.pins);
    match crate::text::apply_edits(content, edits) {
        Some(t) => Ok((t, PlacedCall { inserted: call, binding, placeholder_nets: nets, pins })),
        None => Err(crate::edit::EditError::Overlap),
    }
}

pub struct AddInstanceResult {
    /// 1-based line of the inserted call.
    pub line: u32,
    /// The inserted statement text.
    pub inserted: Vec<u8>,
    /// The module-binding identifier the call uses.
    pub binding: Vec<u8>,
    /// `# pcb:sch` key written for the new instance, when one was.
    pub position_key: Option<Vec<u8>>,
    pub placeholder_nets: Vec<Vec<u8>>,
    pub pins: Vec<Vec<u8>>,
}

/// The `# pcb:sch` key of a placed instance's component: `NAME.CHILD`,
/// when the module file names its component child.
pub fn position_key(name: &[u8], facts: &crate::facts::ModuleFacts) -> (r: Option<Vec<u8>>)
    ensures
        r matches Some(k) ==> facts.component_child matches Some(c) && k@ == name@
            + ".".spec_bytes() + c@,
        r is None ==> facts.component_child is None,
{
    match &facts.component_child {
        Some(c) => {
            let mut k = slice_copy(name, 0, name.len());
            crate::text::push_all(&mut k, lit(".").as_slice());
            crate::text::push_all(&mut k, c.as_slice());
            Some(k)
        },
        None => None,
    }
}

/// Complete a placement from the index of the rewritten text: the inserted
/// call's line, or the refusal when the output does not parse or the call
/// is missing from it.
pub fn finish_add_instance(
    placed: PlacedCall,
    reparsed: &crate::index::FileIndex,
    name: &[u8],
    position_key: Option<Vec<u8>>,
) -> (r: Result<AddInstanceResult, crate::edit::EditError>)
    ensures
        reparsed.error is Some ==> r == Err::<AddInstanceResult, crate::edit::EditError>(
            crate::edit::EditError::InvalidOutput,
        ),
        reparsed.error is None && crate::index::calls_named(reparsed.calls@, name@).len() == 0
            ==> r == Err::<AddInstanceResult, crate::edit::EditError>(
            crate::edit::EditError::NotFoundOnReparse,
        ),
        reparsed.error is None && crate::index::calls_named(reparsed.calls@, name@).len() > 0
            ==> (r matches Ok(res) && res.line == reparsed.calls@[crate::index::calls_named(
            reparsed.calls@,
            name@,
        )[0] as int].line && res.inserted@ == placed.inserted@ && res.binding@ == placed.binding@
            && res.position_key == position_key && res.placeholder_nets@
            == placed.placeholder_nets@ && res.pins@ == placed.pins@),
{
    if reparsed.error.is_some() {
        return Err(crate::edit::EditError::InvalidOutput);
    }
    let cs = crate::index::find_calls_named(reparsed, name);
    if cs.len() == 0 {
        return Err(crate::edit::EditError::NotFoundOnReparse);
    }
    let n: usize = reparsed.calls.len();
    proof {
        crate::index::lemma_calls_named(reparsed.calls@, name@);
    }
    let line = reparsed.calls[cs[0]].line;
    Ok(
        AddInstanceResult {
            line,
            inserted: placed.inserted,
            binding: placed.binding,
            position_key,
            placeholder_nets: placed.placeholder_nets,
            pins: placed.pins,
        },
    )
}


/// Append-shaped program edit (see [`spec_add_instance`]); the new text is
/// handed back only when it parses.
pub fn add_instance(
    content: &[u8],
    idx: &crate::index::FileIndex,
    sch: Option<&crate::model::SchematicDoc>,
    facts: &crate::facts::ModuleFacts,
    req: &AddInstanceRequest,
    value_ok: &Vec<bool>,
    plan: &PinPlan,
) -> (r: Result<(Vec<u8>, PlacedCall), crate::edit::EditError>)
    requires
        value_ok@.len() == req.attrs@.len(),
    ensures
        r matches Ok((t, p)) ==> spec_add_instance(content@, *idx, sch, *facts, *req, value_ok@, *plan)
            == Ok::<PlacedView, crate::edit::EditError>(placed_view(t@, p)) && crate::source::zen_parses(t@),
        r matches Err(e) ==> spec_add_instance(content@, *idx, sch, *facts, *req, value_ok@, *plan)
            == Err::<PlacedView, crate::edit::EditError>(e) || (e == crate::edit::EditError::InvalidOutput
            && (spec_add_instance(content@, *idx, sch, *facts, *req, value_ok@, *plan) matches Ok(x)
            && !crate::source::zen_parses(x.text))),
        spec_add_instance(content@, *idx, sch, *facts, *req, value_ok@, *plan) matches Ok(x)
            && crate::source::zen_parses(x.text) ==> r is Ok,
{
    match add_instance_unchecked(content, idx, sch, facts, req, value_ok, plan) {
        Ok((t, p)) => if crate::source::parses(t.as_slice()) {
            Ok((t, p))
        } else {
            Err(crate::edit::EditError::InvalidOutput)
        },
        Err(e) => Err(e),
    }
}


/// A placement is composed only for a valid, unused name in a file that
/// parses: an existing call of that name, or a child of that name the last
/// build's board already has (possibly generated), refuses it before any
/// edit is composed.
pub proof fn law_add_instance_refusals(
    c: Seq<u8>,
    idx: crate::index::FileIndex,
    sch: Option<&crate::model::SchematicDoc>,
    facts: crate::facts::ModuleFacts,
    req: AddInstanceRequest,
    value_ok: Seq<bool>,
    plan: PinPlan,
)
    ensures
        spec_add_instance(c, idx, sch, facts, req, value_ok, plan) is Ok ==> crate::names::spec_valid_name(
            req.name@,
        ) && idx.error is None && crate::index::calls_named(idx.calls@, req.name@).len() == 0
            && !root_has_child(sch, req.name@),
        crate::index::index_fits(idx, c.len()) && crate::names::spec_valid_name(req.name@) && idx.error is None
            && crate::index::calls_named(idx.calls@, req.name@).len() > 0 ==> spec_add_instance(
            c,
            idx,
            sch,
            facts,
            req,
            value_ok,
            plan,
        ) == Err::<PlacedView, crate::edit::EditError>(crate::edit::EditError::InstanceExists),
{
}


/// The refusals a placement of `name` owes before anything about the
/// module is read: a file index that does not fit, an invalid name, a file
/// that does not parse, a call of that name, or a child of that name the
/// last build's board already has. Whatever the module, its attributes or
/// its pins, [`add_instance`] refuses with the same error.
pub fn placement_refusal(
    content: &[u8],
    idx: &crate::index::FileIndex,
    sch: Option<&crate::model::SchematicDoc>,
    name: &[u8],
) -> (r: Option<crate::edit::EditError>)
    ensures
        r matches Some(e) ==> forall|facts: crate::facts::ModuleFacts, req: AddInstanceRequest, value_ok: Seq<bool>, plan: PinPlan|
            req.name@ == name@ ==> #[trigger] spec_add_instance(content@, *idx, sch, facts, req, value_ok, plan)
                == Err::<PlacedView, crate::edit::EditError>(e),
        r is None ==> crate::index::index_fits(*idx, content@.len()) && crate::names::spec_valid_name(name@)
            && idx.error is None && crate::index::calls_named(idx.calls@, name@).len() == 0 && !root_has_child(
            sch,
            name@,
        ),
{
    if !crate::index::index_fits_len(idx, content.len()) {
        return Some(crate::edit::EditError::IndexMismatch);
    }
    if !crate::names::valid_instance_name(name) {
        return Some(crate::edit::EditError::InvalidName);
    }
    if idx.error.is_some() {
        return Some(crate::edit::EditError::Unparseable);
    }
    if crate::index::find_calls_named(idx, name).len() > 0 {
        return Some(crate::edit::EditError::InstanceExists);
    }
    if root_has_child_exec(sch, name) {
        return Some(crate::edit::EditError::ChildExists);
    }
    None
}


/// What an attribute check decides, case by case: a module with no
/// declared configs takes anything; a key it does not declare is no
/// parameter; an enum-typed value must be one of the variants; `str` takes
/// anything; `int` takes exactly the values that parse as an `i64`; a
/// physical type (one with an example value) leaves the unit parse to the
/// caller (a bare number passes there); a type it does not know takes
/// anything.
pub proof fn law_attr_verdict(facts: crate::facts::ModuleFacts, key: Seq<u8>, value: Seq<u8>)
    ensures
        facts.config_types@.len() == 0 ==> spec_attr_verdict(facts, key, value) == AttrVerdict::Valid,
        facts.config_types@.len() > 0 && crate::facts::lookup(facts.config_types@, key) is None
            ==> spec_attr_verdict(facts, key, value) == AttrVerdict::NotAParameter,
        match crate::facts::lookup(facts.config_types@, key) {
            Some(ty) => match crate::facts::lookup(facts.enums@, ty@) {
                Some(vs) => (spec_attr_verdict(facts, key, value) == AttrVerdict::Valid <==> crate::index::listed(vs@, value)),
                None => (ty@ == "str".spec_bytes() ==> spec_attr_verdict(facts, key, value) == AttrVerdict::Valid)
                    && (ty@ == "int".spec_bytes() ==> (spec_attr_verdict(facts, key, value) == AttrVerdict::Valid
                    <==> crate::names::spec_parses_i64(value)))
                    && (ty@ != "str".spec_bytes() && ty@ != "bool".spec_bytes() && ty@ != "int".spec_bytes()
                    && ty@ != "float".spec_bytes() ==> spec_attr_verdict(facts, key, value) == if crate::names::spec_type_example(ty@) is Some {
                        AttrVerdict::NeedsUnit
                    } else {
                        AttrVerdict::Valid
                    }),
            },
            None => true,
        },
{
    if facts.config_types@.len() == 0 {
        crate::facts::lemma_lookup_from(facts.config_types@, key, 0);
    }
    reveal_strlit("str");
    reveal_strlit("bool");
    reveal_strlit("int");
    reveal_strlit("float");
    broadcast use vstd::string::is_ascii_spec_bytes;
    assert(vstd::string::is_ascii("str"));
    assert(vstd::string::is_ascii("bool"));
    assert(vstd::string::is_ascii("int"));
    assert("int".spec_bytes().len() == 3 && "bool".spec_bytes().len() == 4);
    assert("int".spec_bytes()[0] != "str".spec_bytes()[0]);
}

} // verus!
