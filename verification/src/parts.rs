//! Part resolution: the part each component instance gets. Precedence per
//! field: an `etchable.toml` override, then the card of the component's
//! defining file, then the instance's own string attributes; vendor maps
//! union with the later layer winning per vendor.
use vstd::prelude::*;
use vstd::string::StringSliceAdditionalSpecFns;
use crate::assoc::{
    assoc_get, kv_insert, kv_restore, kv_take, kv_view, lemma_sorted_get, lemma_take_restore,
    law_sorted_insert, sorted_keys, stop_at,
};
use crate::bytes::{bytes_eq, copy, lit, spec_starts_with, starts_with};
use crate::editability::ov;
use crate::model::{
    find_pair, instance_index, lemma_instance_from, pair_from, InstanceDoc, InstanceKind,
    SchematicDoc,
};
use crate::probe::assoc_insert;
use crate::project::{
    CardV, ComponentCard, PartFields, PartFieldsV, ProjectDoc, ProjectV, VendorSel, VendorV,
};
use crate::text::{lemma_map_push, push_all};
use crate::writers::views;

verus! {

/// A part selection resolved for one component instance.
pub struct ResolvedPart {
    /// Full `root.`-prefixed component instance path.
    pub instance: Vec<u8>,
    pub mpn: Option<Vec<u8>>,
    pub manufacturer: Option<Vec<u8>>,
    pub description: Option<Vec<u8>>,
    pub datasheet: Option<Vec<u8>>,
    pub vendors: Vec<(Vec<u8>, VendorSel)>,
    /// Provenance per field (`mpn`, `vendors.lcsc`, ...): `override`,
    /// `card:<name>` or `zen`.
    pub sources: Vec<(Vec<u8>, Vec<u8>)>,
}

#[verifier::ext_equal]
pub struct PartV {
    pub instance: Seq<u8>,
    pub mpn: Option<Seq<u8>>,
    pub manufacturer: Option<Seq<u8>>,
    pub description: Option<Seq<u8>>,
    pub datasheet: Option<Seq<u8>>,
    pub vendors: Seq<(Seq<u8>, VendorV)>,
    pub sources: Seq<(Seq<u8>, Seq<u8>)>,
}

impl View for ResolvedPart {
    type V = PartV;

    open spec fn view(&self) -> PartV {
        PartV {
            instance: self.instance@,
            mpn: ov(self.mpn),
            manufacturer: ov(self.manufacturer),
            description: ov(self.description),
            datasheet: ov(self.datasheet),
            vendors: kv_view(self.vendors@),
            sources: kv_view(self.sources@),
        }
    }
}

/// Resolved parts keyed by instance path.
pub type Resolved = Seq<(Seq<u8>, PartV)>;

pub open spec fn fresh_part(inst: Seq<u8>) -> PartV {
    PartV {
        instance: inst,
        mpn: None,
        manufacturer: None,
        description: None,
        datasheet: None,
        vendors: Seq::empty(),
        sources: Seq::empty(),
    }
}

/// The part held for `inst`, or a fresh one.
pub open spec fn entry_of(out: Resolved, inst: Seq<u8>) -> PartV {
    match assoc_get(out, inst) {
        Some(p) => p,
        None => fresh_part(inst),
    }
}

pub open spec fn set_mpn(p: PartV, v: Option<Seq<u8>>, src: Seq<u8>) -> PartV {
    match v {
        Some(v) => PartV {
            mpn: Some(v),
            sources: assoc_insert(p.sources, "mpn".spec_bytes(), src),
            ..p
        },
        None => p,
    }
}

pub open spec fn set_manufacturer(p: PartV, v: Option<Seq<u8>>, src: Seq<u8>) -> PartV {
    match v {
        Some(v) => PartV {
            manufacturer: Some(v),
            sources: assoc_insert(p.sources, "manufacturer".spec_bytes(), src),
            ..p
        },
        None => p,
    }
}

pub open spec fn set_datasheet(p: PartV, v: Option<Seq<u8>>, src: Seq<u8>) -> PartV {
    match v {
        Some(v) => PartV {
            datasheet: Some(v),
            sources: assoc_insert(p.sources, "datasheet".spec_bytes(), src),
            ..p
        },
        None => p,
    }
}

pub open spec fn set_description(p: PartV, v: Option<Seq<u8>>, src: Seq<u8>) -> PartV {
    match v {
        Some(v) => PartV {
            description: Some(v),
            sources: assoc_insert(p.sources, "description".spec_bytes(), src),
            ..p
        },
        None => p,
    }
}

pub open spec fn vendors_apply(p: PartV, vs: Seq<(Seq<u8>, VendorV)>, src: Seq<u8>) -> PartV
    decreases vs.len(),
{
    if vs.len() == 0 {
        p
    } else {
        let q = vendors_apply(p, vs.drop_last(), src);
        let (name, sel) = vs.last();
        PartV {
            vendors: assoc_insert(q.vendors, name, sel),
            sources: assoc_insert(q.sources, "vendors.".spec_bytes() + name, src),
            ..q
        }
    }
}

/// Part fields laid over a part, each recorded with its source.
pub open spec fn spec_apply_fields(p: PartV, f: PartFieldsV, src: Seq<u8>) -> PartV {
    vendors_apply(
        set_datasheet(set_manufacturer(set_mpn(p, f.mpn, src), f.manufacturer, src), f.datasheet, src),
        f.vendors,
        src,
    )
}

fn copy_opt(o: &Option<Vec<u8>>) -> (r: Option<Vec<u8>>)
    ensures
        ov(r) == ov(*o),
{
    match o {
        Some(v) => Some(copy(v)),
        None => None,
    }
}

fn copy_vendor(v: &VendorSel) -> (r: VendorSel)
    ensures
        r@ == v@,
{
    match v {
        VendorSel::Lcsc { part, basic } => VendorSel::Lcsc { part: copy(part), basic: *basic },
        VendorSel::Unknown(j) => VendorSel::Unknown(copy(j)),
    }
}

fn set_source(part: &mut ResolvedPart, key: Vec<u8>, source: &[u8])
    ensures
        final(part)@ == (PartV {
            sources: assoc_insert(old(part)@.sources, key@, source@),
            ..old(part)@
        }),
{
    let mut s: Vec<u8> = Vec::new();
    push_all(&mut s, source);
    kv_insert(&mut part.sources, key, s);
    assert(part@ =~= (PartV { sources: assoc_insert(old(part)@.sources, key@, source@), ..old(part)@ }));
}

/// Lay `fields` over `part`, recording `source` for each field set.
pub fn apply_fields(part: &mut ResolvedPart, fields: &PartFields, source: &[u8])
    ensures
        final(part)@ == spec_apply_fields(old(part)@, fields@, source@),
{
    let ghost f = fields@;
    let ghost p0 = part@;
    if fields.mpn.is_some() {
        part.mpn = copy_opt(&fields.mpn);
        set_source(part, lit("mpn"), source);
    }
    assert(part@ =~= set_mpn(p0, f.mpn, source@));
    let ghost p1 = part@;
    if fields.manufacturer.is_some() {
        part.manufacturer = copy_opt(&fields.manufacturer);
        set_source(part, lit("manufacturer"), source);
    }
    assert(part@ =~= set_manufacturer(p1, f.manufacturer, source@));
    let ghost p2 = part@;
    if fields.datasheet.is_some() {
        part.datasheet = copy_opt(&fields.datasheet);
        set_source(part, lit("datasheet"), source);
    }
    assert(part@ =~= set_datasheet(p2, f.datasheet, source@));
    let ghost p3 = part@;
    let mut i: usize = 0;
    assert(f.vendors.take(0) =~= Seq::<(Seq<u8>, VendorV)>::empty());
    while i < fields.vendors.len()
        invariant
            i <= fields.vendors@.len(),
            f == fields@,
            part@ == vendors_apply(p3, f.vendors.take(i as int), source@),
        decreases fields.vendors.len() - i,
    {
        proof {
            assert(f.vendors.take(i + 1).drop_last() =~= f.vendors.take(i as int));
            assert(f.vendors.take(i + 1).last() == f.vendors[i as int]);
        }
        let name = &fields.vendors[i].0;
        kv_insert(&mut part.vendors, copy(name), copy_vendor(&fields.vendors[i].1));
        let mut key = lit("vendors.");
        push_all(&mut key, name.as_slice());
        set_source(part, key, source);
        i = i + 1;
    }
    assert(f.vendors.take(f.vendors.len() as int) =~= f.vendors);
}

// ---------------------------------------------------------------------------
// Updating the resolved map
// ---------------------------------------------------------------------------

fn fresh_exec(inst: &[u8]) -> (r: ResolvedPart)
    ensures
        r@ == fresh_part(inst@),
{
    let mut instance: Vec<u8> = Vec::new();
    push_all(&mut instance, inst);
    let r = ResolvedPart {
        instance,
        mpn: None,
        manufacturer: None,
        description: None,
        datasheet: None,
        vendors: Vec::new(),
        sources: Vec::new(),
    };
    assert(r@ =~= fresh_part(inst@));
    r
}

/// Take the part for `inst` out of `out` (or a fresh one) for an update.
fn take_part(out: &mut Vec<(Vec<u8>, ResolvedPart)>, inst: &[u8]) -> (r: (usize, bool, ResolvedPart))
    ensures
        r.0 as int == stop_at(kv_view(old(out)@), inst@),
        r.1 == (assoc_get(kv_view(old(out)@), inst@) is Some),
        r.1 ==> final(out)@ == old(out)@.remove(r.0 as int),
        !r.1 ==> final(out)@ == old(out)@ && r.0 <= old(out)@.len(),
        r.2@ == entry_of(kv_view(old(out)@), inst@),
{
    let (j, taken) = kv_take(out, inst);
    match taken {
        Some(p) => (j, true, p),
        None => (j, false, fresh_exec(inst)),
    }
}

/// Put an updated part back where `take_part` took it from.
fn put_part(
    out: &mut Vec<(Vec<u8>, ResolvedPart)>,
    j: usize,
    found: bool,
    Ghost(before): Ghost<Seq<(Vec<u8>, ResolvedPart)>>,
    inst: &[u8],
    p: ResolvedPart,
)
    requires
        j as int == stop_at(kv_view(before), inst@),
        found == (assoc_get(kv_view(before), inst@) is Some),
        found ==> old(out)@ == before.remove(j as int),
        !found ==> old(out)@ == before && j <= before.len(),
    ensures
        kv_view(final(out)@) == assoc_insert(kv_view(before), inst@, p@),
{
    let mut k: Vec<u8> = Vec::new();
    push_all(&mut k, inst);
    let ghost middle = out@;
    let ghost pv = p;
    proof {
        if found {
            assert(j < before.len());
        }
    }
    kv_restore(out, j, k, p);
    proof {
        lemma_take_restore(before, middle, out@, k, pv, j as int, found);
    }
}

// ---------------------------------------------------------------------------
// The part-target rule
// ---------------------------------------------------------------------------

/// Component instances under `prefix`, in instance order.
pub open spec fn comp_descendants(insts: Seq<InstanceDoc>, prefix: Seq<u8>) -> Seq<Seq<u8>>
    decreases insts.len(),
{
    if insts.len() == 0 {
        Seq::empty()
    } else {
        let rest = comp_descendants(insts.drop_last(), prefix);
        let last = insts.last();
        if spec_starts_with(last.path@, prefix) && last.kind == InstanceKind::Component {
            rest.push(last.path@)
        } else {
            rest
        }
    }
}

pub open spec fn msg_not_found(path: Seq<u8>) -> Seq<u8> {
    path + " not found".spec_bytes()
}

pub open spec fn msg_no_component(path: Seq<u8>) -> Seq<u8> {
    path + " has no component descendant".spec_bytes()
}

pub open spec fn msg_many_components(path: Seq<u8>) -> Seq<u8> {
    path + " has multiple component descendants — address the component directly".spec_bytes()
}

/// The part-target rule: a selection addressed at an instance applies to
/// that instance if it is a component, else to its unique component
/// descendant.
pub open spec fn spec_component_target(insts: Seq<InstanceDoc>, path: Seq<u8>) -> Result<
    Seq<u8>,
    Seq<u8>,
> {
    match instance_index(insts, path) {
        None => Err(msg_not_found(path)),
        Some(i) => {
            if insts[i].kind == InstanceKind::Component {
                Ok(path)
            } else {
                let ds = comp_descendants(insts, path + ".".spec_bytes());
                if ds.len() == 1 {
                    Ok(ds[0])
                } else if ds.len() == 0 {
                    Err(msg_no_component(path))
                } else {
                    Err(msg_many_components(path))
                }
            }
        },
    }
}

pub fn component_target(sch: &SchematicDoc, path: &[u8]) -> (r: Result<Vec<u8>, Vec<u8>>)
    ensures
        match r {
            Ok(t) => spec_component_target(sch.instances@, path@) == Ok::<Seq<u8>, Seq<u8>>(t@),
            Err(e) => spec_component_target(sch.instances@, path@) == Err::<Seq<u8>, Seq<u8>>(e@),
        },
{
    let mut owned: Vec<u8> = Vec::new();
    push_all(&mut owned, path);
    let i = match sch.instance(path) {
        None => {
            push_all(&mut owned, lit(" not found").as_slice());
            return Err(owned);
        },
        Some(i) => i,
    };
    if sch.instances[i].kind == InstanceKind::Component {
        return Ok(owned);
    }
    let mut prefix: Vec<u8> = Vec::new();
    push_all(&mut prefix, path);
    push_all(&mut prefix, lit(".").as_slice());
    let insts = &sch.instances;
    let mut first: Option<Vec<u8>> = None;
    let mut count: usize = 0;
    let mut k: usize = 0;
    assert(insts@.take(0) =~= Seq::<InstanceDoc>::empty());
    while k < insts.len()
        invariant
            k <= insts@.len(),
            count <= k,
            count == comp_descendants(insts@.take(k as int), prefix@).len(),
            count > 0 ==> (first matches Some(f) && f@ == comp_descendants(
                insts@.take(k as int),
                prefix@,
            )[0]),
        decreases insts.len() - k,
    {
        proof {
            assert(insts@.take(k + 1).drop_last() =~= insts@.take(k as int));
            assert(insts@.take(k + 1).last() == insts@[k as int]);
        }
        if starts_with(insts[k].path.as_slice(), prefix.as_slice()) && insts[k].kind
            == InstanceKind::Component {
            if count == 0 {
                first = Some(copy(&insts[k].path));
            }
            count = count + 1;
        }
        k = k + 1;
    }
    assert(insts@.take(insts@.len() as int) =~= insts@);
    if count == 1 {
        match first {
            Some(f) => Ok(f),
            None => Err(owned),
        }
    } else if count == 0 {
        push_all(&mut owned, lit(" has no component descendant").as_slice());
        Err(owned)
    } else {
        push_all(
            &mut owned,
            lit(" has multiple component descendants — address the component directly").as_slice(),
        );
        Err(owned)
    }
}


// ---------------------------------------------------------------------------
// The three layers
// ---------------------------------------------------------------------------

/// The string attribute `key` of an instance.
pub open spec fn attr_text(attrs: Seq<(Vec<u8>, Vec<u8>)>, key: Seq<u8>) -> Option<Seq<u8>> {
    match pair_from(attrs, key, 0) {
        Some(i) => Some(attrs[i].1@),
        None => None,
    }
}

/// The lowest layer, one instance: a component's own `mpn` and
/// `manufacturer` attributes, sourced `zen`.
pub open spec fn zen_step(out: Resolved, inst: InstanceDoc) -> Resolved {
    let mpn = attr_text(inst.text_attributes@, "mpn".spec_bytes());
    let man = attr_text(inst.text_attributes@, "manufacturer".spec_bytes());
    if inst.kind != InstanceKind::Component || (mpn is None && man is None) {
        out
    } else {
        let zen = "zen".spec_bytes();
        assoc_insert(
            out,
            inst.path@,
            set_manufacturer(set_mpn(entry_of(out, inst.path@), mpn, zen), man, zen),
        )
    }
}

pub open spec fn zen_layer(insts: Seq<InstanceDoc>) -> Resolved
    decreases insts.len(),
{
    if insts.len() == 0 {
        Seq::empty()
    } else {
        zen_step(zen_layer(insts.drop_last()), insts.last())
    }
}

/// A card sets anything at all.
pub open spec fn has_part_fields(f: PartFieldsV) -> bool {
    f.mpn is Some || f.manufacturer is Some || f.datasheet is Some || f.vendors.len() > 0
}

pub open spec fn card_source(name: Seq<u8>) -> Seq<u8> {
    "card:".spec_bytes() + name
}

pub open spec fn msg_card_ignored(card: Seq<u8>, path: Seq<u8>, why: Seq<u8>) -> Seq<u8> {
    "card ".spec_bytes() + card + ": part fields ignored for ".spec_bytes() + path + ": ".spec_bytes()
        + why
}

/// Resolution so far, and its problems.
pub type ResolveState = (Resolved, Seq<Seq<u8>>);

/// The middle layer, one instance defined by a card's file: the card's
/// description and fields go to the instance's part target; a card that
/// sets fields but has no target reports why.
pub open spec fn card_apply(insts: Seq<InstanceDoc>, c: CardV, path: Seq<u8>, st: ResolveState) -> ResolveState {
    let src = card_source(c.name);
    match spec_component_target(insts, path) {
        Ok(t) => {
            let out1 = match c.description {
                Some(d) => assoc_insert(st.0, t, set_description(entry_of(st.0, t), Some(d), src)),
                None => st.0,
            };
            (assoc_insert(out1, t, spec_apply_fields(entry_of(out1, t), c.part, src)), st.1)
        },
        Err(why) => (
            st.0,
            if has_part_fields(c.part) {
                st.1.push(msg_card_ignored(c.name, path, why))
            } else {
                st.1
            },
        ),
    }
}

/// A card applied to each instance of `part` whose source file is `zen`.
pub open spec fn card_fold(
    all: Seq<InstanceDoc>,
    part: Seq<InstanceDoc>,
    c: CardV,
    zen: Seq<u8>,
    st: ResolveState,
) -> ResolveState
    decreases part.len(),
{
    if part.len() == 0 {
        st
    } else {
        let s = card_fold(all, part.drop_last(), c, zen, st);
        let i = part.last();
        if ov(i.source_file) == Some(zen) {
            card_apply(all, c, i.path@, s)
        } else {
            s
        }
    }
}

pub open spec fn cards_layer(insts: Seq<InstanceDoc>, cards: Seq<(Seq<u8>, CardV)>, st: ResolveState) -> ResolveState
    decreases cards.len(),
{
    if cards.len() == 0 {
        st
    } else {
        let s = cards_layer(insts, cards.drop_last(), st);
        let c = cards.last().1;
        match c.zen_file {
            Some(z) => card_fold(insts, insts, c, z, s),
            None => s,
        }
    }
}

pub open spec fn msg_no_instance(key: Seq<u8>) -> Seq<u8> {
    "etchable.toml: parts.\"".spec_bytes() + key + "\" does not match any instance".spec_bytes()
}

pub open spec fn msg_override_target(key: Seq<u8>, why: Seq<u8>) -> Seq<u8> {
    "etchable.toml: parts.\"".spec_bytes() + key + "\": ".spec_bytes() + why
}

/// The top layer, one override keyed by root-stripped path.
pub open spec fn override_apply(insts: Seq<InstanceDoc>, key: Seq<u8>, f: PartFieldsV, st: ResolveState) -> ResolveState {
    let full = "root.".spec_bytes() + key;
    if instance_index(insts, full) is None {
        (st.0, st.1.push(msg_no_instance(key)))
    } else {
        match spec_component_target(insts, full) {
            Ok(t) => (
                assoc_insert(st.0, t, spec_apply_fields(entry_of(st.0, t), f, "override".spec_bytes())),
                st.1,
            ),
            Err(why) => (st.0, st.1.push(msg_override_target(key, why))),
        }
    }
}

pub open spec fn overrides_layer(insts: Seq<InstanceDoc>, ovs: Seq<(Seq<u8>, PartFieldsV)>, st: ResolveState) -> ResolveState
    decreases ovs.len(),
{
    if ovs.len() == 0 {
        st
    } else {
        override_apply(insts, ovs.last().0, ovs.last().1, overrides_layer(insts, ovs.drop_last(), st))
    }
}

/// Part resolution: the attribute layer, then the cards, then the
/// overrides, each laid over the last.
pub open spec fn spec_resolve_parts(project: ProjectV, insts: Seq<InstanceDoc>) -> ResolveState {
    overrides_layer(
        insts,
        project.part_overrides,
        cards_layer(insts, project.components, (zen_layer(insts), Seq::empty())),
    )
}

fn text_attr(attrs: &Vec<(Vec<u8>, Vec<u8>)>, key: &[u8]) -> (r: Option<Vec<u8>>)
    ensures
        ov(r) == attr_text(attrs@, key@),
{
    match find_pair(attrs, key) {
        Some(i) => Some(copy(&attrs[i].1)),
        None => None,
    }
}

fn zen_exec(insts: &Vec<InstanceDoc>) -> (r: Vec<(Vec<u8>, ResolvedPart)>)
    ensures
        kv_view(r@) == zen_layer(insts@),
{
    let mut out: Vec<(Vec<u8>, ResolvedPart)> = Vec::new();
    let mut i: usize = 0;
    assert(insts@.take(0) =~= Seq::<InstanceDoc>::empty());
    assert(kv_view(out@) =~= Seq::<(Seq<u8>, PartV)>::empty());
    while i < insts.len()
        invariant
            i <= insts@.len(),
            kv_view(out@) == zen_layer(insts@.take(i as int)),
        decreases insts.len() - i,
    {
        proof {
            assert(insts@.take(i + 1).drop_last() =~= insts@.take(i as int));
            assert(insts@.take(i + 1).last() == insts@[i as int]);
        }
        let inst = &insts[i];
        let mpn = text_attr(&inst.text_attributes, lit("mpn").as_slice());
        let man = text_attr(&inst.text_attributes, lit("manufacturer").as_slice());
        if inst.kind == InstanceKind::Component && (mpn.is_some() || man.is_some()) {
            let ghost before = out@;
            let (j, found, mut p) = take_part(&mut out, inst.path.as_slice());
            let ghost p0 = p@;
            let zen = lit("zen");
            if mpn.is_some() {
                p.mpn = mpn;
                set_source(&mut p, lit("mpn"), zen.as_slice());
            }
            assert(p@ =~= set_mpn(p0, ov(mpn), zen@));
            let ghost p1 = p@;
            if man.is_some() {
                p.manufacturer = man;
                set_source(&mut p, lit("manufacturer"), zen.as_slice());
            }
            assert(p@ =~= set_manufacturer(p1, ov(man), zen@));
            put_part(&mut out, j, found, Ghost(before), inst.path.as_slice(), p);
        }
        i = i + 1;
    }
    assert(insts@.take(insts@.len() as int) =~= insts@);
    out
}

fn has_part_fields_exec(f: &PartFields) -> (r: bool)
    ensures
        r == has_part_fields(f@),
{
    f.mpn.is_some() || f.manufacturer.is_some() || f.datasheet.is_some() || f.vendors.len() > 0
}

fn push_problem(problems: &mut Vec<Vec<u8>>, m: Vec<u8>)
    ensures
        views(final(problems)@) == views(old(problems)@).push(m@),
{
    let ghost before = problems@;
    problems.push(m);
    proof {
        lemma_map_push(before, m, |x: Vec<u8>| x@);
    }
}

fn card_apply_exec(
    sch: &SchematicDoc,
    c: &ComponentCard,
    path: &[u8],
    out: &mut Vec<(Vec<u8>, ResolvedPart)>,
    problems: &mut Vec<Vec<u8>>,
)
    ensures
        ({
            let st = card_apply(sch.instances@, c@, path@, (kv_view(old(out)@), views(old(problems)@)));
            kv_view(final(out)@) == st.0 && views(final(problems)@) == st.1
        }),
{
    let mut src = lit("card:");
    push_all(&mut src, c.name.as_slice());
    match component_target(sch, path) {
        Ok(t) => {
            if c.description.is_some() {
                let ghost before = out@;
                let (j, found, mut p) = take_part(out, t.as_slice());
                p.description = copy_opt(&c.description);
                set_source(&mut p, lit("description"), src.as_slice());
                put_part(out, j, found, Ghost(before), t.as_slice(), p);
            }
            let ghost before = out@;
            let (j, found, mut p) = take_part(out, t.as_slice());
            apply_fields(&mut p, &c.part, src.as_slice());
            put_part(out, j, found, Ghost(before), t.as_slice(), p);
        },
        Err(why) => {
            if has_part_fields_exec(&c.part) {
                let mut m = lit("card ");
                push_all(&mut m, c.name.as_slice());
                push_all(&mut m, lit(": part fields ignored for ").as_slice());
                push_all(&mut m, path);
                push_all(&mut m, lit(": ").as_slice());
                push_all(&mut m, why.as_slice());
                push_problem(problems, m);
            }
        },
    }
}

fn cards_exec(
    sch: &SchematicDoc,
    cards: &Vec<(Vec<u8>, ComponentCard)>,
    out: &mut Vec<(Vec<u8>, ResolvedPart)>,
    problems: &mut Vec<Vec<u8>>,
)
    ensures
        ({
            let st = cards_layer(sch.instances@, kv_view(cards@), (kv_view(old(out)@), views(old(problems)@)));
            kv_view(final(out)@) == st.0 && views(final(problems)@) == st.1
        }),
{
    let ghost st0: ResolveState = (kv_view(out@), views(problems@));
    let ghost cv = kv_view(cards@);
    let insts = &sch.instances;
    let mut i: usize = 0;
    assert(cv.take(0) =~= Seq::<(Seq<u8>, CardV)>::empty());
    while i < cards.len()
        invariant
            i <= cards@.len(),
            cv == kv_view(cards@),
            insts == &sch.instances,
            (kv_view(out@), views(problems@)) == cards_layer(insts@, cv.take(i as int), st0),
        decreases cards.len() - i,
    {
        proof {
            assert(cv.take(i + 1).drop_last() =~= cv.take(i as int));
            assert(cv.take(i + 1).last() == cv[i as int]);
        }
        let c = &cards[i].1;
        match &c.zen_file {
            Some(z) => {
                let ghost s0: ResolveState = (kv_view(out@), views(problems@));
                let mut k: usize = 0;
                assert(insts@.take(0) =~= Seq::<InstanceDoc>::empty());
                while k < insts.len()
                    invariant
                        k <= insts@.len(),
                        insts == &sch.instances,
                        (kv_view(out@), views(problems@)) == card_fold(
                            insts@,
                            insts@.take(k as int),
                            c@,
                            z@,
                            s0,
                        ),
                    decreases insts.len() - k,
                {
                    proof {
                        assert(insts@.take(k + 1).drop_last() =~= insts@.take(k as int));
                        assert(insts@.take(k + 1).last() == insts@[k as int]);
                    }
                    let same = match &insts[k].source_file {
                        Some(sf) => bytes_eq(sf.as_slice(), z.as_slice()),
                        None => false,
                    };
                    if same {
                        card_apply_exec(sch, c, insts[k].path.as_slice(), out, problems);
                    }
                    k = k + 1;
                }
                assert(insts@.take(insts@.len() as int) =~= insts@);
            },
            None => {},
        }
        i = i + 1;
    }
    assert(cv.take(cv.len() as int) =~= cv);
}

fn override_apply_exec(
    sch: &SchematicDoc,
    key: &[u8],
    fields: &PartFields,
    out: &mut Vec<(Vec<u8>, ResolvedPart)>,
    problems: &mut Vec<Vec<u8>>,
)
    ensures
        ({
            let st = override_apply(sch.instances@, key@, fields@, (kv_view(old(out)@), views(old(problems)@)));
            kv_view(final(out)@) == st.0 && views(final(problems)@) == st.1
        }),
{
    let mut full = lit("root.");
    push_all(&mut full, key);
    if sch.instance(full.as_slice()).is_none() {
        let mut m = lit("etchable.toml: parts.\"");
        push_all(&mut m, key);
        push_all(&mut m, lit("\" does not match any instance").as_slice());
        push_problem(problems, m);
        return;
    }
    match component_target(sch, full.as_slice()) {
        Ok(t) => {
            let ghost before = out@;
            let (j, found, mut p) = take_part(out, t.as_slice());
            apply_fields(&mut p, fields, lit("override").as_slice());
            put_part(out, j, found, Ghost(before), t.as_slice(), p);
        },
        Err(why) => {
            let mut m = lit("etchable.toml: parts.\"");
            push_all(&mut m, key);
            push_all(&mut m, lit("\": ").as_slice());
            push_all(&mut m, why.as_slice());
            push_problem(problems, m);
        },
    }
}

/// Resolve the part selection of every component instance the project
/// says anything about; returns the parts keyed by instance path, and
/// the problems found.
pub fn resolve_parts(project: &ProjectDoc, sch: &SchematicDoc) -> (r: (
    Vec<(Vec<u8>, ResolvedPart)>,
    Vec<Vec<u8>>,
))
    ensures
        (kv_view(r.0@), views(r.1@)) == spec_resolve_parts(project@, sch.instances@),
{
    let mut out = zen_exec(&sch.instances);
    let mut problems: Vec<Vec<u8>> = Vec::new();
    assert(views(problems@) =~= Seq::<Seq<u8>>::empty());
    cards_exec(sch, &project.components, &mut out, &mut problems);
    let ghost st1: ResolveState = (kv_view(out@), views(problems@));
    let ovs = &project.part_overrides;
    let ghost ov_v = kv_view(ovs@);
    let mut i: usize = 0;
    assert(ov_v.take(0) =~= Seq::<(Seq<u8>, PartFieldsV)>::empty());
    while i < ovs.len()
        invariant
            i <= ovs@.len(),
            ov_v == kv_view(ovs@),
            (kv_view(out@), views(problems@)) == overrides_layer(sch.instances@, ov_v.take(i as int), st1),
        decreases ovs.len() - i,
    {
        proof {
            assert(ov_v.take(i + 1).drop_last() =~= ov_v.take(i as int));
            assert(ov_v.take(i + 1).last() == ov_v[i as int]);
        }
        override_apply_exec(sch, ovs[i].0.as_slice(), &ovs[i].1, &mut out, &mut problems);
        i = i + 1;
    }
    assert(ov_v.take(ov_v.len() as int) =~= ov_v);
    (out, problems)
}


// ---------------------------------------------------------------------------
// Laws
// ---------------------------------------------------------------------------

/// The source key of a vendor: `vendors.<name>`.
pub open spec fn vendor_key(name: Seq<u8>) -> Seq<u8> {
    "vendors.".spec_bytes() + name
}

proof fn lemma_literals()
    ensures
        "mpn".spec_bytes().len() == 3,
        "manufacturer".spec_bytes().len() == 12,
        "datasheet".spec_bytes().len() == 9,
        "description".spec_bytes().len() == 11,
        "vendors.".spec_bytes().len() == 8,
        "vendors.".spec_bytes()[0] == 118u8,
        "manufacturer".spec_bytes()[0] == 109u8,
        "datasheet".spec_bytes()[0] == 100u8,
        "mpn".spec_bytes() != "manufacturer".spec_bytes(),
        "mpn".spec_bytes() != "datasheet".spec_bytes(),
        "manufacturer".spec_bytes() != "datasheet".spec_bytes(),
        "description".spec_bytes() != "mpn".spec_bytes(),
        "description".spec_bytes() != "manufacturer".spec_bytes(),
        "description".spec_bytes() != "datasheet".spec_bytes(),
{
    reveal_strlit("mpn");
    reveal_strlit("manufacturer");
    reveal_strlit("datasheet");
    reveal_strlit("description");
    reveal_strlit("vendors.");
    broadcast use vstd::string::is_ascii_spec_bytes;

    assert(vstd::string::is_ascii("mpn"));
    assert(vstd::string::is_ascii("manufacturer"));
    assert(vstd::string::is_ascii("datasheet"));
    assert(vstd::string::is_ascii("description"));
    assert(vstd::string::is_ascii("vendors."));
    assert("description".spec_bytes()[0] != "datasheet".spec_bytes()[1]
        || "description".spec_bytes().len() != "datasheet".spec_bytes().len());
}

proof fn lemma_vendor_key_injective(a: Seq<u8>, b: Seq<u8>)
    ensures
        vendor_key(a) == vendor_key(b) ==> a == b,
        vendor_key(a).len() >= 8,
{
    lemma_literals();
    let p = "vendors.".spec_bytes();
    if vendor_key(a) == vendor_key(b) {
        assert(a =~= vendor_key(a).subrange(p.len() as int, vendor_key(a).len() as int));
        assert(b =~= vendor_key(b).subrange(p.len() as int, vendor_key(b).len() as int));
    }
}

proof fn lemma_vendor_key_not_field(n: Seq<u8>)
    ensures
        vendor_key(n) != "mpn".spec_bytes(),
        vendor_key(n) != "manufacturer".spec_bytes(),
        vendor_key(n) != "datasheet".spec_bytes(),
{
    lemma_literals();
    lemma_vendor_key_injective(n, n);
    if vendor_key(n) == "mpn".spec_bytes() {
        assert(vendor_key(n).len() == 3);
    }
    assert(vendor_key(n)[0] == 118u8);
}

proof fn lemma_sorted_prefix<V>(m: Seq<(Seq<u8>, V)>)
    requires
        sorted_keys(m),
        m.len() > 0,
    ensures
        sorted_keys(m.drop_last()),
{
    assert forall|i: int, j: int| 0 <= i < j < m.drop_last().len() implies crate::bytes::bytes_lt(
        #[trigger] m.drop_last()[i].0,
        #[trigger] m.drop_last()[j].0,
    ) by {
        assert(m.drop_last()[i] == m[i] && m.drop_last()[j] == m[j]);
    }
}

/// A lookup in a sorted map against its last entry.
proof fn lemma_sorted_get_last<V>(m: Seq<(Seq<u8>, V)>, k: Seq<u8>)
    requires
        sorted_keys(m),
        m.len() > 0,
    ensures
        assoc_get(m, k) == (if m.last().0 == k {
            Some(m.last().1)
        } else {
            assoc_get(m.drop_last(), k)
        }),
{
    lemma_sorted_prefix(m);
    let d = m.drop_last();
    lemma_sorted_get(m, k);
    lemma_sorted_get(d, k);
    let n = m.len() - 1;
    if m.last().0 == k {
        assert(m[n].0 == k);
    } else if exists|i: int| 0 <= i < d.len() && d[i].0 == k {
        let i = choose|i: int| 0 <= i < d.len() && d[i].0 == k;
        assert(m[i] == d[i]);
    } else {
        assert forall|i: int| 0 <= i < m.len() implies #[trigger] m[i].0 != k by {
            if i < n {
                assert(m[i] == d[i]);
            }
        }
    }
}

/// Laying a vendor map over a part: each vendor it names takes its
/// selection, sourced `src`; every other vendor and source is kept.
proof fn lemma_vendors_apply(p: PartV, vs: Seq<(Seq<u8>, VendorV)>, src: Seq<u8>)
    requires
        sorted_keys(p.vendors),
        sorted_keys(p.sources),
        sorted_keys(vs),
    ensures
        ({
            let r = vendors_apply(p, vs, src);
            &&& r.instance == p.instance && r.mpn == p.mpn && r.manufacturer == p.manufacturer
            &&& r.datasheet == p.datasheet && r.description == p.description
            &&& sorted_keys(r.vendors) && sorted_keys(r.sources)
            &&& forall|k: Seq<u8>| #[trigger] assoc_get(r.vendors, k) == (if assoc_get(vs, k) is Some {
                assoc_get(vs, k)
            } else {
                assoc_get(p.vendors, k)
            })
            &&& forall|k: Seq<u8>| assoc_get(vs, k) is Some ==> #[trigger] assoc_get(r.sources, vendor_key(k)) == Some(src)
            &&& forall|sk: Seq<u8>| (forall|i: int| 0 <= i < vs.len() ==> vendor_key(#[trigger] vs[i].0) != sk)
                ==> #[trigger] assoc_get(r.sources, sk) == assoc_get(p.sources, sk)
        }),
    decreases vs.len(),
{
    if vs.len() > 0 {
        lemma_sorted_prefix(vs);
        let d = vs.drop_last();
        lemma_vendors_apply(p, d, src);
        let q = vendors_apply(p, d, src);
        let (name, sel) = vs.last();
        let r = vendors_apply(p, vs, src);
        law_sorted_insert(q.vendors, name, sel);
        law_sorted_insert(q.sources, vendor_key(name), src);
        assert forall|k: Seq<u8>| #[trigger] assoc_get(r.vendors, k) == (if assoc_get(vs, k) is Some {
            assoc_get(vs, k)
        } else {
            assoc_get(p.vendors, k)
        }) by {
            lemma_sorted_get_last(vs, k);
            assert(r.vendors == assoc_insert(q.vendors, name, sel));
            if k != name {
                assert(assoc_get(assoc_insert(q.vendors, name, sel), k) == assoc_get(q.vendors, k));
            }
        }
        assert forall|k: Seq<u8>| assoc_get(vs, k) is Some implies #[trigger] assoc_get(r.sources, vendor_key(k)) == Some(src) by {
            lemma_sorted_get_last(vs, k);
            lemma_vendor_key_injective(k, name);
            assert(r.sources == assoc_insert(q.sources, vendor_key(name), src));
            if k != name {
                assert(assoc_get(assoc_insert(q.sources, vendor_key(name), src), vendor_key(k)) == assoc_get(q.sources, vendor_key(k)));
                assert(assoc_get(d, k) is Some);
            }
        }
        assert forall|sk: Seq<u8>| (forall|i: int| 0 <= i < vs.len() ==> vendor_key(#[trigger] vs[i].0) != sk)
            implies #[trigger] assoc_get(r.sources, sk) == assoc_get(p.sources, sk) by {
            assert(vendor_key(vs[vs.len() - 1].0) != sk);
            assert forall|i: int| 0 <= i < d.len() implies vendor_key(#[trigger] d[i].0) != sk by {
                assert(d[i] == vs[i]);
            }
            assert(r.sources == assoc_insert(q.sources, vendor_key(name), src));
            assert(assoc_get(assoc_insert(q.sources, vendor_key(name), src), sk) == assoc_get(q.sources, sk));
        }
    }
}

/// Laying part fields over a part — the rule of every layer of part
/// resolution: a field the fields set wins and records `src` as its
/// source; a field they leave unset keeps the part's value; vendor maps
/// union, the fields' selection winning per vendor.
pub proof fn law_later_fields_win(p: PartV, f: PartFieldsV, src: Seq<u8>)
    requires
        sorted_keys(p.vendors),
        sorted_keys(p.sources),
        sorted_keys(f.vendors),
    ensures
        ({
            let r = spec_apply_fields(p, f, src);
            &&& r.instance == p.instance && r.description == p.description
            &&& r.mpn == (if f.mpn is Some { f.mpn } else { p.mpn })
            &&& r.manufacturer == (if f.manufacturer is Some { f.manufacturer } else { p.manufacturer })
            &&& r.datasheet == (if f.datasheet is Some { f.datasheet } else { p.datasheet })
            &&& f.mpn is Some ==> assoc_get(r.sources, "mpn".spec_bytes()) == Some(src)
            &&& f.manufacturer is Some ==> assoc_get(r.sources, "manufacturer".spec_bytes()) == Some(src)
            &&& f.datasheet is Some ==> assoc_get(r.sources, "datasheet".spec_bytes()) == Some(src)
            &&& forall|k: Seq<u8>| #[trigger] assoc_get(r.vendors, k) == (if assoc_get(f.vendors, k) is Some {
                assoc_get(f.vendors, k)
            } else {
                assoc_get(p.vendors, k)
            })
            &&& forall|k: Seq<u8>| assoc_get(f.vendors, k) is Some ==> #[trigger] assoc_get(r.sources, vendor_key(k)) == Some(src)
            &&& sorted_keys(r.vendors) && sorted_keys(r.sources)
        }),
{
    lemma_literals();
    let mpn = "mpn".spec_bytes();
    let man = "manufacturer".spec_bytes();
    let ds = "datasheet".spec_bytes();
    let p1 = set_mpn(p, f.mpn, src);
    law_sorted_insert(p.sources, mpn, src);
    let p2 = set_manufacturer(p1, f.manufacturer, src);
    law_sorted_insert(p1.sources, man, src);
    let p3 = set_datasheet(p2, f.datasheet, src);
    law_sorted_insert(p2.sources, ds, src);
    lemma_vendors_apply(p3, f.vendors, src);
    assert forall|i: int| 0 <= i < f.vendors.len() implies vendor_key(#[trigger] f.vendors[i].0) != mpn
        && vendor_key(f.vendors[i].0) != man && vendor_key(f.vendors[i].0) != ds by {
        lemma_vendor_key_not_field(f.vendors[i].0);
    }
}


/// A resolved part's own maps are sorted.
pub open spec fn part_wf(p: PartV) -> bool {
    sorted_keys(p.vendors) && sorted_keys(p.sources)
}

/// Resolved parts keyed by instance path, each path once and in order,
/// each part well-formed.
pub open spec fn resolved_wf(out: Resolved) -> bool {
    &&& sorted_keys(out)
    &&& forall|i: int| 0 <= i < out.len() ==> part_wf(#[trigger] out[i].1)
}

/// The project's maps are sorted: its cards, its overrides, and the
/// vendors of each.
pub open spec fn project_maps_sorted(p: ProjectV) -> bool {
    crate::project::cards_sorted(p.components) && crate::project::overrides_sorted(p.part_overrides)
}

proof fn lemma_entry_wf(out: Resolved, t: Seq<u8>)
    requires
        resolved_wf(out),
    ensures
        part_wf(entry_of(out, t)),
{
    crate::assoc::lemma_stop_at(out, t);
    let j = stop_at(out, t);
    if 0 <= j < out.len() && out[j].0 == t {
        assert(part_wf(out[j].1));
    }
}

proof fn lemma_upsert_wf(out: Resolved, t: Seq<u8>, p: PartV)
    requires
        resolved_wf(out),
        part_wf(p),
    ensures
        resolved_wf(assoc_insert(out, t, p)),
{
    law_sorted_insert(out, t, p);
    crate::assoc::lemma_sorted_insert_shape(out, t, p);
    let r = assoc_insert(out, t, p);
    let j = stop_at(out, t);
    let found = j < out.len() && out[j].0 == t;
    let skip_from = if found { j + 1 } else { j };
    assert forall|i: int| 0 <= i < r.len() implies part_wf(#[trigger] r[i].1) by {
        if i < j {
            assert(r[i] == out[i]);
        } else if i > j {
            assert(r[i] == out[i - j - 1 + skip_from]);
        }
    }
}

proof fn lemma_set_wf(p: PartV, v: Option<Seq<u8>>, src: Seq<u8>)
    requires
        part_wf(p),
    ensures
        part_wf(set_mpn(p, v, src)),
        part_wf(set_manufacturer(p, v, src)),
        part_wf(set_datasheet(p, v, src)),
        part_wf(set_description(p, v, src)),
{
    law_sorted_insert(p.sources, "mpn".spec_bytes(), src);
    law_sorted_insert(p.sources, "manufacturer".spec_bytes(), src);
    law_sorted_insert(p.sources, "datasheet".spec_bytes(), src);
    law_sorted_insert(p.sources, "description".spec_bytes(), src);
}

proof fn lemma_apply_wf(p: PartV, f: PartFieldsV, src: Seq<u8>)
    requires
        part_wf(p),
        sorted_keys(f.vendors),
    ensures
        part_wf(spec_apply_fields(p, f, src)),
{
    law_later_fields_win(p, f, src);
}

proof fn lemma_zen_layer_wf(insts: Seq<InstanceDoc>)
    ensures
        resolved_wf(zen_layer(insts)),
    decreases insts.len(),
{
    if insts.len() > 0 {
        lemma_zen_layer_wf(insts.drop_last());
        let out = zen_layer(insts.drop_last());
        let inst = insts.last();
        lemma_entry_wf(out, inst.path@);
        let e = entry_of(out, inst.path@);
        let zen = "zen".spec_bytes();
        lemma_set_wf(e, attr_text(inst.text_attributes@, "mpn".spec_bytes()), zen);
        lemma_set_wf(
            set_mpn(e, attr_text(inst.text_attributes@, "mpn".spec_bytes()), zen),
            attr_text(inst.text_attributes@, "manufacturer".spec_bytes()),
            zen,
        );
        lemma_upsert_wf(
            out,
            inst.path@,
            set_manufacturer(
                set_mpn(e, attr_text(inst.text_attributes@, "mpn".spec_bytes()), zen),
                attr_text(inst.text_attributes@, "manufacturer".spec_bytes()),
                zen,
            ),
        );
    } else {
        crate::assoc::lemma_empty_sorted::<PartV>();
    }
}

proof fn lemma_card_apply_wf(insts: Seq<InstanceDoc>, c: CardV, path: Seq<u8>, st: ResolveState)
    requires
        resolved_wf(st.0),
        sorted_keys(c.part.vendors),
    ensures
        resolved_wf(card_apply(insts, c, path, st).0),
{
    let src = card_source(c.name);
    match spec_component_target(insts, path) {
        Ok(t) => {
            let out1 = match c.description {
                Some(d) => assoc_insert(st.0, t, set_description(entry_of(st.0, t), Some(d), src)),
                None => st.0,
            };
            if c.description is Some {
                lemma_entry_wf(st.0, t);
                lemma_set_wf(entry_of(st.0, t), c.description, src);
                lemma_upsert_wf(st.0, t, set_description(entry_of(st.0, t), c.description, src));
            }
            lemma_entry_wf(out1, t);
            lemma_apply_wf(entry_of(out1, t), c.part, src);
            lemma_upsert_wf(out1, t, spec_apply_fields(entry_of(out1, t), c.part, src));
        },
        Err(_) => {},
    }
}

proof fn lemma_card_fold_wf(all: Seq<InstanceDoc>, part: Seq<InstanceDoc>, c: CardV, zen: Seq<u8>, st: ResolveState)
    requires
        resolved_wf(st.0),
        sorted_keys(c.part.vendors),
    ensures
        resolved_wf(card_fold(all, part, c, zen, st).0),
    decreases part.len(),
{
    if part.len() > 0 {
        lemma_card_fold_wf(all, part.drop_last(), c, zen, st);
        let s = card_fold(all, part.drop_last(), c, zen, st);
        lemma_card_apply_wf(all, c, part.last().path@, s);
    }
}

proof fn lemma_cards_layer_wf(insts: Seq<InstanceDoc>, cards: Seq<(Seq<u8>, CardV)>, st: ResolveState)
    requires
        resolved_wf(st.0),
        forall|i: int| 0 <= i < cards.len() ==> sorted_keys(#[trigger] cards[i].1.part.vendors),
    ensures
        resolved_wf(cards_layer(insts, cards, st).0),
    decreases cards.len(),
{
    if cards.len() > 0 {
        let d = cards.drop_last();
        assert forall|i: int| 0 <= i < d.len() implies sorted_keys(#[trigger] d[i].1.part.vendors) by {
            assert(d[i] == cards[i]);
        }
        lemma_cards_layer_wf(insts, d, st);
        let s = cards_layer(insts, d, st);
        let c = cards.last().1;
        assert(sorted_keys(cards[cards.len() - 1].1.part.vendors));
        match c.zen_file {
            Some(z) => lemma_card_fold_wf(insts, insts, c, z, s),
            None => {},
        }
    }
}

proof fn lemma_overrides_layer_wf(insts: Seq<InstanceDoc>, ovs: Seq<(Seq<u8>, PartFieldsV)>, st: ResolveState)
    requires
        resolved_wf(st.0),
        forall|i: int| 0 <= i < ovs.len() ==> sorted_keys(#[trigger] ovs[i].1.vendors),
    ensures
        resolved_wf(overrides_layer(insts, ovs, st).0),
    decreases ovs.len(),
{
    if ovs.len() > 0 {
        let d = ovs.drop_last();
        assert forall|i: int| 0 <= i < d.len() implies sorted_keys(#[trigger] d[i].1.vendors) by {
            assert(d[i] == ovs[i]);
        }
        lemma_overrides_layer_wf(insts, d, st);
        let s = overrides_layer(insts, d, st);
        let (key, f) = ovs.last();
        assert(sorted_keys(ovs[ovs.len() - 1].1.vendors));
        let full = "root.".spec_bytes() + key;
        if instance_index(insts, full) is Some {
            match spec_component_target(insts, full) {
                Ok(t) => {
                    lemma_entry_wf(s.0, t);
                    lemma_apply_wf(entry_of(s.0, t), f, "override".spec_bytes());
                    lemma_upsert_wf(s.0, t, spec_apply_fields(entry_of(s.0, t), f, "override".spec_bytes()));
                },
                Err(_) => {},
            }
        }
    }
}

/// Part resolution yields each component instance at most once, keyed by
/// path in order, and keeps every part's vendor and source maps sorted,
/// whatever the schematic, for a project whose maps are sorted.
pub proof fn law_resolution_keyed(project: ProjectV, insts: Seq<InstanceDoc>)
    requires
        project_maps_sorted(project),
    ensures
        resolved_wf(spec_resolve_parts(project, insts).0),
{
    lemma_zen_layer_wf(insts);
    lemma_cards_layer_wf(insts, project.components, (zen_layer(insts), Seq::empty()));
    let st1 = cards_layer(insts, project.components, (zen_layer(insts), Seq::empty()));
    lemma_overrides_layer_wf(insts, project.part_overrides, st1);
}

/// The part `p` carries every field the card `c` sets: its `mpn`,
/// `manufacturer` and `datasheet` (each sourced `card:<name>`), its
/// description, and its selection for each vendor it names.
pub open spec fn carries_card(p: PartV, c: CardV) -> bool {
    let src = card_source(c.name);
    &&& c.part.mpn is Some ==> p.mpn == c.part.mpn && assoc_get(p.sources, "mpn".spec_bytes()) == Some(src)
    &&& c.part.manufacturer is Some ==> p.manufacturer == c.part.manufacturer && assoc_get(
        p.sources,
        "manufacturer".spec_bytes(),
    ) == Some(src)
    &&& c.part.datasheet is Some ==> p.datasheet == c.part.datasheet && assoc_get(
        p.sources,
        "datasheet".spec_bytes(),
    ) == Some(src)
    &&& c.description is Some ==> p.description == c.description
    &&& forall|v: Seq<u8>|
        assoc_get(c.part.vendors, v) is Some ==> #[trigger] assoc_get(p.vendors, v) == assoc_get(c.part.vendors, v)
}

proof fn lemma_card_apply_at(insts: Seq<InstanceDoc>, c: CardV, path: Seq<u8>, st: ResolveState, t: Seq<u8>)
    requires
        resolved_wf(st.0),
        sorted_keys(c.part.vendors),
    ensures
        spec_component_target(insts, path) == Ok::<Seq<u8>, Seq<u8>>(t) ==> carries_card(
            entry_of(card_apply(insts, c, path, st).0, t),
            c,
        ),
        spec_component_target(insts, path) != Ok::<Seq<u8>, Seq<u8>>(t) ==> entry_of(
            card_apply(insts, c, path, st).0,
            t,
        ) == entry_of(st.0, t),
{
    let src = card_source(c.name);
    match spec_component_target(insts, path) {
        Ok(t2) => {
            let out1 = match c.description {
                Some(d) => assoc_insert(st.0, t2, set_description(entry_of(st.0, t2), Some(d), src)),
                None => st.0,
            };
            lemma_entry_wf(st.0, t2);
            lemma_set_wf(entry_of(st.0, t2), c.description, src);
            if c.description is Some {
                lemma_upsert_wf(st.0, t2, set_description(entry_of(st.0, t2), c.description, src));
                law_sorted_insert(st.0, t2, set_description(entry_of(st.0, t2), c.description, src));
            }
            lemma_entry_wf(out1, t2);
            let fin = spec_apply_fields(entry_of(out1, t2), c.part, src);
            law_later_fields_win(entry_of(out1, t2), c.part, src);
            law_sorted_insert(out1, t2, fin);
            if t2 == t {
                assert(entry_of(card_apply(insts, c, path, st).0, t) == fin);
                if c.description is Some {
                    assert(entry_of(out1, t2).description == c.description);
                }
            } else {
                assert(entry_of(card_apply(insts, c, path, st).0, t) == entry_of(out1, t));
                assert(entry_of(out1, t) == entry_of(st.0, t));
            }
        },
        Err(_) => {},
    }
}

/// One card laid over the instances defined by its file reaches every one
/// of them: for each instance of `part` whose source file is `zen` and
/// whose part target is `t`, the part held for `t` afterwards carries all
/// the card's fields, however many instances share the card and wherever
/// the instance stands among them.
pub proof fn law_card_reaches_every_instance(
    all: Seq<InstanceDoc>,
    part: Seq<InstanceDoc>,
    c: CardV,
    zen: Seq<u8>,
    st: ResolveState,
    k: int,
    t: Seq<u8>,
)
    requires
        resolved_wf(st.0),
        sorted_keys(c.part.vendors),
        0 <= k < part.len(),
        ov(part[k].source_file) == Some(zen),
        spec_component_target(all, part[k].path@) == Ok::<Seq<u8>, Seq<u8>>(t),
    ensures
        carries_card(entry_of(card_fold(all, part, c, zen, st).0, t), c),
    decreases part.len(),
{
    let d = part.drop_last();
    lemma_card_fold_wf(all, d, c, zen, st);
    let s = card_fold(all, d, c, zen, st);
    let last = part.last();
    lemma_card_apply_at(all, c, last.path@, s, t);
    if k == part.len() - 1 {
        assert(last == part[k]);
    } else {
        assert(d[k] == part[k]);
        law_card_reaches_every_instance(all, d, c, zen, st, k, t);
    }
}

/// One card laid over the instances touches no other part: the part held
/// for `t` is unchanged when no instance of `part` from the card's file
/// has `t` as its part target.
pub proof fn law_card_touches_only_its_targets(
    all: Seq<InstanceDoc>,
    part: Seq<InstanceDoc>,
    c: CardV,
    zen: Seq<u8>,
    st: ResolveState,
    t: Seq<u8>,
)
    requires
        resolved_wf(st.0),
        sorted_keys(c.part.vendors),
        forall|k: int|
            0 <= k < part.len() && ov((#[trigger] part[k]).source_file) == Some(zen) ==> spec_component_target(
                all,
                part[k].path@,
            ) != Ok::<Seq<u8>, Seq<u8>>(t),
    ensures
        entry_of(card_fold(all, part, c, zen, st).0, t) == entry_of(st.0, t),
    decreases part.len(),
{
    if part.len() > 0 {
        let d = part.drop_last();
        assert forall|k: int|
            0 <= k < d.len() && ov((#[trigger] d[k]).source_file) == Some(zen) implies spec_component_target(
                all,
                d[k].path@,
            ) != Ok::<Seq<u8>, Seq<u8>>(t) by {
            assert(d[k] == part[k]);
        }
        law_card_touches_only_its_targets(all, d, c, zen, st, t);
        lemma_card_fold_wf(all, d, c, zen, st);
        let s = card_fold(all, d, c, zen, st);
        let last = part.last();
        assert(part[part.len() - 1] == last);
        lemma_card_apply_at(all, c, last.path@, s, t);
    }
}

} // verus!
