//! The project format. A directory is a project when `etchable.toml` sits
//! at its root; its `[project]` table names the project and its board
//! entry, its `[parts]` table holds part overrides keyed by root-stripped
//! instance path, and `components/<name>.toml` cards describe components.
//! Reading is tolerant: every issue becomes a problem message and the rest
//! is read anyway. Files are read and TOML is parsed by the caller, which
//! hands over the tables; what they say is decided here.
use vstd::prelude::*;
use vstd::string::StringSliceAdditionalSpecFns;
use crate::assoc::{kv_insert, kv_view, law_sorted_insert, lemma_insert_entries, sorted_keys};
use crate::bytes::{bytes_eq, copy, decimal, decimal_text, ends_with, lit, slice_copy, spec_ends_with, spec_starts_with, starts_with};
use crate::editability::ov;
use crate::names::{lcsc_part_valid, spec_lcsc_part_valid};
use crate::probe::assoc_insert;
use crate::quote::{debug_quote, spec_debug_str};
use crate::scaffold::has_byte;
use crate::text::{lemma_map_push, push_all};
use crate::writers::views;

verus! {

/// The file that marks a project root.
pub const ETCH_MANIFEST: &'static str = "etchable.toml";

/// The manifest format version this library reads.
pub const ETCH_FORMAT_VERSION: &'static str = "0.1";

/// A TOML value, as far as the project format reads into one.
pub enum TomlValue {
    Str(Vec<u8>),
    Int(i64),
    Bool(bool),
    Table(Vec<TomlEntry>),
    /// A float, a date-time or an array: nothing here reads inside one.
    Other,
}

/// One key of a TOML table, in key order.
pub struct TomlEntry {
    pub key: Vec<u8>,
    pub value: TomlValue,
    /// The value as TOML writes it (e.g. `2`, `"1"`).
    pub shown: Vec<u8>,
    /// The value as JSON text.
    pub json: Vec<u8>,
}

/// What reading and parsing a TOML file gave.
pub enum TomlRead {
    /// The file could not be read; the reason.
    Unreadable(Vec<u8>),
    /// The text is not TOML; the parser's message.
    Invalid(Vec<u8>),
    /// The top-level table.
    Parsed(Vec<TomlEntry>),
}

/// A vendor selection. Known vendors are validated; an unknown vendor's
/// table is preserved, never dropped.
pub enum VendorSel {
    /// An LCSC part number (`C` followed by digits, e.g. `C25804`).
    Lcsc { part: Vec<u8>, basic: Option<bool> },
    /// An unknown vendor's table, as JSON text.
    Unknown(Vec<u8>),
}

pub enum VendorV {
    Lcsc { part: Seq<u8>, basic: Option<bool> },
    Unknown(Seq<u8>),
}

impl View for VendorSel {
    type V = VendorV;

    open spec fn view(&self) -> VendorV {
        match self {
            VendorSel::Lcsc { part, basic } => VendorV::Lcsc { part: part@, basic: *basic },
            VendorSel::Unknown(j) => VendorV::Unknown(j@),
        }
    }
}

/// Part fields shared by cards and overrides; vendors keyed by name.
pub struct PartFields {
    pub mpn: Option<Vec<u8>>,
    pub manufacturer: Option<Vec<u8>>,
    pub datasheet: Option<Vec<u8>>,
    pub vendors: Vec<(Vec<u8>, VendorSel)>,
}

#[verifier::ext_equal]
pub struct PartFieldsV {
    pub mpn: Option<Seq<u8>>,
    pub manufacturer: Option<Seq<u8>>,
    pub datasheet: Option<Seq<u8>>,
    pub vendors: Seq<(Seq<u8>, VendorV)>,
}

impl View for PartFields {
    type V = PartFieldsV;

    open spec fn view(&self) -> PartFieldsV {
        PartFieldsV {
            mpn: ov(self.mpn),
            manufacturer: ov(self.manufacturer),
            datasheet: ov(self.datasheet),
            vendors: kv_view(self.vendors@),
        }
    }
}

pub open spec fn no_fields() -> PartFieldsV {
    PartFieldsV { mpn: None, manufacturer: None, datasheet: None, vendors: Seq::empty() }
}

pub fn fields_default() -> (r: PartFields)
    ensures
        r@ == no_fields(),
{
    let r = PartFields { mpn: None, manufacturer: None, datasheet: None, vendors: Vec::new() };
    assert(r@ =~= no_fields());
    r
}

// ---------------------------------------------------------------------------
// Problem messages
// ---------------------------------------------------------------------------

pub open spec fn msg_version(v: Seq<u8>) -> Seq<u8> {
    "etchable.toml: version ".spec_bytes() + v
        + " (this build understands 0.1); reading best-effort".spec_bytes()
}

pub open spec fn msg_parts_table() -> Seq<u8> {
    "etchable.toml: [parts] must be a table".spec_bytes()
}

pub open spec fn msg_project_table() -> Seq<u8> {
    "etchable.toml: [project] must be a table".spec_bytes()
}

/// `etchable.toml: [project]`, the context of the project table's messages.
pub open spec fn project_ctx() -> Seq<u8> {
    "etchable.toml: [project]".spec_bytes()
}

/// `etchable.toml: parts."<key>"`, the context of an override's messages.
pub open spec fn override_ctx(key: Seq<u8>) -> Seq<u8> {
    "etchable.toml: parts.\"".spec_bytes() + key + "\"".spec_bytes()
}

pub open spec fn msg_entry_table(key: Seq<u8>) -> Seq<u8> {
    override_ctx(key) + " must be a table".spec_bytes()
}

pub open spec fn msg_unknown_key(ctx: Seq<u8>, key: Seq<u8>) -> Seq<u8> {
    ctx + ": unknown key `".spec_bytes() + key + "` (ignored)".spec_bytes()
}

pub open spec fn msg_not_string(ctx: Seq<u8>, key: Seq<u8>) -> Seq<u8> {
    ctx + ": `".spec_bytes() + key + "` must be a string".spec_bytes()
}

pub open spec fn msg_vendors_table(ctx: Seq<u8>) -> Seq<u8> {
    ctx + ": `vendors` must be a table".spec_bytes()
}

pub open spec fn msg_vendor_table(ctx: Seq<u8>, vendor: Seq<u8>) -> Seq<u8> {
    ctx + ": vendors.".spec_bytes() + vendor + " must be a table".spec_bytes()
}

pub open spec fn msg_lcsc_missing(ctx: Seq<u8>) -> Seq<u8> {
    ctx + ": vendors.lcsc requires `part`".spec_bytes()
}

pub open spec fn msg_lcsc_invalid(ctx: Seq<u8>, part: Seq<u8>) -> Seq<u8> {
    ctx + ": vendors.lcsc part `".spec_bytes() + part
        + "` is not an LCSC part number (expected C followed by digits, e.g. C25804)".spec_bytes()
}

pub open spec fn msg_lcsc_key(ctx: Seq<u8>, key: Seq<u8>) -> Seq<u8> {
    ctx + ": vendors.lcsc: unknown key `".spec_bytes() + key + "` (ignored)".spec_bytes()
}

pub open spec fn msg_unknown_vendor(ctx: Seq<u8>, vendor: Seq<u8>) -> Seq<u8> {
    ctx + ": unknown vendor `".spec_bytes() + vendor + "` (preserved, not validated)".spec_bytes()
}

fn join2(a: &[u8], b: &[u8]) -> (r: Vec<u8>)
    ensures
        r@ == a@ + b@,
{
    let mut out: Vec<u8> = Vec::new();
    push_all(&mut out, a);
    push_all(&mut out, b);
    assert(out@ =~= a@ + b@);
    out
}

fn join3(a: &[u8], b: &[u8], c: &[u8]) -> (r: Vec<u8>)
    ensures
        r@ == a@ + b@ + c@,
{
    let mut out: Vec<u8> = Vec::new();
    push_all(&mut out, a);
    push_all(&mut out, b);
    push_all(&mut out, c);
    assert(out@ =~= a@ + b@ + c@);
    out
}

fn join4(a: &[u8], b: &[u8], c: &[u8], d: &[u8]) -> (r: Vec<u8>)
    ensures
        r@ == a@ + b@ + c@ + d@,
{
    let mut out = join3(a, b, c);
    push_all(&mut out, d);
    out
}

fn push_problem(problems: &mut Vec<Vec<u8>>, m: Vec<u8>)
    ensures
        views(final(problems)@) == views(old(problems)@).push(m@),
{
    let ghost before = problems@;
    problems.push(m);
    proof {
        lemma_map_push(before, m, |x: Vec<u8>| x@);
    }
}

// ---------------------------------------------------------------------------
// Tables
// ---------------------------------------------------------------------------

/// The value at `key` in a table.
pub open spec fn entry_get(t: Seq<TomlEntry>, key: Seq<u8>) -> Option<TomlValue>
    decreases t.len(),
{
    if t.len() == 0 {
        None
    } else if t[0].key@ == key {
        Some(t[0].value)
    } else {
        entry_get(t.drop_first(), key)
    }
}

fn entry_index(t: &Vec<TomlEntry>, key: &[u8]) -> (r: Option<usize>)
    ensures
        r matches Some(i) ==> i < t@.len() && entry_get(t@, key@) == Some(t@[i as int].value),
        r is None ==> entry_get(t@, key@) is None,
{
    let mut i: usize = 0;
    assert(t@.skip(0) =~= t@);
    while i < t.len()
        invariant
            i <= t@.len(),
            entry_get(t@, key@) == entry_get(t@.skip(i as int), key@),
        decreases t.len() - i,
    {
        proof {
            assert(t@.skip(i as int).drop_first() =~= t@.skip(i + 1));
            assert(t@.skip(i as int)[0] == t@[i as int]);
        }
        if bytes_eq(t[i].key.as_slice(), key) {
            return Some(i);
        }
        i = i + 1;
    }
    None
}

/// The string at `key`, if the value there is one.
pub open spec fn get_str(t: Seq<TomlEntry>, key: Seq<u8>) -> Option<Seq<u8>> {
    match entry_get(t, key) {
        Some(TomlValue::Str(s)) => Some(s@),
        _ => None,
    }
}

/// The boolean at `key`, if the value there is one.
pub open spec fn get_bool(t: Seq<TomlEntry>, key: Seq<u8>) -> Option<bool> {
    match entry_get(t, key) {
        Some(TomlValue::Bool(b)) => Some(b),
        _ => None,
    }
}

// ---------------------------------------------------------------------------
// Vendors
// ---------------------------------------------------------------------------

/// The messages for keys of an LCSC table other than `part` and `basic`.
pub open spec fn lcsc_key_problems(ctx: Seq<u8>, t: Seq<TomlEntry>) -> Seq<Seq<u8>>
    decreases t.len(),
{
    if t.len() == 0 {
        Seq::empty()
    } else {
        let k = t.last().key@;
        let rest = lcsc_key_problems(ctx, t.drop_last());
        if k != "part".spec_bytes() && k != "basic".spec_bytes() {
            rest.push(msg_lcsc_key(ctx, k))
        } else {
            rest
        }
    }
}

/// The selection a `vendors.<name>` entry gives, and the problems it has.
pub open spec fn spec_parse_vendor(ctx: Seq<u8>, e: TomlEntry) -> (Option<VendorV>, Seq<Seq<u8>>) {
    let vendor = e.key@;
    match e.value {
        TomlValue::Table(t) => {
            if vendor == "lcsc".spec_bytes() {
                match get_str(t@, "part".spec_bytes()) {
                    Some(part) => {
                        if spec_lcsc_part_valid(part) {
                            (
                                Some(
                                    VendorV::Lcsc {
                                        part,
                                        basic: get_bool(t@, "basic".spec_bytes()),
                                    },
                                ),
                                lcsc_key_problems(ctx, t@),
                            )
                        } else {
                            (None, seq![msg_lcsc_invalid(ctx, part)])
                        }
                    },
                    None => (None, seq![msg_lcsc_missing(ctx)]),
                }
            } else {
                (Some(VendorV::Unknown(e.json@)), seq![msg_unknown_vendor(ctx, vendor)])
            }
        },
        _ => (None, seq![msg_vendor_table(ctx, vendor)]),
    }
}

pub open spec fn vendor_opt(o: Option<VendorSel>) -> Option<VendorV> {
    match o {
        Some(v) => Some(v@),
        None => None,
    }
}

fn str_at(t: &Vec<TomlEntry>, key: &[u8]) -> (r: Option<Vec<u8>>)
    ensures
        ov(r) == get_str(t@, key@),
{
    match entry_index(t, key) {
        Some(i) => match &t[i].value {
            TomlValue::Str(s) => Some(copy(s)),
            _ => None,
        },
        None => None,
    }
}

fn bool_at(t: &Vec<TomlEntry>, key: &[u8]) -> (r: Option<bool>)
    ensures
        r == get_bool(t@, key@),
{
    match entry_index(t, key) {
        Some(i) => match &t[i].value {
            TomlValue::Bool(b) => Some(*b),
            _ => None,
        },
        None => None,
    }
}

fn lcsc_key_problems_exec(ctx: &[u8], t: &Vec<TomlEntry>, problems: &mut Vec<Vec<u8>>)
    ensures
        views(final(problems)@) == views(old(problems)@) + lcsc_key_problems(ctx@, t@),
{
    let ghost start = views(problems@);
    let part = lit("part");
    let basic = lit("basic");
    let mut i: usize = 0;
    assert(t@.take(0) =~= Seq::<TomlEntry>::empty());
    assert(start + lcsc_key_problems(ctx@, t@.take(0)) =~= start);
    while i < t.len()
        invariant
            i <= t@.len(),
            part@ == "part".spec_bytes(),
            basic@ == "basic".spec_bytes(),
            views(problems@) == start + lcsc_key_problems(ctx@, t@.take(i as int)),
        decreases t.len() - i,
    {
        proof {
            assert(t@.take(i + 1).drop_last() =~= t@.take(i as int));
            assert(t@.take(i + 1).last() == t@[i as int]);
        }
        let k = t[i].key.as_slice();
        if !bytes_eq(k, part.as_slice()) && !bytes_eq(k, basic.as_slice()) {
            let m = join3(ctx, lit(": vendors.lcsc: unknown key `").as_slice(), k);
            let m = join2(m.as_slice(), lit("` (ignored)").as_slice());
            assert(m@ =~= msg_lcsc_key(ctx@, k@));
            push_problem(problems, m);
            assert(views(problems@) =~= start + lcsc_key_problems(ctx@, t@.take(i + 1)));
        }
        i = i + 1;
    }
    assert(t@.take(t@.len() as int) =~= t@);
}

/// Read one `vendors.<name>` entry; its problems are appended.
pub fn parse_vendor(e: &TomlEntry, ctx: &[u8], problems: &mut Vec<Vec<u8>>) -> (r: Option<VendorSel>)
    ensures
        vendor_opt(r) == spec_parse_vendor(ctx@, *e).0,
        views(final(problems)@) == views(old(problems)@) + spec_parse_vendor(ctx@, *e).1,
{
    let ghost start = views(problems@);
    let vendor = e.key.as_slice();
    match &e.value {
        TomlValue::Table(t) => {
            if bytes_eq(vendor, lit("lcsc").as_slice()) {
                match str_at(t, lit("part").as_slice()) {
                    Some(part) => {
                        if lcsc_part_valid(part.as_slice()) {
                            let basic = bool_at(t, lit("basic").as_slice());
                            lcsc_key_problems_exec(ctx, t, problems);
                            Some(VendorSel::Lcsc { part, basic })
                        } else {
                            let m = join4(
                                ctx,
                                lit(": vendors.lcsc part `").as_slice(),
                                part.as_slice(),
                                lit(
                                    "` is not an LCSC part number (expected C followed by digits, e.g. C25804)",
                                ).as_slice(),
                            );
                            push_problem(problems, m);
                            assert(views(problems@) =~= start + seq![msg_lcsc_invalid(ctx@, part@)]);
                            None
                        }
                    },
                    None => {
                        let m = join2(ctx, lit(": vendors.lcsc requires `part`").as_slice());
                        assert(m@ =~= msg_lcsc_missing(ctx@));
                        push_problem(problems, m);
                        assert(views(problems@) =~= start + seq![msg_lcsc_missing(ctx@)]);
                        None
                    },
                }
            } else {
                let m = join4(
                    ctx,
                    lit(": unknown vendor `").as_slice(),
                    vendor,
                    lit("` (preserved, not validated)").as_slice(),
                );
                push_problem(problems, m);
                assert(views(problems@) =~= start + seq![msg_unknown_vendor(ctx@, vendor@)]);
                Some(VendorSel::Unknown(copy(&e.json)))
            }
        },
        _ => {
            let m = join4(ctx, lit(": vendors.").as_slice(), vendor, lit(" must be a table").as_slice());
            push_problem(problems, m);
            assert(views(problems@) =~= start + seq![msg_vendor_table(ctx@, vendor@)]);
            None
        },
    }
}


// ---------------------------------------------------------------------------
// Part fields
// ---------------------------------------------------------------------------

/// What reading a table of part fields gave: the fields, the
/// `description` (cards only) and the problems, in table order.
#[verifier::ext_equal]
pub struct FieldsRead {
    pub fields: PartFieldsV,
    pub description: Option<Seq<u8>>,
    pub problems: Seq<Seq<u8>>,
}

pub open spec fn vendor_step(ctx: Seq<u8>, acc: FieldsRead, e: TomlEntry) -> FieldsRead {
    let read = spec_parse_vendor(ctx, e);
    FieldsRead {
        fields: match read.0 {
            Some(sel) => PartFieldsV {
                vendors: assoc_insert(acc.fields.vendors, e.key@, sel),
                ..acc.fields
            },
            None => acc.fields,
        },
        problems: acc.problems + read.1,
        ..acc
    }
}

pub open spec fn vendors_fold(ctx: Seq<u8>, vs: Seq<TomlEntry>, acc: FieldsRead) -> FieldsRead
    decreases vs.len(),
{
    if vs.len() == 0 {
        acc
    } else {
        vendor_step(ctx, vendors_fold(ctx, vs.drop_last(), acc), vs.last())
    }
}

pub open spec fn str_value(v: TomlValue) -> Option<Seq<u8>> {
    match v {
        TomlValue::Str(s) => Some(s@),
        _ => None,
    }
}

/// One key of a part-fields table. A string field that is not a string
/// is reported and reads as absent.
pub open spec fn field_step(ctx: Seq<u8>, acc: FieldsRead, e: TomlEntry) -> FieldsRead {
    let k = e.key@;
    let s = str_value(e.value);
    let p = if s is Some {
        acc.problems
    } else {
        acc.problems.push(msg_not_string(ctx, k))
    };
    if k == "description".spec_bytes() {
        FieldsRead { description: s, problems: p, ..acc }
    } else if k == "mpn".spec_bytes() {
        FieldsRead { fields: PartFieldsV { mpn: s, ..acc.fields }, problems: p, ..acc }
    } else if k == "manufacturer".spec_bytes() {
        FieldsRead { fields: PartFieldsV { manufacturer: s, ..acc.fields }, problems: p, ..acc }
    } else if k == "datasheet".spec_bytes() {
        FieldsRead { fields: PartFieldsV { datasheet: s, ..acc.fields }, problems: p, ..acc }
    } else if k == "vendors".spec_bytes() {
        match e.value {
            TomlValue::Table(vs) => vendors_fold(ctx, vs@, acc),
            _ => FieldsRead { problems: acc.problems.push(msg_vendors_table(ctx)), ..acc },
        }
    } else {
        FieldsRead { problems: acc.problems.push(msg_unknown_key(ctx, k)), ..acc }
    }
}

pub open spec fn fields_fold(ctx: Seq<u8>, t: Seq<TomlEntry>) -> FieldsRead
    decreases t.len(),
{
    if t.len() == 0 {
        FieldsRead { fields: no_fields(), description: None, problems: Seq::empty() }
    } else {
        field_step(ctx, fields_fold(ctx, t.drop_last()), t.last())
    }
}

proof fn lemma_vendors_keep_description(ctx: Seq<u8>, vs: Seq<TomlEntry>, acc: FieldsRead)
    ensures
        vendors_fold(ctx, vs, acc).description == acc.description,
    decreases vs.len(),
{
    if vs.len() > 0 {
        lemma_vendors_keep_description(ctx, vs.drop_last(), acc);
    }
}

fn vendors_exec(
    ctx: &[u8],
    vs: &Vec<TomlEntry>,
    fields: &mut PartFields,
    problems: &mut Vec<Vec<u8>>,
    Ghost(acc): Ghost<FieldsRead>,
    Ghost(start): Ghost<Seq<Seq<u8>>>,
)
    requires
        old(fields)@ == acc.fields,
        views(old(problems)@) == start + acc.problems,
    ensures
        final(fields)@ == vendors_fold(ctx@, vs@, acc).fields,
        views(final(problems)@) == start + vendors_fold(ctx@, vs@, acc).problems,
{
    let mut i: usize = 0;
    assert(vs@.take(0) =~= Seq::<TomlEntry>::empty());
    while i < vs.len()
        invariant
            i <= vs@.len(),
            fields@ == vendors_fold(ctx@, vs@.take(i as int), acc).fields,
            views(problems@) == start + vendors_fold(ctx@, vs@.take(i as int), acc).problems,
        decreases vs.len() - i,
    {
        proof {
            assert(vs@.take(i + 1).drop_last() =~= vs@.take(i as int));
            assert(vs@.take(i + 1).last() == vs@[i as int]);
        }
        let ghost before = views(problems@);
        let sel = parse_vendor(&vs[i], ctx, problems);
        match sel {
            Some(sel) => {
                kv_insert(&mut fields.vendors, copy(&vs[i].key), sel);
            },
            None => {},
        }
        proof {
            let a = vendors_fold(ctx@, vs@.take(i as int), acc);
            assert(views(problems@) =~= start + (a.problems + spec_parse_vendor(ctx@, vs@[i as int]).1));
        }
        i = i + 1;
    }
    assert(vs@.take(vs@.len() as int) =~= vs@);
}

fn string_field(
    v: &TomlValue,
    ctx: &[u8],
    key: &[u8],
    problems: &mut Vec<Vec<u8>>,
) -> (r: Option<Vec<u8>>)
    ensures
        ov(r) == str_value(*v),
        views(final(problems)@) == if str_value(*v) is Some {
            views(old(problems)@)
        } else {
            views(old(problems)@).push(msg_not_string(ctx@, key@))
        },
{
    match v {
        TomlValue::Str(s) => Some(copy(s)),
        _ => {
            let m = join4(ctx, lit(": `").as_slice(), key, lit("` must be a string").as_slice());
            push_problem(problems, m);
            None
        },
    }
}

/// Read a table of part fields; returns the fields and the `description`,
/// and appends the problems.
pub fn parse_part_fields(
    table: &Vec<TomlEntry>,
    ctx: &[u8],
    problems: &mut Vec<Vec<u8>>,
) -> (r: (PartFields, Option<Vec<u8>>))
    ensures
        r.0@ == fields_fold(ctx@, table@).fields,
        ov(r.1) == fields_fold(ctx@, table@).description,
        views(final(problems)@) == views(old(problems)@) + fields_fold(ctx@, table@).problems,
{
    let ghost start = views(problems@);
    let mut fields = fields_default();
    let mut description: Option<Vec<u8>> = None;
    let mut i: usize = 0;
    assert(table@.take(0) =~= Seq::<TomlEntry>::empty());
    assert(start + Seq::<Seq<u8>>::empty() =~= start);
    while i < table.len()
        invariant
            i <= table@.len(),
            fields@ == fields_fold(ctx@, table@.take(i as int)).fields,
            ov(description) == fields_fold(ctx@, table@.take(i as int)).description,
            views(problems@) == start + fields_fold(ctx@, table@.take(i as int)).problems,
        decreases table.len() - i,
    {
        proof {
            assert(table@.take(i + 1).drop_last() =~= table@.take(i as int));
            assert(table@.take(i + 1).last() == table@[i as int]);
        }
        let ghost acc = fields_fold(ctx@, table@.take(i as int));
        let ghost next = field_step(ctx@, acc, table@[i as int]);
        let e = &table[i];
        let k = e.key.as_slice();
        if bytes_eq(k, lit("description").as_slice()) {
            description = string_field(&e.value, ctx, k, problems);
            assert(views(problems@) =~= start + next.problems);
        } else if bytes_eq(k, lit("mpn").as_slice()) {
            fields.mpn = string_field(&e.value, ctx, k, problems);
            assert(views(problems@) =~= start + next.problems);
            assert(fields@ =~= next.fields);
        } else if bytes_eq(k, lit("manufacturer").as_slice()) {
            fields.manufacturer = string_field(&e.value, ctx, k, problems);
            assert(views(problems@) =~= start + next.problems);
            assert(fields@ =~= next.fields);
        } else if bytes_eq(k, lit("datasheet").as_slice()) {
            fields.datasheet = string_field(&e.value, ctx, k, problems);
            assert(views(problems@) =~= start + next.problems);
            assert(fields@ =~= next.fields);
        } else if bytes_eq(k, lit("vendors").as_slice()) {
            match &e.value {
                TomlValue::Table(vs) => {
                    vendors_exec(ctx, vs, &mut fields, problems, Ghost(acc), Ghost(start));
                    proof {
                        lemma_vendors_keep_description(ctx@, vs@, acc);
                    }
                },
                _ => {
                    let m = join2(ctx, lit(": `vendors` must be a table").as_slice());
                    push_problem(problems, m);
                    assert(views(problems@) =~= start + next.problems);
                },
            }
        } else {
            let m = join4(ctx, lit(": unknown key `").as_slice(), k, lit("` (ignored)").as_slice());
            push_problem(problems, m);
            assert(views(problems@) =~= start + next.problems);
        }
        i = i + 1;
    }
    assert(table@.take(table@.len() as int) =~= table@);
    (fields, description)
}


// ---------------------------------------------------------------------------
// etchable.toml
// ---------------------------------------------------------------------------

/// What the manifest gave: the `[project]` name and board, the overrides
/// keyed by root-stripped instance path, and the problems in table order.
#[verifier::ext_equal]
pub struct ManifestRead {
    pub name: Option<Seq<u8>>,
    pub board: Option<Seq<u8>>,
    pub overrides: Seq<(Seq<u8>, PartFieldsV)>,
    pub problems: Seq<Seq<u8>>,
}

/// An override key with a leading `root.` removed.
pub open spec fn strip_root(k: Seq<u8>) -> Seq<u8> {
    if spec_starts_with(k, "root.".spec_bytes()) {
        k.subrange("root.".spec_bytes().len() as int, k.len() as int)
    } else {
        k
    }
}

pub open spec fn part_step(acc: ManifestRead, e: TomlEntry) -> ManifestRead {
    let pk = e.key@;
    match e.value {
        TomlValue::Table(t) => {
            let f = fields_fold(override_ctx(pk), t@);
            ManifestRead {
                overrides: assoc_insert(acc.overrides, strip_root(pk), f.fields),
                problems: acc.problems + f.problems,
                ..acc
            }
        },
        _ => ManifestRead { problems: acc.problems.push(msg_entry_table(pk)), ..acc },
    }
}

pub open spec fn parts_fold(ps: Seq<TomlEntry>, acc: ManifestRead) -> ManifestRead
    decreases ps.len(),
{
    if ps.len() == 0 {
        acc
    } else {
        part_step(parts_fold(ps.drop_last(), acc), ps.last())
    }
}

/// The version as a message shows it: a string's text, else the value as
/// TOML writes it.
pub open spec fn version_text(e: TomlEntry) -> Seq<u8> {
    match e.value {
        TomlValue::Str(s) => s@,
        _ => e.shown@,
    }
}

/// One key of `[project]`: a `version` other than the string `0.1`, a
/// `name` or `board` that is not a string (which then reads as absent),
/// and any other key are reported.
pub open spec fn project_step(acc: ManifestRead, e: TomlEntry) -> ManifestRead {
    let k = e.key@;
    let s = str_value(e.value);
    if k == "version".spec_bytes() {
        if s == Some(ETCH_FORMAT_VERSION.spec_bytes()) {
            acc
        } else {
            ManifestRead { problems: acc.problems.push(msg_version(version_text(e))), ..acc }
        }
    } else if k == "name".spec_bytes() || k == "board".spec_bytes() {
        let p = if s is Some {
            acc.problems
        } else {
            acc.problems.push(msg_not_string(project_ctx(), k))
        };
        if k == "name".spec_bytes() {
            ManifestRead { name: s, problems: p, ..acc }
        } else {
            ManifestRead { board: s, problems: p, ..acc }
        }
    } else {
        ManifestRead { problems: acc.problems.push(msg_unknown_key(project_ctx(), k)), ..acc }
    }
}

pub open spec fn project_fold(t: Seq<TomlEntry>, acc: ManifestRead) -> ManifestRead
    decreases t.len(),
{
    if t.len() == 0 {
        acc
    } else {
        project_step(project_fold(t.drop_last(), acc), t.last())
    }
}

/// One top-level key of the manifest: `[project]` and `[parts]` are read,
/// anything else is reported.
pub open spec fn manifest_step(acc: ManifestRead, e: TomlEntry) -> ManifestRead {
    let k = e.key@;
    if k == "project".spec_bytes() {
        match e.value {
            TomlValue::Table(t) => project_fold(t@, acc),
            _ => ManifestRead { problems: acc.problems.push(msg_project_table()), ..acc },
        }
    } else if k == "parts".spec_bytes() {
        match e.value {
            TomlValue::Table(ps) => parts_fold(ps@, acc),
            _ => ManifestRead { problems: acc.problems.push(msg_parts_table()), ..acc },
        }
    } else {
        ManifestRead {
            problems: acc.problems.push(msg_unknown_key(ETCH_MANIFEST.spec_bytes(), k)),
            ..acc
        }
    }
}

pub open spec fn manifest_fold(t: Seq<TomlEntry>, acc: ManifestRead) -> ManifestRead
    decreases t.len(),
{
    if t.len() == 0 {
        acc
    } else {
        manifest_step(manifest_fold(t.drop_last(), acc), t.last())
    }
}

pub open spec fn empty_manifest() -> ManifestRead {
    ManifestRead { name: None, board: None, overrides: Seq::empty(), problems: Seq::empty() }
}

/// What reading the manifest gave, a file that could not be read or
/// parsed included.
pub open spec fn manifest_read(read: TomlRead) -> ManifestRead {
    match read {
        TomlRead::Unreadable(e) => ManifestRead {
            problems: seq![ETCH_MANIFEST.spec_bytes() + ": unreadable: ".spec_bytes() + e@],
            ..empty_manifest()
        },
        TomlRead::Invalid(e) => ManifestRead {
            problems: seq![ETCH_MANIFEST.spec_bytes() + ": parse error: ".spec_bytes() + e@],
            ..empty_manifest()
        },
        TomlRead::Parsed(t) => manifest_fold(t@, empty_manifest()),
    }
}

/// The manifest as read.
pub struct EtchManifest {
    pub name: Option<Vec<u8>>,
    pub board: Option<Vec<u8>>,
    /// Keyed by root-stripped instance path.
    pub part_overrides: Vec<(Vec<u8>, PartFields)>,
    pub problems: Vec<Vec<u8>>,
}

impl View for EtchManifest {
    type V = ManifestRead;

    open spec fn view(&self) -> ManifestRead {
        ManifestRead {
            name: ov(self.name),
            board: ov(self.board),
            overrides: kv_view(self.part_overrides@),
            problems: views(self.problems@),
        }
    }
}

fn strip_root_exec(k: &[u8]) -> (r: Vec<u8>)
    ensures
        r@ == strip_root(k@),
{
    let root = lit("root.");
    if starts_with(k, root.as_slice()) {
        slice_copy(k, root.len(), k.len())
    } else {
        slice_copy(k, 0, k.len())
    }
}

fn override_exec(e: &TomlEntry, m: &mut EtchManifest)
    ensures
        final(m)@ == part_step(old(m)@, *e),
{
    let ghost acc = m@;
    let pk = e.key.as_slice();
    let ctx = join3(lit("etchable.toml: parts.\"").as_slice(), pk, lit("\"").as_slice());
    assert(ctx@ == override_ctx(pk@));
    match &e.value {
        TomlValue::Table(t) => {
            let (fields, _description) = parse_part_fields(t, ctx.as_slice(), &mut m.problems);
            let key = strip_root_exec(pk);
            kv_insert(&mut m.part_overrides, key, fields);
            assert(m@ =~= part_step(acc, *e));
        },
        _ => {
            let msg = join2(ctx.as_slice(), lit(" must be a table").as_slice());
            push_problem(&mut m.problems, msg);
            assert(m@ =~= part_step(acc, *e));
        },
    }
}

fn parts_exec(ps: &Vec<TomlEntry>, m: &mut EtchManifest)
    ensures
        final(m)@ == parts_fold(ps@, old(m)@),
{
    let ghost acc = m@;
    let mut i: usize = 0;
    assert(ps@.take(0) =~= Seq::<TomlEntry>::empty());
    while i < ps.len()
        invariant
            i <= ps@.len(),
            m@ == parts_fold(ps@.take(i as int), acc),
        decreases ps.len() - i,
    {
        proof {
            assert(ps@.take(i + 1).drop_last() =~= ps@.take(i as int));
            assert(ps@.take(i + 1).last() == ps@[i as int]);
        }
        override_exec(&ps[i], m);
        i = i + 1;
    }
    assert(ps@.take(ps@.len() as int) =~= ps@);
}

fn project_key_exec(e: &TomlEntry, m: &mut EtchManifest)
    ensures
        final(m)@ == project_step(old(m)@, *e),
{
    let ghost acc = m@;
    let k = e.key.as_slice();
    let s: Option<Vec<u8>> = match &e.value {
        TomlValue::Str(v) => Some(copy(v)),
        _ => None,
    };
    if bytes_eq(k, lit("version").as_slice()) {
        let current = match &s {
            Some(v) => bytes_eq(v.as_slice(), lit(ETCH_FORMAT_VERSION).as_slice()),
            None => false,
        };
        if !current {
            let text = match s {
                Some(v) => v,
                None => copy(&e.shown),
            };
            let msg = join3(
                lit("etchable.toml: version ").as_slice(),
                text.as_slice(),
                lit(" (this build understands 0.1); reading best-effort").as_slice(),
            );
            push_problem(&mut m.problems, msg);
        }
        assert(m@ =~= project_step(acc, *e));
    } else if bytes_eq(k, lit("name").as_slice()) || bytes_eq(k, lit("board").as_slice()) {
        if s.is_none() {
            let msg = join4(lit("etchable.toml: [project]").as_slice(), lit(": `").as_slice(), k, lit("` must be a string").as_slice());
            push_problem(&mut m.problems, msg);
        }
        if bytes_eq(k, lit("name").as_slice()) {
            m.name = s;
        } else {
            m.board = s;
        }
        assert(m@ =~= project_step(acc, *e));
    } else {
        let msg = join4(lit("etchable.toml: [project]").as_slice(), lit(": unknown key `").as_slice(), k, lit("` (ignored)").as_slice());
        push_problem(&mut m.problems, msg);
        assert(m@ =~= project_step(acc, *e));
    }
}

fn project_exec(t: &Vec<TomlEntry>, m: &mut EtchManifest)
    ensures
        final(m)@ == project_fold(t@, old(m)@),
{
    let ghost acc = m@;
    let mut i: usize = 0;
    assert(t@.take(0) =~= Seq::<TomlEntry>::empty());
    while i < t.len()
        invariant
            i <= t@.len(),
            m@ == project_fold(t@.take(i as int), acc),
        decreases t.len() - i,
    {
        proof {
            assert(t@.take(i + 1).drop_last() =~= t@.take(i as int));
            assert(t@.take(i + 1).last() == t@[i as int]);
        }
        project_key_exec(&t[i], m);
        i = i + 1;
    }
    assert(t@.take(t@.len() as int) =~= t@);
}

fn empty_manifest_exec() -> (r: EtchManifest)
    ensures
        r@ == empty_manifest(),
{
    let r = EtchManifest { name: None, board: None, part_overrides: Vec::new(), problems: Vec::new() };
    assert(r@ =~= empty_manifest());
    r
}

/// Read the top-level table of the manifest.
pub fn parse_etch_manifest(table: &Vec<TomlEntry>) -> (r: EtchManifest)
    ensures
        r@ == manifest_fold(table@, empty_manifest()),
{
    let mut m = empty_manifest_exec();
    let mut i: usize = 0;
    assert(table@.take(0) =~= Seq::<TomlEntry>::empty());
    while i < table.len()
        invariant
            i <= table@.len(),
            m@ == manifest_fold(table@.take(i as int), empty_manifest()),
        decreases table.len() - i,
    {
        proof {
            assert(table@.take(i + 1).drop_last() =~= table@.take(i as int));
            assert(table@.take(i + 1).last() == table@[i as int]);
        }
        let ghost acc = m@;
        let e = &table[i];
        let k = e.key.as_slice();
        if bytes_eq(k, lit("project").as_slice()) {
            match &e.value {
                TomlValue::Table(t) => {
                    project_exec(t, &mut m);
                },
                _ => {
                    push_problem(&mut m.problems, lit("etchable.toml: [project] must be a table"));
                    assert(m@ =~= manifest_step(acc, *e));
                },
            }
        } else if bytes_eq(k, lit("parts").as_slice()) {
            match &e.value {
                TomlValue::Table(ps) => {
                    parts_exec(ps, &mut m);
                },
                _ => {
                    push_problem(&mut m.problems, lit("etchable.toml: [parts] must be a table"));
                    assert(m@ =~= manifest_step(acc, *e));
                },
            }
        } else {
            let msg = join4(
                lit(ETCH_MANIFEST).as_slice(),
                lit(": unknown key `").as_slice(),
                k,
                lit("` (ignored)").as_slice(),
            );
            push_problem(&mut m.problems, msg);
            assert(m@ =~= manifest_step(acc, *e));
        }
        i = i + 1;
    }
    assert(table@.take(table@.len() as int) =~= table@);
    m
}

/// Read the manifest, a file that could not be read or parsed included.
pub fn read_manifest(read: &TomlRead) -> (r: EtchManifest)
    ensures
        r@ == manifest_read(*read),
{
    match read {
        TomlRead::Unreadable(e) => {
            let mut m = empty_manifest_exec();
            push_problem(&mut m.problems, join3(lit(ETCH_MANIFEST).as_slice(), lit(": unreadable: ").as_slice(), e.as_slice()));
            assert(m@ =~= manifest_read(*read));
            m
        },
        TomlRead::Invalid(e) => {
            let mut m = empty_manifest_exec();
            push_problem(&mut m.problems, join3(lit(ETCH_MANIFEST).as_slice(), lit(": parse error: ").as_slice(), e.as_slice()));
            assert(m@ =~= manifest_read(*read));
            m
        },
        TomlRead::Parsed(t) => parse_etch_manifest(t),
    }
}

// ---------------------------------------------------------------------------
// Component cards
// ---------------------------------------------------------------------------

/// `components/<name>.toml`: travels with the component it describes.
pub struct ComponentCard {
    pub name: Vec<u8>,
    /// `components/<name>.zen`, root-relative, when it exists.
    pub zen_file: Option<Vec<u8>>,
    pub description: Option<Vec<u8>>,
    pub part: PartFields,
}

#[verifier::ext_equal]
pub struct CardV {
    pub name: Seq<u8>,
    pub zen_file: Option<Seq<u8>>,
    pub description: Option<Seq<u8>>,
    pub part: PartFieldsV,
}

impl View for ComponentCard {
    type V = CardV;

    open spec fn view(&self) -> CardV {
        CardV {
            name: self.name@,
            zen_file: ov(self.zen_file),
            description: ov(self.description),
            part: self.part@,
        }
    }
}

/// What the file system says about one card `components/<name>.toml`.
pub struct CardFiles {
    /// The card's file stem.
    pub name: Vec<u8>,
    /// Whether `components/<name>.zen` is a file.
    pub zen_exists: bool,
    /// The card itself.
    pub card: TomlRead,
    /// Whether `datasheets/<name>.pdf` is a file.
    pub datasheet_exists: bool,
}

pub open spec fn card_ctx(name: Seq<u8>) -> Seq<u8> {
    "components/".spec_bytes() + name + ".toml".spec_bytes()
}

pub open spec fn card_zen(name: Seq<u8>) -> Seq<u8> {
    "components/".spec_bytes() + name + ".zen".spec_bytes()
}

pub open spec fn card_datasheet(name: Seq<u8>) -> Seq<u8> {
    "datasheets/".spec_bytes() + name + ".pdf".spec_bytes()
}

/// The fields, description and problems a read of a TOML file gives.
pub open spec fn read_fields(ctx: Seq<u8>, read: TomlRead) -> FieldsRead {
    match read {
        TomlRead::Unreadable(e) => FieldsRead {
            fields: no_fields(),
            description: None,
            problems: seq![ctx + ": unreadable: ".spec_bytes() + e@],
        },
        TomlRead::Invalid(e) => FieldsRead {
            fields: no_fields(),
            description: None,
            problems: seq![ctx + ": parse error: ".spec_bytes() + e@],
        },
        TomlRead::Parsed(t) => fields_fold(ctx, t@),
    }
}

/// A card and its problems: a missing `.zen` is reported, and the
/// datasheet defaults to `datasheets/<name>.pdf` when that file exists.
pub open spec fn spec_load_card(c: CardFiles) -> (CardV, Seq<Seq<u8>>) {
    let name = c.name@;
    let ctx = card_ctx(name);
    let zen_problems = if c.zen_exists {
        Seq::empty()
    } else {
        seq![ctx + ": no matching ".spec_bytes() + card_zen(name)]
    };
    let f = read_fields(ctx, c.card);
    let part = if f.fields.datasheet is None && c.datasheet_exists {
        PartFieldsV { datasheet: Some(card_datasheet(name)), ..f.fields }
    } else {
        f.fields
    };
    (
        CardV {
            name,
            zen_file: if c.zen_exists {
                Some(card_zen(name))
            } else {
                None
            },
            description: f.description,
            part,
        },
        zen_problems + f.problems,
    )
}

/// Read a table-or-error into part fields; the problems are appended.
fn read_fields_exec(ctx: &[u8], read: &TomlRead, problems: &mut Vec<Vec<u8>>) -> (r: (
    PartFields,
    Option<Vec<u8>>,
))
    ensures
        r.0@ == read_fields(ctx@, *read).fields,
        ov(r.1) == read_fields(ctx@, *read).description,
        views(final(problems)@) == views(old(problems)@) + read_fields(ctx@, *read).problems,
{
    let ghost start = views(problems@);
    match read {
        TomlRead::Unreadable(e) => {
            push_problem(problems, join3(ctx, lit(": unreadable: ").as_slice(), e.as_slice()));
            assert(views(problems@) =~= start + read_fields(ctx@, *read).problems);
            (fields_default(), None)
        },
        TomlRead::Invalid(e) => {
            push_problem(problems, join3(ctx, lit(": parse error: ").as_slice(), e.as_slice()));
            assert(views(problems@) =~= start + read_fields(ctx@, *read).problems);
            (fields_default(), None)
        },
        TomlRead::Parsed(t) => parse_part_fields(t, ctx, problems),
    }
}

/// Load one card; its problems are appended.
pub fn load_card(c: &CardFiles, problems: &mut Vec<Vec<u8>>) -> (r: ComponentCard)
    ensures
        r@ == spec_load_card(*c).0,
        views(final(problems)@) == views(old(problems)@) + spec_load_card(*c).1,
{
    let ghost start = views(problems@);
    let name = c.name.as_slice();
    let ctx = join3(lit("components/").as_slice(), name, lit(".toml").as_slice());
    let zen_rel = join3(lit("components/").as_slice(), name, lit(".zen").as_slice());
    let zen_file = if c.zen_exists {
        Some(zen_rel)
    } else {
        push_problem(problems, join3(ctx.as_slice(), lit(": no matching ").as_slice(), zen_rel.as_slice()));
        None
    };
    let ghost mid = views(problems@);
    let (mut part, description) = read_fields_exec(ctx.as_slice(), &c.card, problems);
    if part.datasheet.is_none() && c.datasheet_exists {
        part.datasheet = Some(join3(lit("datasheets/").as_slice(), name, lit(".pdf").as_slice()));
    }
    let card = ComponentCard { name: copy(&c.name), zen_file, description, part };
    proof {
        let sp = spec_load_card(*c);
        assert(card@ =~= sp.0);
        assert(views(problems@) =~= start + sp.1);
    }
    card
}

// ---------------------------------------------------------------------------
// The project
// ---------------------------------------------------------------------------

/// The loaded project: manifest and cards, plus every problem found on the
/// way.
pub struct ProjectDoc {
    pub root: Vec<u8>,
    pub name: Vec<u8>,
    /// Root-relative board entry; `None` when it cannot be determined (the
    /// problems say why).
    pub board: Option<Vec<u8>>,
    /// Keyed by card name.
    pub components: Vec<(Vec<u8>, ComponentCard)>,
    /// Keyed by root-stripped instance path.
    pub part_overrides: Vec<(Vec<u8>, PartFields)>,
    pub problems: Vec<Vec<u8>>,
}

#[verifier::ext_equal]
pub struct ProjectV {
    pub root: Seq<u8>,
    pub name: Seq<u8>,
    pub board: Option<Seq<u8>>,
    pub components: Seq<(Seq<u8>, CardV)>,
    pub part_overrides: Seq<(Seq<u8>, PartFieldsV)>,
    pub problems: Seq<Seq<u8>>,
}

impl View for ProjectDoc {
    type V = ProjectV;

    open spec fn view(&self) -> ProjectV {
        ProjectV {
            root: self.root@,
            name: self.name@,
            board: ov(self.board),
            components: kv_view(self.components@),
            part_overrides: kv_view(self.part_overrides@),
            problems: views(self.problems@),
        }
    }
}

/// The `.zen` files among the names of the files at the root.
pub open spec fn zen_files(names: Seq<Seq<u8>>) -> Seq<Seq<u8>>
    decreases names.len(),
{
    if names.len() == 0 {
        Seq::empty()
    } else if spec_ends_with(names.last(), ".zen".spec_bytes()) {
        zen_files(names.drop_last()).push(names.last())
    } else {
        zen_files(names.drop_last())
    }
}

pub open spec fn msg_no_zen() -> Seq<u8> {
    "cannot determine the board entry: no .zen file at the project root — set [project] board in etchable.toml".spec_bytes()
}

pub open spec fn msg_many_zen(n: nat) -> Seq<u8> {
    "cannot determine the board entry: ".spec_bytes() + decimal(n)
        + " .zen files at the project root — set [project] board in etchable.toml".spec_bytes()
}

pub open spec fn msg_board_missing(b: Seq<u8>) -> Seq<u8> {
    "etchable.toml: [project] board ".spec_bytes() + b + " does not exist".spec_bytes()
}

/// The board entry and its problems: the `[project]` board when it names
/// a file, else, with none given, the single `.zen` file at the root.
pub open spec fn spec_board(board: Option<Seq<u8>>, board_exists: bool, root_files: Seq<Seq<u8>>) -> (
    Option<Seq<u8>>,
    Seq<Seq<u8>>,
) {
    match board {
        Some(b) => {
            if board_exists {
                (Some(b), Seq::empty())
            } else {
                (None, seq![msg_board_missing(b)])
            }
        },
        None => {
            let zens = zen_files(root_files);
            if zens.len() == 1 {
                (Some(zens[0]), Seq::empty())
            } else if zens.len() == 0 {
                (None, seq![msg_no_zen()])
            } else {
                (None, seq![msg_many_zen(zens.len())])
            }
        },
    }
}

/// The `[project]` name, else the root directory's name, else `project`.
pub open spec fn spec_project_name(name: Option<Seq<u8>>, dir_name: Option<Seq<u8>>) -> Seq<u8> {
    match name {
        Some(n) => n,
        None => match dir_name {
            Some(d) => d,
            None => "project".spec_bytes(),
        },
    }
}

/// The cards keyed by name, and their problems in order.
pub open spec fn cards_fold(cards: Seq<CardFiles>) -> (Seq<(Seq<u8>, CardV)>, Seq<Seq<u8>>)
    decreases cards.len(),
{
    if cards.len() == 0 {
        (Seq::empty(), Seq::empty())
    } else {
        let acc = cards_fold(cards.drop_last());
        let c = spec_load_card(cards.last());
        (assoc_insert(acc.0, cards.last().name@, c.0), acc.1 + c.1)
    }
}

/// The project the files describe: problems from the manifest, then the
/// board entry, then the cards.
pub open spec fn spec_assemble(
    root: Seq<u8>,
    dir_name: Option<Seq<u8>>,
    m: ManifestRead,
    board_exists: bool,
    root_files: Seq<Seq<u8>>,
    cards: Seq<CardFiles>,
) -> ProjectV {
    let b = spec_board(m.board, board_exists, root_files);
    let c = cards_fold(cards);
    ProjectV {
        root,
        name: spec_project_name(m.name, dir_name),
        board: b.0,
        components: c.0,
        part_overrides: m.overrides,
        problems: m.problems + b.1 + c.1,
    }
}

fn zen_files_exec(names: &Vec<Vec<u8>>) -> (r: Vec<Vec<u8>>)
    ensures
        views(r@) == zen_files(views(names@)),
{
    let ghost nv = views(names@);
    let mut out: Vec<Vec<u8>> = Vec::new();
    let mut i: usize = 0;
    assert(nv.take(0) =~= Seq::<Seq<u8>>::empty());
    assert(views(out@) =~= Seq::<Seq<u8>>::empty());
    while i < names.len()
        invariant
            i <= names@.len(),
            nv == views(names@),
            views(out@) == zen_files(nv.take(i as int)),
        decreases names.len() - i,
    {
        proof {
            assert(nv.take(i + 1).drop_last() =~= nv.take(i as int));
            assert(nv.take(i + 1).last() == names@[i as int]@);
        }
        if ends_with(names[i].as_slice(), lit(".zen").as_slice()) {
            let ghost before = out@;
            out.push(copy(&names[i]));
            proof {
                lemma_map_push(before, out@.last(), |x: Vec<u8>| x@);
                assert(out@ =~= before.push(out@.last()));
            }
        }
        i = i + 1;
    }
    assert(nv.take(nv.len() as int) =~= nv);
    out
}

fn board_exec(board: Option<Vec<u8>>, board_exists: bool, root_files: &Vec<Vec<u8>>, problems: &mut Vec<Vec<u8>>) -> (r:
    Option<Vec<u8>>)
    ensures
        ov(r) == spec_board(ov(board), board_exists, views(root_files@)).0,
        views(final(problems)@) == views(old(problems)@) + spec_board(ov(board), board_exists, views(root_files@)).1,
{
    let ghost start = views(problems@);
    let ghost sb = spec_board(ov(board), board_exists, views(root_files@));
    match board {
        Some(b) => {
            if board_exists {
                assert(start + Seq::<Seq<u8>>::empty() =~= start);
                Some(b)
            } else {
                push_problem(
                    problems,
                    join3(lit("etchable.toml: [project] board ").as_slice(), b.as_slice(), lit(" does not exist").as_slice()),
                );
                assert(views(problems@) =~= start + sb.1);
                None
            }
        },
        None => {
            let zens = zen_files_exec(root_files);
            assert(views(zens@).len() == zens@.len());
            if zens.len() == 1 {
                assert(start + Seq::<Seq<u8>>::empty() =~= start);
                assert(views(zens@)[0] == zens@[0]@);
                Some(copy(&zens[0]))
            } else if zens.len() == 0 {
                push_problem(
                    problems,
                    lit(
                        "cannot determine the board entry: no .zen file at the project root — set [project] board in etchable.toml",
                    ),
                );
                assert(views(problems@) =~= start + sb.1);
                None
            } else {
                let n = decimal_text(zens.len() as u64);
                push_problem(
                    problems,
                    join3(
                        lit("cannot determine the board entry: ").as_slice(),
                        n.as_slice(),
                        lit(" .zen files at the project root — set [project] board in etchable.toml").as_slice(),
                    ),
                );
                assert(views(problems@) =~= start + sb.1);
                None
            }
        },
    }
}

fn cards_exec(cards: &Vec<CardFiles>, problems: &mut Vec<Vec<u8>>) -> (r: Vec<(Vec<u8>, ComponentCard)>)
    ensures
        kv_view(r@) == cards_fold(cards@).0,
        views(final(problems)@) == views(old(problems)@) + cards_fold(cards@).1,
{
    let ghost before = views(problems@);
    let mut components: Vec<(Vec<u8>, ComponentCard)> = Vec::new();
    let mut i: usize = 0;
    assert(cards@.take(0) =~= Seq::<CardFiles>::empty());
    assert(before + Seq::<Seq<u8>>::empty() =~= before);
    assert(kv_view(components@) =~= Seq::<(Seq<u8>, CardV)>::empty());
    while i < cards.len()
        invariant
            i <= cards@.len(),
            kv_view(components@) == cards_fold(cards@.take(i as int)).0,
            views(problems@) == before + cards_fold(cards@.take(i as int)).1,
        decreases cards.len() - i,
    {
        proof {
            assert(cards@.take(i + 1).drop_last() =~= cards@.take(i as int));
            assert(cards@.take(i + 1).last() == cards@[i as int]);
        }
        let ghost acc = cards_fold(cards@.take(i as int));
        let card = load_card(&cards[i], problems);
        kv_insert(&mut components, copy(&cards[i].name), card);
        assert(views(problems@) =~= before + (acc.1 + spec_load_card(cards@[i as int]).1));
        i = i + 1;
    }
    assert(cards@.take(cards@.len() as int) =~= cards@);
    components
}

/// Assemble a project from what its files say: `root` is the project
/// directory and `dir_name` its last component; `manifest` is what the
/// manifest gave and `board_exists` whether its `[project]` board names a
/// file under the root; `root_files` are the names of the files at the
/// root, and `cards` the cards under `components/` in file order.
pub fn assemble_project(
    root: Vec<u8>,
    dir_name: Option<Vec<u8>>,
    manifest: EtchManifest,
    board_exists: bool,
    root_files: &Vec<Vec<u8>>,
    cards: &Vec<CardFiles>,
) -> (r: ProjectDoc)
    ensures
        r@ == spec_assemble(root@, ov(dir_name), manifest@, board_exists, views(root_files@), cards@),
{
    let ghost m = manifest@;
    let EtchManifest { name, board, part_overrides, problems } = manifest;
    let mut problems = problems;
    let board = board_exec(board, board_exists, root_files, &mut problems);
    let name = match name {
        Some(n) => n,
        None => match dir_name {
            Some(d) => d,
            None => lit("project"),
        },
    };
    let components = cards_exec(cards, &mut problems);
    let doc = ProjectDoc { root, name, board, components, part_overrides, problems };
    proof {
        let sp = spec_assemble(root@, ov(dir_name), m, board_exists, views(root_files@), cards@);
        assert(doc@.problems =~= sp.problems);
        assert(doc@ =~= sp);
    }
    doc
}

// ---------------------------------------------------------------------------
// Scaffolding
// ---------------------------------------------------------------------------

/// A project name: not empty, not starting with `.`, and free of `/` and
/// `\`.
pub open spec fn spec_valid_project_name(n: Seq<u8>) -> bool {
    &&& n.len() > 0
    &&& n[0] != 46u8
    &&& !has_byte(n, 47u8)
    &&& !has_byte(n, 92u8)
}

pub fn valid_project_name(name: &[u8]) -> (r: bool)
    ensures
        r == spec_valid_project_name(name@),
{
    if name.len() == 0 || name[0] == 46u8 {
        return false;
    }
    let mut i: usize = 0;
    while i < name.len()
        invariant
            i <= name@.len(),
            forall|j: int| 0 <= j < i ==> name@[j] != 47u8 && name@[j] != 92u8,
        decreases name.len() - i,
    {
        if name[i] == 47u8 || name[i] == 92u8 {
            return false;
        }
        i = i + 1;
    }
    true
}

pub open spec fn manifest_text(name: Seq<u8>) -> Seq<u8> {
    "# ".spec_bytes() + name
        + " — an etchable project. This file marks the project root;\n# part selections and overrides live here (see docs).\n\n[project]\nversion = \"0.1\"\nname = \"".spec_bytes()
        + name + "\"\nboard = \"board.zen\"\n".spec_bytes()
}

pub open spec fn board_zen_text(name: Seq<u8>) -> Seq<u8> {
    "\"\"\"".spec_bytes() + name + " — describe the board here.\"\"\"\n\nBoard(name=\"".spec_bytes()
        + name + "\", layers=2, layout_path=\"layout/".spec_bytes() + name + "\")\n".spec_bytes()
}

/// The files of a new project, root-relative paths with their contents,
/// in the order they are written.
pub open spec fn spec_scaffold_files(name: Seq<u8>) -> Seq<(Seq<u8>, Seq<u8>)> {
    seq![
        ("etchable.toml".spec_bytes(), manifest_text(name)),
        ("board.zen".spec_bytes(), board_zen_text(name)),
        (".gitignore".spec_bytes(), ".pcb/\n".spec_bytes()),
        ("components/.gitkeep".spec_bytes(), Seq::empty()),
        ("datasheets/.gitkeep".spec_bytes(), Seq::empty()),
        ("layout/.gitkeep".spec_bytes(), Seq::empty()),
    ]
}

pub open spec fn msg_invalid_project_name(name: Seq<u8>) -> Seq<u8> {
    "invalid project name: ".spec_bytes() + spec_debug_str(name)
}

/// The files a new project named `name` starts with, or why the name is
/// refused.
pub fn scaffold_files(name: &[u8]) -> (r: Result<Vec<(Vec<u8>, Vec<u8>)>, Vec<u8>>)
    ensures
        spec_valid_project_name(name@) ==> (r matches Ok(files) && kv_view(files@)
            == spec_scaffold_files(name@)),
        !spec_valid_project_name(name@) ==> (r matches Err(m) && m@ == msg_invalid_project_name(
            name@,
        )),
{
    if !valid_project_name(name) {
        return Err(join2(lit("invalid project name: ").as_slice(), debug_quote(name).as_slice()));
    }
    let mut files: Vec<(Vec<u8>, Vec<u8>)> = Vec::new();
    let mut manifest = join3(
        lit("# ").as_slice(),
        name,
        lit(
            " — an etchable project. This file marks the project root;\n# part selections and overrides live here (see docs).\n\n[project]\nversion = \"0.1\"\nname = \"",
        ).as_slice(),
    );
    push_all(&mut manifest, name);
    push_all(&mut manifest, lit("\"\nboard = \"board.zen\"\n").as_slice());
    files.push((lit("etchable.toml"), manifest));
    let mut board = join3(lit("\"\"\"").as_slice(), name, lit(" — describe the board here.\"\"\"\n\nBoard(name=\"").as_slice());
    push_all(&mut board, name);
    push_all(&mut board, lit("\", layers=2, layout_path=\"layout/").as_slice());
    push_all(&mut board, name);
    push_all(&mut board, lit("\")\n").as_slice());
    files.push((lit("board.zen"), board));
    files.push((lit(".gitignore"), lit(".pcb/\n")));
    files.push((lit("components/.gitkeep"), Vec::new()));
    files.push((lit("datasheets/.gitkeep"), Vec::new()));
    files.push((lit("layout/.gitkeep"), Vec::new()));
    proof {
        assert(kv_view(files@) =~= spec_scaffold_files(name@));
    }
    Ok(files)
}


// ---------------------------------------------------------------------------
// The maps a project holds
// ---------------------------------------------------------------------------

proof fn lemma_vendors_fold_sorted(ctx: Seq<u8>, vs: Seq<TomlEntry>, acc: FieldsRead)
    requires
        sorted_keys(acc.fields.vendors),
    ensures
        sorted_keys(vendors_fold(ctx, vs, acc).fields.vendors),
    decreases vs.len(),
{
    if vs.len() > 0 {
        lemma_vendors_fold_sorted(ctx, vs.drop_last(), acc);
        let a = vendors_fold(ctx, vs.drop_last(), acc);
        match spec_parse_vendor(ctx, vs.last()).0 {
            Some(sel) => law_sorted_insert(a.fields.vendors, vs.last().key@, sel),
            None => {},
        }
    }
}

proof fn lemma_fields_fold_sorted(ctx: Seq<u8>, t: Seq<TomlEntry>)
    ensures
        sorted_keys(fields_fold(ctx, t).fields.vendors),
    decreases t.len(),
{
    if t.len() > 0 {
        lemma_fields_fold_sorted(ctx, t.drop_last());
        let acc = fields_fold(ctx, t.drop_last());
        let e = t.last();
        match e.value {
            TomlValue::Table(vs) => lemma_vendors_fold_sorted(ctx, vs@, acc),
            _ => {},
        }
    }
}

/// The overrides are sorted, and so is each override's vendor map.
pub open spec fn overrides_sorted(m: Seq<(Seq<u8>, PartFieldsV)>) -> bool {
    &&& sorted_keys(m)
    &&& forall|i: int| 0 <= i < m.len() ==> sorted_keys(#[trigger] m[i].1.vendors)
}

proof fn lemma_insert_override(m: Seq<(Seq<u8>, PartFieldsV)>, k: Seq<u8>, f: PartFieldsV)
    requires
        overrides_sorted(m),
        sorted_keys(f.vendors),
    ensures
        overrides_sorted(assoc_insert(m, k, f)),
{
    law_sorted_insert(m, k, f);
    lemma_insert_entries(m, k, f);
    let r = assoc_insert(m, k, f);
    assert forall|i: int| 0 <= i < r.len() implies sorted_keys(#[trigger] r[i].1.vendors) by {
        if r[i] != (k, f) {
            let j = choose|j: int| 0 <= j < m.len() && r[i] == m[j];
            assert(sorted_keys(m[j].1.vendors));
        }
    }
}

proof fn lemma_manifest_sorted(t: Seq<TomlEntry>, acc: ManifestRead)
    requires
        overrides_sorted(acc.overrides),
    ensures
        overrides_sorted(manifest_fold(t, acc).overrides),
    decreases t.len(),
{
    if t.len() > 0 {
        lemma_manifest_sorted(t.drop_last(), acc);
        let a = manifest_fold(t.drop_last(), acc);
        let e = t.last();
        if e.key@ == "project".spec_bytes() {
            match e.value {
                TomlValue::Table(pt) => lemma_project_keeps_overrides(pt@, a),
                _ => {},
            }
        } else if e.key@ == "parts".spec_bytes() {
            match e.value {
                TomlValue::Table(ps) => lemma_parts_sorted(ps@, a),
                _ => {},
            }
        }
    }
}

proof fn lemma_project_keeps_overrides(t: Seq<TomlEntry>, acc: ManifestRead)
    ensures
        project_fold(t, acc).overrides == acc.overrides,
    decreases t.len(),
{
    if t.len() > 0 {
        lemma_project_keeps_overrides(t.drop_last(), acc);
    }
}

proof fn lemma_parts_sorted(ps: Seq<TomlEntry>, acc: ManifestRead)
    requires
        overrides_sorted(acc.overrides),
    ensures
        overrides_sorted(parts_fold(ps, acc).overrides),
    decreases ps.len(),
{
    if ps.len() > 0 {
        lemma_parts_sorted(ps.drop_last(), acc);
        let a = parts_fold(ps.drop_last(), acc);
        let e = ps.last();
        match e.value {
            TomlValue::Table(t) => {
                lemma_fields_fold_sorted(override_ctx(e.key@), t@);
                lemma_insert_override(a.overrides, strip_root(e.key@), fields_fold(override_ctx(e.key@), t@).fields);
            },
            _ => {},
        }
    }
}

/// The cards are sorted by name, and so is each card's vendor map.
pub open spec fn cards_sorted(m: Seq<(Seq<u8>, CardV)>) -> bool {
    &&& sorted_keys(m)
    &&& forall|i: int| 0 <= i < m.len() ==> sorted_keys(#[trigger] m[i].1.part.vendors)
}

proof fn lemma_cards_sorted(cards: Seq<CardFiles>)
    ensures
        cards_sorted(cards_fold(cards).0),
    decreases cards.len(),
{
    if cards.len() > 0 {
        lemma_cards_sorted(cards.drop_last());
        let acc = cards_fold(cards.drop_last());
        let c = cards.last();
        let card = spec_load_card(c).0;
        match c.card {
            TomlRead::Parsed(t) => lemma_fields_fold_sorted(card_ctx(c.name@), t@),
            _ => {},
        }
        assert(sorted_keys(card.part.vendors));
        law_sorted_insert(acc.0, c.name@, card);
        lemma_insert_entries(acc.0, c.name@, card);
        let r = assoc_insert(acc.0, c.name@, card);
        assert forall|i: int| 0 <= i < r.len() implies sorted_keys(#[trigger] r[i].1.part.vendors) by {
            if r[i] != (c.name@, card) {
                let j = choose|j: int| 0 <= j < acc.0.len() && r[i] == acc.0[j];
                assert(sorted_keys(acc.0[j].1.part.vendors));
            }
        }
    }
}

/// A loaded project's maps are sorted maps: its cards by name, its
/// overrides by instance path, and every vendor map in them by vendor.
pub proof fn law_project_maps_sorted(
    root: Seq<u8>,
    dir_name: Option<Seq<u8>>,
    manifest: TomlRead,
    board_exists: bool,
    root_files: Seq<Seq<u8>>,
    cards: Seq<CardFiles>,
)
    ensures
        ({
            let p = spec_assemble(root, dir_name, manifest_read(manifest), board_exists, root_files, cards);
            &&& cards_sorted(p.components)
            &&& overrides_sorted(p.part_overrides)
        }),
{
    lemma_cards_sorted(cards);
    match manifest {
        TomlRead::Parsed(t) => lemma_manifest_sorted(t@, empty_manifest()),
        _ => {},
    }
}


/// An override key written with its `root.` prefix addresses the same
/// instance as the key without it.
pub proof fn law_root_prefix_normalized(k: Seq<u8>)
    ensures
        strip_root("root.".spec_bytes() + k) == k,
        !spec_starts_with(k, "root.".spec_bytes()) ==> strip_root(k) == k,
{
    let p = "root.".spec_bytes();
    let full = p + k;
    assert(full.subrange(0, p.len() as int) =~= p);
    assert(full.subrange(p.len() as int, full.len() as int) =~= k);
}

/// A vendor other than `lcsc` whose entry is a table is kept, as its JSON
/// text, never dropped.
pub proof fn law_unknown_vendor_preserved(ctx: Seq<u8>, e: TomlEntry)
    requires
        e.value is Table,
        e.key@ != "lcsc".spec_bytes(),
    ensures
        spec_parse_vendor(ctx, e).0 == Some(VendorV::Unknown(e.json@)),
        spec_parse_vendor(ctx, e).1 == seq![msg_unknown_vendor(ctx, e.key@)],
{
}

} // verus!
