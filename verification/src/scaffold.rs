//! Installing a component: the request's validation, the splices into the
//! generated wrapper, and the part card's text. Symbol parsing and the
//! wrapper's code generation are the caller's.
use vstd::prelude::*;
use vstd::string::StringSliceAdditionalSpecFns;
use crate::bytes::{bytes_eq, copy, lit, slice_copy, spec_find, spec_starts_with};
use crate::names::{spec_lcsc_part_valid, spec_valid_name};
use crate::quote::spec_debug_str;
use crate::text::push_all;

verus! {

/// An additional `.assets/` file (a 3D model).
pub struct ExtraAsset {
    /// Bare file name inside `<name>.assets/` (e.g. `MCU.step`).
    pub file_name: Vec<u8>,
    pub bytes: Vec<u8>,
}

/// The install seam: everything a component needs, as content.
pub struct InstallComponentRequest {
    pub name: Vec<u8>,
    /// `.kicad_sym` text holding exactly one symbol.
    pub symbol_kicad_sym: Vec<u8>,
    /// `.kicad_mod` text to vendor alongside.
    pub footprint_kicad_mod: Option<Vec<u8>>,
    pub extra_assets: Vec<ExtraAsset>,
    pub mpn: Option<Vec<u8>>,
    pub manufacturer: Option<Vec<u8>>,
    pub lcsc: Option<Vec<u8>>,
    pub description: Option<Vec<u8>>,
    pub datasheet_url: Option<Vec<u8>>,
    /// `[provenance]` entries for the card (string values).
    pub provenance: Vec<(Vec<u8>, Vec<u8>)>,
    /// `[assets]` entries (key -> root-relative path).
    pub assets: Vec<(Vec<u8>, Vec<u8>)>,
    pub overwrite: bool,
}

/// Why an install is refused.
#[derive(PartialEq, Eq, Structural, Debug, Clone, Copy)]
pub enum InstallError {
    InvalidName,
    NotLcscPart,
    /// Extra asset `index` is not a bare file name.
    AssetNotBare { index: usize },
    /// Extra asset `index` has an extension outside the allow-list.
    AssetExtension { index: usize },
    /// Extra asset `index` is over the size cap.
    AssetTooLarge { index: usize },
    /// The footprint content does not start with `(footprint`.
    NotFootprint,
    /// The footprint embeds files (checksummed by the build).
    EmbeddedFiles,
    /// The generated wrapper has no `symbol = Symbol(` line.
    NoSymbolLine,
    /// The generated wrapper has no `pins = {` block.
    NoPinsBlock,
    /// The symbol carries no part identity and the request gives none.
    NoPartIdentity,
}

/// The size cap of one extra asset: 8 MiB.
pub const EXTRA_ASSET_CAP: usize = 8388608;

pub open spec fn has_byte(s: Seq<u8>, b: u8) -> bool {
    exists|i: int| 0 <= i < s.len() && s[i] == b
}

/// `Path::extension` of a bare file name that does not start with `.`:
/// what follows its last `.`, if it has one.
pub open spec fn spec_extension(n: Seq<u8>) -> Option<Seq<u8>> {
    match crate::bytes::spec_rfind_byte(n, 46u8) {
        Some(i) => Some(n.subrange(i + 1, n.len() as int)),
        None => None,
    }
}

pub open spec fn lower_byte(b: u8) -> u8 {
    if 65u8 <= b <= 90u8 {
        (b + 32) as u8
    } else {
        b
    }
}

pub open spec fn ascii_lower(s: Seq<u8>) -> Seq<u8> {
    s.map_values(|b: u8| lower_byte(b))
}

/// `step`, `stp`, `wrl` or `obj`.
pub open spec fn allowed_extension(e: Seq<u8>) -> bool {
    e == "step".spec_bytes() || e == "stp".spec_bytes() || e == "wrl".spec_bytes() || e
        == "obj".spec_bytes()
}

/// What is wrong with extra asset `a`, if anything.
pub open spec fn asset_problem(a: ExtraAsset, index: usize) -> Option<InstallError> {
    let n = a.file_name@;
    if has_byte(n, 47u8) || has_byte(n, 92u8) || (n.len() > 0 && n[0] == 46u8) {
        Some(InstallError::AssetNotBare { index })
    } else if !allowed_extension(
        match spec_extension(n) {
            Some(e) => ascii_lower(e),
            None => Seq::empty(),
        },
    ) {
        Some(InstallError::AssetExtension { index })
    } else if a.bytes@.len() > EXTRA_ASSET_CAP {
        Some(InstallError::AssetTooLarge { index })
    } else {
        None
    }
}

/// The first asset problem at or after `from`.
pub open spec fn first_asset_problem(assets: Seq<ExtraAsset>, from: int) -> Option<InstallError>
    decreases assets.len() - from,
{
    if from < 0 || from >= assets.len() {
        None
    } else {
        match asset_problem(assets[from], from as usize) {
            Some(e) => Some(e),
            None => first_asset_problem(assets, from + 1),
        }
    }
}

/// The length of the whitespace character (`char::is_whitespace`) that `s`
/// starts with, as UTF-8; 0 when it starts with none.
pub open spec fn ws_len(s: Seq<u8>) -> nat {
    if s.len() >= 1 && ((9u8 <= s[0] <= 13u8) || s[0] == 32u8) {
        1
    } else if s.len() >= 2 && s[0] == 0xC2u8 && (s[1] == 0x85u8 || s[1] == 0xA0u8) {
        2
    } else if s.len() >= 3 && ((s[0] == 0xE1u8 && s[1] == 0x9Au8 && s[2] == 0x80u8) || (s[0]
        == 0xE2u8 && s[1] == 0x80u8 && ((0x80u8 <= s[2] <= 0x8Au8) || s[2] == 0xA8u8 || s[2]
        == 0xA9u8 || s[2] == 0xAFu8)) || (s[0] == 0xE2u8 && s[1] == 0x81u8 && s[2] == 0x9Fu8)
        || (s[0] == 0xE3u8 && s[1] == 0x80u8 && s[2] == 0x80u8)) {
        3
    } else {
        0
    }
}

/// `str::trim_start`: the text after its leading whitespace.
pub open spec fn trim_start(s: Seq<u8>) -> Seq<u8>
    decreases s.len(),
{
    if ws_len(s) > 0 {
        trim_start(s.subrange(ws_len(s) as int, s.len() as int))
    } else {
        s
    }
}

/// What `install_component` checks before anything is generated or
/// written: the name, the LCSC part, each extra asset, the footprint.
pub open spec fn spec_check_install(req: InstallComponentRequest) -> Result<(), InstallError> {
    if !spec_valid_name(req.name@) {
        Err(InstallError::InvalidName)
    } else if req.lcsc matches Some(l) && !spec_lcsc_part_valid(l@) {
        Err(InstallError::NotLcscPart)
    } else {
        match first_asset_problem(req.extra_assets@, 0) {
            Some(e) => Err(e),
            None => match req.footprint_kicad_mod {
                Some(fp) => if !spec_starts_with(trim_start(fp@), "(footprint".spec_bytes()) {
                    Err(InstallError::NotFootprint)
                } else if spec_find(fp@, "(embedded_files".spec_bytes()) is Some {
                    Err(InstallError::EmbeddedFiles)
                } else {
                    Ok(())
                },
                None => Ok(()),
            },
        }
    }
}

fn has_byte_exec(s: &[u8], b: u8) -> (r: bool)
    ensures
        r == has_byte(s@, b),
{
    let mut i: usize = 0;
    while i < s.len()
        invariant
            i <= s@.len(),
            forall|j: int| 0 <= j < i ==> s@[j] != b,
        decreases s.len() - i,
    {
        if s[i] == b {
            return true;
        }
        i = i + 1;
    }
    false
}

fn ascii_lower_exec(s: &[u8]) -> (r: Vec<u8>)
    ensures
        r@ == ascii_lower(s@),
{
    let mut out: Vec<u8> = Vec::new();
    let mut i: usize = 0;
    while i < s.len()
        invariant
            i <= s@.len(),
            out@ == ascii_lower(s@.take(i as int)),
        decreases s.len() - i,
    {
        let b = s[i];
        out.push(if 65u8 <= b && b <= 90u8 { b + 32 } else { b });
        assert(ascii_lower(s@.take(i + 1)) =~= ascii_lower(s@.take(i as int)).push(lower_byte(b)));
        i = i + 1;
    }
    assert(s@.take(s@.len() as int) =~= s@);
    out
}

fn asset_problem_exec(a: &ExtraAsset, index: usize) -> (r: Option<InstallError>)
    ensures
        r == asset_problem(*a, index),
{
    let n = a.file_name.as_slice();
    if has_byte_exec(n, 47u8) || has_byte_exec(n, 92u8) || (n.len() > 0 && n[0] == 46u8) {
        return Some(InstallError::AssetNotBare { index });
    }
    let nl: usize = n.len();
    proof {
        crate::bytes::lemma_rfind_byte(n@, 46u8);
    }
    let ext = match crate::bytes::rfind_byte(n, 46u8) {
        Some(i) => {
            assert(i < nl);
            ascii_lower_exec(slice_copy(n, i + 1, nl).as_slice())
        },
        None => {
            let e: Vec<u8> = Vec::new();
            assert(e@ =~= Seq::<u8>::empty());
            e
        },
    };
    let ok = bytes_eq(ext.as_slice(), lit("step").as_slice()) || bytes_eq(
        ext.as_slice(),
        lit("stp").as_slice(),
    ) || bytes_eq(ext.as_slice(), lit("wrl").as_slice()) || bytes_eq(
        ext.as_slice(),
        lit("obj").as_slice(),
    );
    if !ok {
        return Some(InstallError::AssetExtension { index });
    }
    if a.bytes.len() > EXTRA_ASSET_CAP {
        return Some(InstallError::AssetTooLarge { index });
    }
    None
}

fn ws_len_exec(s: &[u8]) -> (r: usize)
    ensures
        r == ws_len(s@),
{
    let n = s.len();
    if n >= 1 && ((9u8 <= s[0] && s[0] <= 13u8) || s[0] == 32u8) {
        1
    } else if n >= 2 && s[0] == 0xC2u8 && (s[1] == 0x85u8 || s[1] == 0xA0u8) {
        2
    } else if n >= 3 && ((s[0] == 0xE1u8 && s[1] == 0x9Au8 && s[2] == 0x80u8) || (s[0] == 0xE2u8
        && s[1] == 0x80u8 && ((0x80u8 <= s[2] && s[2] <= 0x8Au8) || s[2] == 0xA8u8 || s[2]
        == 0xA9u8 || s[2] == 0xAFu8)) || (s[0] == 0xE2u8 && s[1] == 0x81u8 && s[2] == 0x9Fu8) || (
    s[0] == 0xE3u8 && s[1] == 0x80u8 && s[2] == 0x80u8)) {
        3
    } else {
        0
    }
}

/// The offset where `str::trim_start` would begin.
pub(crate) fn trim_start_at(s: &[u8]) -> (r: usize)
    ensures
        r <= s@.len(),
        trim_start(s@) == s@.subrange(r as int, s@.len() as int),
{
    let mut i: usize = 0;
    assert(s@.subrange(0, s@.len() as int) =~= s@);
    loop
        invariant
            i <= s@.len(),
            trim_start(s@) == trim_start(s@.subrange(i as int, s@.len() as int)),
        ensures
            i <= s@.len(),
            trim_start(s@) == s@.subrange(i as int, s@.len() as int),
        decreases s@.len() - i,
    {
        let rest = slice_copy(s, i, s.len());
        let w = ws_len_exec(rest.as_slice());
        if w == 0 {
            break;
        }
        proof {
            assert(rest@.subrange(w as int, rest@.len() as int) =~= s@.subrange(
                i + w,
                s@.len() as int,
            ));
        }
        i = i + w;
    }
    i
}

/// Validate an install request before anything is generated or written.
pub fn check_install(req: &InstallComponentRequest) -> (r: Result<(), InstallError>)
    ensures
        r == spec_check_install(*req),
{
    if !crate::names::valid_instance_name(req.name.as_slice()) {
        return Err(InstallError::InvalidName);
    }
    match &req.lcsc {
        Some(l) => if !crate::names::lcsc_part_valid(l.as_slice()) {
            return Err(InstallError::NotLcscPart);
        },
        None => {},
    }
    let mut i: usize = 0;
    while i < req.extra_assets.len()
        invariant
            i <= req.extra_assets@.len(),
            spec_valid_name(req.name@),
            !(req.lcsc matches Some(l) && !spec_lcsc_part_valid(l@)),
            first_asset_problem(req.extra_assets@, 0) == first_asset_problem(
                req.extra_assets@,
                i as int,
            ),
        decreases req.extra_assets.len() - i,
    {
        match asset_problem_exec(&req.extra_assets[i], i) {
            Some(e) => return Err(e),
            None => {},
        }
        i = i + 1;
    }
    match &req.footprint_kicad_mod {
        Some(fp) => {
            let t = trim_start_at(fp.as_slice());
            let rest = slice_copy(fp.as_slice(), t, fp.len());
            if !crate::bytes::starts_with(rest.as_slice(), lit("(footprint").as_slice()) {
                return Err(InstallError::NotFootprint);
            }
            proof {
                crate::bytes::lemma_find_from(fp@, "(embedded_files".spec_bytes(), 0);
            }
            if crate::bytes::find(fp.as_slice(), lit("(embedded_files").as_slice()).is_some() {
                return Err(InstallError::EmbeddedFiles);
            }
            Ok(())
        },
        None => Ok(()),
    }
}

// ---------------------------------------------------------------------------
// The wrapper's splices
// ---------------------------------------------------------------------------

/// `s` with `t` inserted before the first occurrence of `anchor`.
pub open spec fn insert_before(s: Seq<u8>, anchor: Seq<u8>, t: Seq<u8>) -> Option<Seq<u8>> {
    match spec_find(s, anchor) {
        Some(a) => Some(s.subrange(0, a) + t + s.subrange(a, s.len() as int)),
        None => None,
    }
}

fn insert_before_exec(s: &[u8], anchor: &[u8], t: &[u8]) -> (r: Option<Vec<u8>>)
    ensures
        r matches Some(v) ==> insert_before(s@, anchor@, t@) == Some(v@),
        r is None ==> insert_before(s@, anchor@, t@) is None,
{
    proof {
        crate::bytes::lemma_find_from(s@, anchor@, 0);
    }
    match crate::bytes::find(s, anchor) {
        Some(a) => {
            let mut out = slice_copy(s, 0, a);
            push_all(&mut out, t);
            crate::text::push_range(&mut out, s, a, s.len());
            Some(out)
        },
        None => None,
    }
}

pub open spec fn footprint_line(footprint: Seq<u8>) -> Seq<u8> {
    "    footprint = File(".spec_bytes() + spec_debug_str(footprint) + "),\n".spec_bytes()
}

/// Insert `footprint = File("…")` ahead of the `symbol = Symbol(` line,
/// matching the generator's field order.
pub fn insert_footprint(zen: &[u8], footprint: &[u8]) -> (r: Result<Vec<u8>, InstallError>)
    ensures
        r matches Ok(v) ==> insert_before(
            zen@,
            "    symbol = Symbol(".spec_bytes(),
            footprint_line(footprint@),
        ) == Some(v@),
        r is Err ==> insert_before(
            zen@,
            "    symbol = Symbol(".spec_bytes(),
            footprint_line(footprint@),
        ) is None && r == Err::<Vec<u8>, InstallError>(InstallError::NoSymbolLine),
{
    let mut line = lit("    footprint = File(");
    push_all(&mut line, crate::quote::debug_quote(footprint).as_slice());
    push_all(&mut line, lit("),\n").as_slice());
    match insert_before_exec(zen, lit("    symbol = Symbol(").as_slice(), line.as_slice()) {
        Some(v) => Ok(v),
        None => Err(InstallError::NoSymbolLine),
    }
}

pub open spec fn part_line(mpn: Seq<u8>, manufacturer: Seq<u8>) -> Seq<u8> {
    "    part = Part(mpn = ".spec_bytes() + spec_debug_str(mpn) + ", manufacturer = ".spec_bytes()
        + spec_debug_str(manufacturer) + "),\n".spec_bytes()
}

/// Insert `part = Part(...)` ahead of the `pins = {` block.
pub fn insert_part(zen: &[u8], mpn: &[u8], manufacturer: &[u8]) -> (r: Result<Vec<u8>, InstallError>)
    ensures
        r matches Ok(v) ==> insert_before(
            zen@,
            "    pins = {".spec_bytes(),
            part_line(mpn@, manufacturer@),
        ) == Some(v@),
        r is Err ==> insert_before(
            zen@,
            "    pins = {".spec_bytes(),
            part_line(mpn@, manufacturer@),
        ) is None && r == Err::<Vec<u8>, InstallError>(InstallError::NoPinsBlock),
{
    let mut line = lit("    part = Part(mpn = ");
    push_all(&mut line, crate::quote::debug_quote(mpn).as_slice());
    push_all(&mut line, lit(", manufacturer = ").as_slice());
    push_all(&mut line, crate::quote::debug_quote(manufacturer).as_slice());
    push_all(&mut line, lit("),\n").as_slice());
    match insert_before_exec(zen, lit("    pins = {").as_slice(), line.as_slice()) {
        Some(v) => Ok(v),
        None => Err(InstallError::NoPinsBlock),
    }
}

/// `./NAME.assets/NAME.EXT`: where a vendored asset is referenced from the
/// wrapper.
pub open spec fn asset_rel(name: Seq<u8>, ext: Seq<u8>) -> Seq<u8> {
    "./".spec_bytes() + name + ".assets/".spec_bytes() + name + ".".spec_bytes() + ext
}

pub fn asset_rel_exec(name: &[u8], ext: &[u8]) -> (r: Vec<u8>)
    ensures
        r@ == asset_rel(name@, ext@),
{
    let mut out = lit("./");
    push_all(&mut out, name);
    push_all(&mut out, lit(".assets/").as_slice());
    push_all(&mut out, name);
    push_all(&mut out, lit(".").as_slice());
    push_all(&mut out, ext);
    out
}

/// The generated wrapper completed: the vendored footprint spliced in when
/// there is one, and the part identity when the symbol carries none.
pub open spec fn spec_finish_wrapper(
    zen: Seq<u8>,
    name: Seq<u8>,
    has_footprint: bool,
    symbol_has_identity: bool,
    mpn: Option<Seq<u8>>,
    manufacturer: Option<Seq<u8>>,
) -> Result<Seq<u8>, InstallError> {
    let z1 = if has_footprint {
        insert_before(
            zen,
            "    symbol = Symbol(".spec_bytes(),
            footprint_line(asset_rel(name, "kicad_mod".spec_bytes())),
        )
    } else {
        Some(zen)
    };
    match z1 {
        None => Err(InstallError::NoSymbolLine),
        Some(z) => if symbol_has_identity {
            Ok(z)
        } else {
            match (mpn, manufacturer) {
                (Some(m), Some(f)) => match insert_before(
                    z,
                    "    pins = {".spec_bytes(),
                    part_line(m, f),
                ) {
                    Some(v) => Ok(v),
                    None => Err(InstallError::NoPinsBlock),
                },
                _ => Err(InstallError::NoPartIdentity),
            }
        },
    }
}

pub fn finish_wrapper(
    zen: Vec<u8>,
    name: &[u8],
    has_footprint: bool,
    symbol_has_identity: bool,
    mpn: &Option<Vec<u8>>,
    manufacturer: &Option<Vec<u8>>,
) -> (r: Result<Vec<u8>, InstallError>)
    ensures
        r matches Ok(v) ==> spec_finish_wrapper(
            zen@,
            name@,
            has_footprint,
            symbol_has_identity,
            crate::facts::opt_v(*mpn),
            crate::facts::opt_v(*manufacturer),
        ) == Ok::<Seq<u8>, InstallError>(v@),
        r matches Err(e) ==> spec_finish_wrapper(
            zen@,
            name@,
            has_footprint,
            symbol_has_identity,
            crate::facts::opt_v(*mpn),
            crate::facts::opt_v(*manufacturer),
        ) == Err::<Seq<u8>, InstallError>(e),
{
    let z = if has_footprint {
        let fp = asset_rel_exec(name, lit("kicad_mod").as_slice());
        match insert_footprint(zen.as_slice(), fp.as_slice()) {
            Ok(v) => v,
            Err(e) => return Err(e),
        }
    } else {
        zen
    };
    if symbol_has_identity {
        return Ok(z);
    }
    match (mpn, manufacturer) {
        (Some(m), Some(f)) => insert_part(z.as_slice(), m.as_slice(), f.as_slice()),
        _ => Err(InstallError::NoPartIdentity),
    }
}

// ---------------------------------------------------------------------------
// The part card
// ---------------------------------------------------------------------------

/// `key = "VALUE"` lines; `true`/`false` are written bare when `bools`.
pub open spec fn entries_text(entries: Seq<(Vec<u8>, Vec<u8>)>, bools: bool) -> Seq<u8>
    decreases entries.len(),
{
    if entries.len() == 0 {
        Seq::empty()
    } else {
        let (k, v) = entries.last();
        let value = if bools && (v@ == "true".spec_bytes() || v@ == "false".spec_bytes()) {
            v@
        } else {
            spec_debug_str(v@)
        };
        entries_text(entries.drop_last(), bools) + k@ + " = ".spec_bytes() + value + "\n".spec_bytes()
    }
}

/// `key = "VALUE"\n` when the value is set.
pub open spec fn field_line(key: Seq<u8>, v: Option<Vec<u8>>) -> Seq<u8> {
    match v {
        Some(x) => key + " = ".spec_bytes() + spec_debug_str(x@) + "\n".spec_bytes(),
        None => Seq::empty(),
    }
}

/// The part card written beside the wrapper: description, mpn,
/// manufacturer and datasheet as TOML strings, then the LCSC vendor table,
/// the provenance table (booleans bare) and the assets table when present.
pub open spec fn spec_card_text(req: InstallComponentRequest) -> Seq<u8> {
    "# Part card for components/".spec_bytes() + req.name@
        + ".zen (generated by add_component).\n".spec_bytes() + field_line(
        "description".spec_bytes(),
        req.description,
    ) + field_line("mpn".spec_bytes(), req.mpn) + field_line(
        "manufacturer".spec_bytes(),
        req.manufacturer,
    ) + field_line("datasheet".spec_bytes(), req.datasheet_url) + match req.lcsc {
        Some(l) => "\n[vendors.lcsc]\npart = ".spec_bytes() + spec_debug_str(l@) + "\n".spec_bytes(),
        None => Seq::empty(),
    } + if req.provenance@.len() > 0 {
        "\n[provenance]\n".spec_bytes() + entries_text(req.provenance@, true)
    } else {
        Seq::empty()
    } + if req.assets@.len() > 0 {
        "\n[assets]\n".spec_bytes() + entries_text(req.assets@, false)
    } else {
        Seq::empty()
    }
}

/// A string as a TOML basic string (Rust's debug escaping is valid TOML
/// here).
pub fn toml_str(s: &[u8]) -> (r: Vec<u8>)
    ensures
        r@ == spec_debug_str(s@),
{
    crate::quote::debug_quote(s)
}

fn field_line_exec(key: &str, v: &Option<Vec<u8>>) -> (r: Vec<u8>)
    ensures
        r@ == field_line(key.spec_bytes(), *v),
{
    match v {
        Some(x) => {
            let mut out = lit(key);
            push_all(&mut out, lit(" = ").as_slice());
            push_all(&mut out, toml_str(x.as_slice()).as_slice());
            push_all(&mut out, lit("\n").as_slice());
            out
        },
        None => Vec::new(),
    }
}

fn entries_text_exec(entries: &Vec<(Vec<u8>, Vec<u8>)>, bools: bool) -> (r: Vec<u8>)
    ensures
        r@ == entries_text(entries@, bools),
{
    let mut out: Vec<u8> = Vec::new();
    let mut i: usize = 0;
    assert(entries_text(entries@.take(0), bools) =~= Seq::<u8>::empty());
    while i < entries.len()
        invariant
            i <= entries@.len(),
            out@ == entries_text(entries@.take(i as int), bools),
        decreases entries.len() - i,
    {
        proof {
            assert(entries@.take(i + 1).drop_last() =~= entries@.take(i as int));
            assert(entries@.take(i + 1).last() == entries@[i as int]);
        }
        let (k, v) = (&entries[i].0, &entries[i].1);
        push_all(&mut out, k.as_slice());
        push_all(&mut out, lit(" = ").as_slice());
        if bools && (bytes_eq(v.as_slice(), lit("true").as_slice()) || bytes_eq(
            v.as_slice(),
            lit("false").as_slice(),
        )) {
            push_all(&mut out, v.as_slice());
        } else {
            push_all(&mut out, toml_str(v.as_slice()).as_slice());
        }
        push_all(&mut out, lit("\n").as_slice());
        i = i + 1;
    }
    assert(entries@.take(entries@.len() as int) =~= entries@);
    out
}

/// The part card's text (see [`spec_card_text`]).
pub fn card_text(req: &InstallComponentRequest) -> (r: Vec<u8>)
    ensures
        r@ == spec_card_text(*req),
{
    let mut out = lit("# Part card for components/");
    push_all(&mut out, req.name.as_slice());
    push_all(&mut out, lit(".zen (generated by add_component).\n").as_slice());
    push_all(&mut out, field_line_exec("description", &req.description).as_slice());
    push_all(&mut out, field_line_exec("mpn", &req.mpn).as_slice());
    push_all(&mut out, field_line_exec("manufacturer", &req.manufacturer).as_slice());
    push_all(&mut out, field_line_exec("datasheet", &req.datasheet_url).as_slice());
    let lcsc = match &req.lcsc {
        Some(l) => {
            let mut t = lit("\n[vendors.lcsc]\npart = ");
            push_all(&mut t, toml_str(l.as_slice()).as_slice());
            push_all(&mut t, lit("\n").as_slice());
            t
        },
        None => Vec::new(),
    };
    push_all(&mut out, lcsc.as_slice());
    let prov = if req.provenance.len() > 0 {
        let mut t = lit("\n[provenance]\n");
        push_all(&mut t, entries_text_exec(&req.provenance, true).as_slice());
        t
    } else {
        Vec::new()
    };
    push_all(&mut out, prov.as_slice());
    let assets = if req.assets.len() > 0 {
        let mut t = lit("\n[assets]\n");
        push_all(&mut t, entries_text_exec(&req.assets, false).as_slice());
        t
    } else {
        Vec::new()
    };
    push_all(&mut out, assets.as_slice());
    out
}

/// A request to vendor a library symbol (and footprint) into the project,
/// by path; the files are read by the caller.
pub struct AddComponentRequest {
    pub name: Vec<u8>,
    /// `@stdlib/...` or workspace-relative path to a `.kicad_sym` file.
    pub symbol_library: Vec<u8>,
    /// Required only when the file holds more than one symbol.
    pub symbol_name: Option<Vec<u8>>,
    /// Optional `.kicad_mod` path to vendor alongside.
    pub footprint: Option<Vec<u8>>,
    pub mpn: Option<Vec<u8>>,
    pub manufacturer: Option<Vec<u8>>,
    pub lcsc: Option<Vec<u8>>,
    pub description: Option<Vec<u8>>,
    pub datasheet_url: Option<Vec<u8>>,
    pub overwrite: bool,
}

impl Default for AddComponentRequest {
    fn default() -> (r: AddComponentRequest)
        ensures
            r.name@.len() == 0,
            r.symbol_library@.len() == 0,
            r.symbol_name is None,
            r.footprint is None,
            r.mpn is None,
            r.manufacturer is None,
            r.lcsc is None,
            r.description is None,
            r.datasheet_url is None,
            !r.overwrite,
    {
        AddComponentRequest {
            name: Vec::new(),
            symbol_library: Vec::new(),
            symbol_name: None,
            footprint: None,
            mpn: None,
            manufacturer: None,
            lcsc: None,
            description: None,
            datasheet_url: None,
            overwrite: false,
        }
    }
}

/// What an install wrote and generated.
pub struct AddComponentResult {
    /// Root-relative paths, in write order.
    pub files_written: Vec<Vec<u8>>,
    pub zen_text: Vec<u8>,
    pub card_text: Vec<u8>,
    pub pin_count: usize,
    /// signal -> io identifier: the `pins={}` keys of the wrapper.
    pub io_names: Vec<(Vec<u8>, Vec<u8>)>,
}

fn copy_opt(o: &Option<Vec<u8>>) -> (r: Option<Vec<u8>>)
    ensures
        crate::facts::opt_v(r) == crate::facts::opt_v(*o),
{
    match o {
        Some(v) => Some(copy(v)),
        None => None,
    }
}

/// The install request an add-by-path request becomes once its symbol file
/// (and footprint file, if any) have been read: the same name, part fields
/// and overwrite flag, no extra assets, provenance or asset entries.
pub fn install_request(
    req: &AddComponentRequest,
    symbol_kicad_sym: Vec<u8>,
    footprint_kicad_mod: Option<Vec<u8>>,
) -> (r: InstallComponentRequest)
    ensures
        r.name@ == req.name@,
        r.symbol_kicad_sym@ == symbol_kicad_sym@,
        crate::facts::opt_v(r.footprint_kicad_mod) == crate::facts::opt_v(footprint_kicad_mod),
        r.extra_assets@.len() == 0,
        crate::facts::opt_v(r.mpn) == crate::facts::opt_v(req.mpn),
        crate::facts::opt_v(r.manufacturer) == crate::facts::opt_v(req.manufacturer),
        crate::facts::opt_v(r.lcsc) == crate::facts::opt_v(req.lcsc),
        crate::facts::opt_v(r.description) == crate::facts::opt_v(req.description),
        crate::facts::opt_v(r.datasheet_url) == crate::facts::opt_v(req.datasheet_url),
        r.provenance@.len() == 0,
        r.assets@.len() == 0,
        r.overwrite == req.overwrite,
{
    InstallComponentRequest {
        name: copy(&req.name),
        symbol_kicad_sym,
        footprint_kicad_mod,
        extra_assets: Vec::new(),
        mpn: copy_opt(&req.mpn),
        manufacturer: copy_opt(&req.manufacturer),
        lcsc: copy_opt(&req.lcsc),
        description: copy_opt(&req.description),
        datasheet_url: copy_opt(&req.datasheet_url),
        provenance: Vec::new(),
        assets: Vec::new(),
        overwrite: req.overwrite,
    }
}

/// `line` stands in `text` at the start of a line (right after a newline).
pub open spec fn line_in(text: Seq<u8>, line: Seq<u8>) -> bool {
    exists|i: int| 0 < i && #[trigger] text[i - 1] == 10u8 && crate::bytes::occurs_at(text, line, i)
}

/// The TOML line `key = "<value>"` that sets `key` to the string `v`.
pub open spec fn toml_string_line(key: Seq<u8>, v: Seq<u8>) -> Seq<u8> {
    key + " = ".spec_bytes() + spec_debug_str(v) + "\n".spec_bytes()
}

proof fn lemma_line_end(pre: Seq<u8>, line: Seq<u8>)
    requires
        pre.len() > 0,
        pre.last() == 10u8,
    ensures
        line_in(pre + line, line),
{
    let t = pre + line;
    let i = pre.len() as int;
    assert(t.subrange(i, i + line.len()) =~= line);
    assert(t[i - 1] == 10u8);
    assert(crate::bytes::occurs_at(t, line, i));
}

proof fn lemma_line_extend(t: Seq<u8>, line: Seq<u8>, post: Seq<u8>)
    requires
        line_in(t, line),
    ensures
        line_in(t + post, line),
{
    let i = choose|i: int| 0 < i && #[trigger] t[i - 1] == 10u8 && crate::bytes::occurs_at(t, line, i);
    let u = t + post;
    assert(u[i - 1] == t[i - 1]);
    assert(u.subrange(i, i + line.len()) =~= t.subrange(i, i + line.len()));
}

proof fn lemma_ends_newline(a: Seq<u8>, b: Seq<u8>)
    requires
        b.len() > 0 ==> b.last() == 10u8,
        a.len() > 0,
        a.last() == 10u8,
    ensures
        (a + b).len() > 0 && (a + b).last() == 10u8,
{
    if b.len() > 0 {
        assert((a + b).last() == b.last());
    } else {
        assert((a + b).last() == a.last());
    }
}

proof fn lemma_card_header_ends(name: Seq<u8>)
    ensures
        ("# Part card for components/".spec_bytes() + name
            + ".zen (generated by add_component).\n".spec_bytes()).len() > 0,
        ("# Part card for components/".spec_bytes() + name
            + ".zen (generated by add_component).\n".spec_bytes()).last() == 10u8,
{
    reveal_strlit(".zen (generated by add_component).\n");
    broadcast use vstd::string::is_ascii_spec_bytes;

    assert(vstd::string::is_ascii(".zen (generated by add_component).\n"));
    let tl = ".zen (generated by add_component).\n".spec_bytes();
    let h = "# Part card for components/".spec_bytes() + name + tl;
    assert(h.last() == tl.last());
}

proof fn lemma_field_line_ends(k: Seq<u8>, v: Option<Vec<u8>>)
    ensures
        field_line(k, v).len() > 0 ==> field_line(k, v).last() == 10u8,
        v matches Some(x) ==> field_line(k, v) == toml_string_line(k, x@),
{
    reveal_strlit("\n");
    broadcast use vstd::string::is_ascii_spec_bytes;

    assert(vstd::string::is_ascii("\n"));
}

/// Read back, the part card says what the request asked for, each field
/// under its own key: a request with an mpn yields the line
/// `mpn = "<mpn>"`, one with a manufacturer the line
/// `manufacturer = "<manufacturer>"`, and likewise for the description and
/// the datasheet, each at the start of a line.
pub proof fn law_card_fields_carry_request(req: InstallComponentRequest)
    ensures
        req.mpn matches Some(m) ==> line_in(spec_card_text(req), toml_string_line("mpn".spec_bytes(), m@)),
        req.manufacturer matches Some(m) ==> line_in(
            spec_card_text(req),
            toml_string_line("manufacturer".spec_bytes(), m@),
        ),
        req.description matches Some(d) ==> line_in(
            spec_card_text(req),
            toml_string_line("description".spec_bytes(), d@),
        ),
        req.datasheet_url matches Some(d) ==> line_in(
            spec_card_text(req),
            toml_string_line("datasheet".spec_bytes(), d@),
        ),
{
    let h = "# Part card for components/".spec_bytes() + req.name@
        + ".zen (generated by add_component).\n".spec_bytes();
    let d = field_line("description".spec_bytes(), req.description);
    let m = field_line("mpn".spec_bytes(), req.mpn);
    let f = field_line("manufacturer".spec_bytes(), req.manufacturer);
    let ds = field_line("datasheet".spec_bytes(), req.datasheet_url);
    let x = match req.lcsc {
        Some(l) => "\n[vendors.lcsc]\npart = ".spec_bytes() + spec_debug_str(l@) + "\n".spec_bytes(),
        None => Seq::empty(),
    };
    let y = if req.provenance@.len() > 0 {
        "\n[provenance]\n".spec_bytes() + entries_text(req.provenance@, true)
    } else {
        Seq::empty()
    };
    let z = if req.assets@.len() > 0 {
        "\n[assets]\n".spec_bytes() + entries_text(req.assets@, false)
    } else {
        Seq::empty()
    };
    assert(spec_card_text(req) == h + d + m + f + ds + x + y + z);
    lemma_card_header_ends(req.name@);
    lemma_field_line_ends("description".spec_bytes(), req.description);
    lemma_field_line_ends("mpn".spec_bytes(), req.mpn);
    lemma_field_line_ends("manufacturer".spec_bytes(), req.manufacturer);
    lemma_field_line_ends("datasheet".spec_bytes(), req.datasheet_url);
    lemma_ends_newline(h, d);
    lemma_ends_newline(h + d, m);
    lemma_ends_newline(h + d + m, f);
    // The line of each field the request gives, then the rest appended.
    if req.description is Some {
        lemma_line_end(h, d);
        lemma_line_extend(h + d, d, m);
        lemma_line_extend(h + d + m, d, f);
        lemma_line_extend(h + d + m + f, d, ds);
        lemma_line_extend(h + d + m + f + ds, d, x);
        lemma_line_extend(h + d + m + f + ds + x, d, y);
        lemma_line_extend(h + d + m + f + ds + x + y, d, z);
    }
    if req.mpn is Some {
        lemma_line_end(h + d, m);
        lemma_line_extend(h + d + m, m, f);
        lemma_line_extend(h + d + m + f, m, ds);
        lemma_line_extend(h + d + m + f + ds, m, x);
        lemma_line_extend(h + d + m + f + ds + x, m, y);
        lemma_line_extend(h + d + m + f + ds + x + y, m, z);
    }
    if req.manufacturer is Some {
        lemma_line_end(h + d + m, f);
        lemma_line_extend(h + d + m + f, f, ds);
        lemma_line_extend(h + d + m + f + ds, f, x);
        lemma_line_extend(h + d + m + f + ds + x, f, y);
        lemma_line_extend(h + d + m + f + ds + x + y, f, z);
    }
    if req.datasheet_url is Some {
        lemma_ends_newline(h + d + m + f, ds);
        lemma_line_end(h + d + m + f, ds);
        lemma_line_extend(h + d + m + f + ds, ds, x);
        lemma_line_extend(h + d + m + f + ds + x, ds, y);
        lemma_line_extend(h + d + m + f + ds + x + y, ds, z);
    }
}

proof fn lemma_lcsc_literal()
    ensures
        "\n[vendors.lcsc]\npart = ".spec_bytes() =~= "\n".spec_bytes() + "[vendors.lcsc]\n".spec_bytes()
            + "part = ".spec_bytes(),
        "\n".spec_bytes() =~= seq![10u8],
{
    reveal_strlit("\n[vendors.lcsc]\npart = ");
    reveal_strlit("\n");
    reveal_strlit("[vendors.lcsc]\n");
    reveal_strlit("part = ");
    broadcast use vstd::string::is_ascii_spec_bytes;

    assert(vstd::string::is_ascii("\n[vendors.lcsc]\npart = "));
    assert(vstd::string::is_ascii("\n"));
    assert(vstd::string::is_ascii("[vendors.lcsc]\n"));
    assert(vstd::string::is_ascii("part = "));
}

/// A request with an LCSC part number yields the vendor table
/// `[vendors.lcsc]` whose `part` line holds that number, each at the start
/// of a line.
pub proof fn law_card_lcsc_table(req: InstallComponentRequest)
    ensures
        req.lcsc matches Some(l) ==> line_in(
            spec_card_text(req),
            "[vendors.lcsc]\n".spec_bytes() + toml_string_line("part".spec_bytes(), l@),
        ),
{
    if let Some(l) = req.lcsc {
        let h = "# Part card for components/".spec_bytes() + req.name@
            + ".zen (generated by add_component).\n".spec_bytes();
        let pre = h + field_line("description".spec_bytes(), req.description) + field_line(
            "mpn".spec_bytes(),
            req.mpn,
        ) + field_line("manufacturer".spec_bytes(), req.manufacturer) + field_line(
            "datasheet".spec_bytes(),
            req.datasheet_url,
        );
        let x = "\n[vendors.lcsc]\npart = ".spec_bytes() + spec_debug_str(l@) + "\n".spec_bytes();
        let y = if req.provenance@.len() > 0 {
            "\n[provenance]\n".spec_bytes() + entries_text(req.provenance@, true)
        } else {
            Seq::empty()
        };
        let z = if req.assets@.len() > 0 {
            "\n[assets]\n".spec_bytes() + entries_text(req.assets@, false)
        } else {
            Seq::empty()
        };
        assert(spec_card_text(req) == pre + x + y + z);
        lemma_lcsc_literal();
        lemma_part_key();
        let line = "[vendors.lcsc]\n".spec_bytes() + toml_string_line("part".spec_bytes(), l@);
        let nl = "\n".spec_bytes();
        assert(x =~= nl + line);
        assert((pre + nl).last() == 10u8);
        lemma_line_end(pre + nl, line);
        assert(pre + nl + line =~= pre + x);
        lemma_line_extend(pre + x, line, y);
        lemma_line_extend(pre + x + y, line, z);
    }
}

proof fn lemma_part_key()
    ensures
        "part".spec_bytes() + " = ".spec_bytes() =~= "part = ".spec_bytes(),
{
    reveal_strlit("part");
    reveal_strlit(" = ");
    reveal_strlit("part = ");
    broadcast use vstd::string::is_ascii_spec_bytes;

    assert(vstd::string::is_ascii("part"));
    assert(vstd::string::is_ascii(" = "));
    assert(vstd::string::is_ascii("part = "));
}

} // verus!
