//! The library inventory: what can be built from without the network. The
//! caller walks the directories and reads the generic sources; which
//! entries are listed, what a generic declares, and where listings are cut
//! short is decided here. Library paths given by users are resolved here
//! against their root, refusing escapes.
use vstd::prelude::*;
use vstd::string::StringSliceAdditionalSpecFns;
use crate::assoc::{assoc_get, key_slot, kv_view, lemma_stop_at, stop_at};
use crate::bytes::{
    bytes_eq, copy, ends_with, find, lit, slice_copy, spec_ends_with, spec_find, spec_rfind_byte,
    spec_starts_with, starts_with, rfind_byte, occurs_at,
};
use crate::editability::{join_exec, joined, ov};
use crate::quote::{debug_quote, spec_debug_str};
use crate::names::is_ident_byte;
use crate::project::{CardV, ComponentCard, ProjectDoc, ProjectV, VendorSel, VendorV};
use crate::scaffold::{ascii_lower, lower_byte};
use crate::text::{lemma_map_push, push_all};
use crate::writers::views;

verus! {

/// At most this many symbols are listed over all libraries.
pub const MAX_SYMBOLS_TOTAL: usize = 1000;

/// At most this many symbols or footprints are listed per library.
pub const MAX_PER_LIBRARY: usize = 200;

/// At most this many pins are listed per symbol.
pub const MAX_PINS: usize = 500;

// ---------------------------------------------------------------------------
// Names
// ---------------------------------------------------------------------------

pub open spec fn opt_slice(o: Option<&[u8]>) -> Option<Seq<u8>> {
    match o {
        Some(s) => Some(s@),
        None => None,
    }
}

/// A name passes the filter when it holds the filter, ignoring ASCII case;
/// every name passes no filter.
pub open spec fn name_matches(filter: Option<Seq<u8>>, name: Seq<u8>) -> bool {
    match filter {
        Some(f) => spec_find(ascii_lower(name), ascii_lower(f)) is Some,
        None => true,
    }
}

pub(crate) fn lower_exec(s: &[u8]) -> (r: Vec<u8>)
    ensures
        r@ == ascii_lower(s@),
{
    let mut out: Vec<u8> = Vec::new();
    let mut i: usize = 0;
    while i < s.len()
        invariant
            i <= s@.len(),
            out@ == ascii_lower(s@.take(i as int)),
        decreases s.len() - i,
    {
        let b = s[i];
        let l = if 65u8 <= b && b <= 90u8 {
            b + 32
        } else {
            b
        };
        out.push(l);
        proof {
            assert(s@.take(i + 1) =~= s@.take(i as int).push(b));
            assert(ascii_lower(s@.take(i + 1)) =~= ascii_lower(s@.take(i as int)).push(lower_byte(b)));
        }
        i = i + 1;
    }
    assert(s@.take(s@.len() as int) =~= s@);
    out
}

pub fn name_matches_exec(filter: Option<&[u8]>, name: &[u8]) -> (r: bool)
    ensures
        r == name_matches(opt_slice(filter), name@),
{
    match filter {
        Some(f) => {
            let hay = lower_exec(name);
            let needle = lower_exec(f);
            find(hay.as_slice(), needle.as_slice()).is_some()
        },
        None => true,
    }
}

/// `Path::file_stem` of a file name: what precedes its last `.`, unless
/// that `.` leads the name.
pub open spec fn spec_stem(name: Seq<u8>) -> Seq<u8> {
    match spec_rfind_byte(name, 46u8) {
        Some(i) => if i > 0 {
            name.subrange(0, i)
        } else {
            name
        },
        None => name,
    }
}

pub fn stem(name: &[u8]) -> (r: Vec<u8>)
    ensures
        r@ == spec_stem(name@),
{
    proof {
        crate::bytes::lemma_rfind_byte(name@, 46u8);
    }
    match rfind_byte(name, 46u8) {
        Some(i) => {
            if i > 0 {
                slice_copy(name, 0, i)
            } else {
                slice_copy(name, 0, name.len())
            }
        },
        None => slice_copy(name, 0, name.len()),
    }
}

/// `str::trim_end_matches`: every trailing copy of `suffix` removed.
pub open spec fn trim_end_matches(s: Seq<u8>, suffix: Seq<u8>) -> Seq<u8>
    decreases s.len(),
{
    if suffix.len() > 0 && spec_ends_with(s, suffix) {
        trim_end_matches(s.subrange(0, s.len() - suffix.len()), suffix)
    } else {
        s
    }
}

/// A library directory's name with its suffix trimmed.
pub fn stem_trim(name: &[u8], suffix: &[u8]) -> (r: Vec<u8>)
    ensures
        r@ == trim_end_matches(name@, suffix@),
{
    let mut end: usize = name.len();
    assert(name@.subrange(0, end as int) =~= name@);
    loop
        invariant
            end <= name@.len(),
            trim_end_matches(name@, suffix@) == trim_end_matches(name@.subrange(0, end as int), suffix@),
        ensures
            end <= name@.len(),
            trim_end_matches(name@, suffix@) == name@.subrange(0, end as int),
        decreases end,
    {
        let cur = slice_copy(name, 0, end);
        if suffix.len() > 0 && ends_with(cur.as_slice(), suffix) {
            assert(cur@.subrange(0, cur@.len() - suffix@.len()) =~= name@.subrange(0, end - suffix@.len()));
            end = end - suffix.len();
        } else {
            break;
        }
    }
    slice_copy(name, 0, end)
}

/// `None` for a blank or `~` field, else the trimmed text.
pub open spec fn spec_none_if_empty(s: Seq<u8>) -> Option<Seq<u8>> {
    let t = trim(s);
    if t.len() == 0 || t == "~".spec_bytes() {
        None
    } else {
        Some(t)
    }
}

/// The length of the whitespace character (`char::is_whitespace`) that `s`
/// ends with, as UTF-8; 0 when it ends with none.
pub open spec fn ws_end_len(s: Seq<u8>) -> nat {
    let n = s.len();
    if n >= 1 && ((9u8 <= s[n - 1] <= 13u8) || s[n - 1] == 32u8) {
        1
    } else if n >= 2 && s[n - 2] == 0xC2u8 && (s[n - 1] == 0x85u8 || s[n - 1] == 0xA0u8) {
        2
    } else if n >= 3 && ((s[n - 3] == 0xE1u8 && s[n - 2] == 0x9Au8 && s[n - 1] == 0x80u8) || (s[n
        - 3] == 0xE2u8 && s[n - 2] == 0x80u8 && ((0x80u8 <= s[n - 1] <= 0x8Au8) || s[n - 1]
        == 0xA8u8 || s[n - 1] == 0xA9u8 || s[n - 1] == 0xAFu8)) || (s[n - 3] == 0xE2u8 && s[n
        - 2] == 0x81u8 && s[n - 1] == 0x9Fu8) || (s[n - 3] == 0xE3u8 && s[n - 2] == 0x80u8 && s[n
        - 1] == 0x80u8)) {
        3
    } else {
        0
    }
}

/// `str::trim_end`: the text before its trailing whitespace.
pub open spec fn trim_end(s: Seq<u8>) -> Seq<u8>
    decreases s.len(),
{
    if ws_end_len(s) > 0 {
        trim_end(s.subrange(0, s.len() - ws_end_len(s)))
    } else {
        s
    }
}

/// `str::trim`: both ends' whitespace removed.
pub open spec fn trim(s: Seq<u8>) -> Seq<u8> {
    trim_end(crate::scaffold::trim_start(s))
}

fn ws_end_len_exec(s: &[u8]) -> (r: usize)
    ensures
        r == ws_end_len(s@),
{
    let n = s.len();
    if n >= 1 && ((9u8 <= s[n - 1] && s[n - 1] <= 13u8) || s[n - 1] == 32u8) {
        1
    } else if n >= 2 && s[n - 2] == 0xC2u8 && (s[n - 1] == 0x85u8 || s[n - 1] == 0xA0u8) {
        2
    } else if n >= 3 && ((s[n - 3] == 0xE1u8 && s[n - 2] == 0x9Au8 && s[n - 1] == 0x80u8) || (s[n
        - 3] == 0xE2u8 && s[n - 2] == 0x80u8 && ((0x80u8 <= s[n - 1] && s[n - 1] <= 0x8Au8) || s[n
        - 1] == 0xA8u8 || s[n - 1] == 0xA9u8 || s[n - 1] == 0xAFu8)) || (s[n - 3] == 0xE2u8 && s[n
        - 2] == 0x81u8 && s[n - 1] == 0x9Fu8) || (s[n - 3] == 0xE3u8 && s[n - 2] == 0x80u8 && s[n
        - 1] == 0x80u8)) {
        3
    } else {
        0
    }
}

fn trim_end_exec(s: &[u8]) -> (r: Vec<u8>)
    ensures
        r@ == trim_end(s@),
{
    let mut cur = slice_copy(s, 0, s.len());
    assert(cur@ =~= s@);
    loop
        invariant
            trim_end(s@) == trim_end(cur@),
        ensures
            trim_end(s@) == cur@,
        decreases cur@.len(),
    {
        let w = ws_end_len_exec(cur.as_slice());
        if w == 0 {
            break;
        }
        cur = slice_copy(cur.as_slice(), 0, cur.len() - w);
    }
    cur
}

pub(crate) fn trim_exec(s: &[u8]) -> (r: Vec<u8>)
    ensures
        r@ == trim(s@),
{
    let at = crate::scaffold::trim_start_at(s);
    let start = slice_copy(s, at, s.len());
    trim_end_exec(start.as_slice())
}

/// A text field of a symbol: `None` when blank or `~`, else trimmed.
pub fn none_if_empty(s: &[u8]) -> (r: Option<Vec<u8>>)
    ensures
        ov(r) == spec_none_if_empty(s@),
{
    let t = trim_exec(s);
    if t.len() == 0 || bytes_eq(t.as_slice(), lit("~").as_slice()) {
        None
    } else {
        Some(t)
    }
}


// ---------------------------------------------------------------------------
// Generics
// ---------------------------------------------------------------------------

pub open spec fn strip_cr(l: Seq<u8>) -> Seq<u8> {
    if l.len() > 0 && l.last() == 13u8 {
        l.drop_last()
    } else {
        l
    }
}

/// The finished lines of `t` and the line in progress.
pub open spec fn lines_state(t: Seq<u8>) -> (Seq<Seq<u8>>, Seq<u8>)
    decreases t.len(),
{
    if t.len() == 0 {
        (Seq::empty(), Seq::empty())
    } else {
        let (done, cur) = lines_state(t.drop_last());
        if t.last() == 10u8 {
            (done.push(strip_cr(cur)), Seq::empty())
        } else {
            (done, cur.push(t.last()))
        }
    }
}

/// `str::lines`: the text split at `\n`, a `\r` before it dropped, and no
/// empty line after a final `\n`.
pub open spec fn text_lines(t: Seq<u8>) -> Seq<Seq<u8>> {
    let (done, cur) = lines_state(t);
    if cur.len() > 0 {
        done.push(strip_cr(cur))
    } else {
        done
    }
}

/// A line `<ident> = <rest>` with `ident` made of `[A-Za-z0-9_]`.
pub open spec fn assignment(line: Seq<u8>) -> Option<(Seq<u8>, Seq<u8>)> {
    match spec_find(line, " = ".spec_bytes()) {
        Some(i) => {
            let ident = line.subrange(0, i);
            let rest = line.subrange(i + " = ".spec_bytes().len(), line.len() as int);
            if ident.len() > 0 && forall|k: int| 0 <= k < ident.len() ==> is_ident_byte(#[trigger] ident[k]) {
                Some((ident, rest))
            } else {
                None
            }
        },
        None => None,
    }
}

/// A generic's config parameters and io signals, in declaration order.
pub open spec fn generic_scan(lines: Seq<Seq<u8>>) -> (Seq<Seq<u8>>, Seq<Seq<u8>>)
    decreases lines.len(),
{
    if lines.len() == 0 {
        (Seq::empty(), Seq::empty())
    } else {
        let (params, ios) = generic_scan(lines.drop_last());
        match assignment(lines.last()) {
            Some((ident, rest)) => {
                if spec_starts_with(rest, "config(".spec_bytes()) {
                    (params.push(ident), ios)
                } else if spec_starts_with(rest, "io(".spec_bytes()) {
                    (params, ios.push(ident))
                } else {
                    (params, ios)
                }
            },
            None => (params, ios),
        }
    }
}

fn text_lines_exec(t: &[u8]) -> (r: Vec<Vec<u8>>)
    ensures
        views(r@) == text_lines(t@),
{
    let mut done: Vec<Vec<u8>> = Vec::new();
    let mut start: usize = 0;
    let mut i: usize = 0;
    assert(t@.take(0) =~= Seq::<u8>::empty());
    while i < t.len()
        invariant
            start <= i <= t@.len(),
            views(done@) == lines_state(t@.take(i as int)).0,
            t@.subrange(start as int, i as int) == lines_state(t@.take(i as int)).1,
        decreases t.len() - i,
    {
        proof {
            assert(t@.take(i + 1).drop_last() =~= t@.take(i as int));
            assert(t@.take(i + 1).last() == t@[i as int]);
        }
        if t[i] == 10u8 {
            let mut end = i;
            if end > start && t[end - 1] == 13u8 {
                end = end - 1;
            }
            let line = slice_copy(t, start, end);
            let ghost before = done@;
            done.push(line);
            proof {
                lemma_map_push(before, line, |x: Vec<u8>| x@);
                assert(line@ =~= strip_cr(t@.subrange(start as int, i as int)));
            }
            start = i + 1;
            assert(t@.subrange(start as int, i + 1) =~= Seq::<u8>::empty());
        } else {
            assert(t@.subrange(start as int, i + 1) =~= t@.subrange(start as int, i as int).push(t@[i as int]));
        }
        i = i + 1;
    }
    assert(t@.take(t@.len() as int) =~= t@);
    if start < t.len() {
        let mut end = t.len();
        if t[end - 1] == 13u8 {
            end = end - 1;
        }
        let line = slice_copy(t, start, end);
        let ghost before = done@;
        done.push(line);
        proof {
            lemma_map_push(before, line, |x: Vec<u8>| x@);
            assert(line@ =~= strip_cr(t@.subrange(start as int, t@.len() as int)));
        }
    }
    done
}

fn assignment_exec(line: &[u8]) -> (r: Option<(Vec<u8>, Vec<u8>)>)
    ensures
        match r {
            Some(p) => assignment(line@) == Some((p.0@, p.1@)),
            None => assignment(line@) is None,
        },
{
    let sep = lit(" = ");
    match find(line, sep.as_slice()) {
        Some(i) => {
            proof {
                crate::bytes::lemma_find_from(line@, sep@, 0);
                assert(occurs_at(line@, sep@, i as int));
            }
            let ident = slice_copy(line, 0, i);
            let mut k: usize = 0;
            while k < ident.len()
                invariant
                    k <= ident@.len(),
                    forall|m: int| 0 <= m < k ==> is_ident_byte(#[trigger] ident@[m]),
                    ident@ == line@.subrange(0, i as int),
                    sep@ == " = ".spec_bytes(),
                    spec_find(line@, sep@) == Some(i as int),
                    occurs_at(line@, sep@, i as int),
                decreases ident.len() - k,
            {
                let b = ident[k];
                if !((65u8 <= b && b <= 90u8) || (97u8 <= b && b <= 122u8) || (48u8 <= b && b <= 57u8)
                    || b == 95u8) {
                    assert(!is_ident_byte(ident@[k as int]));
                    return None;
                }
                k = k + 1;
            }
            if ident.len() == 0 {
                return None;
            }
            let n: usize = line.len();
            assert(i + sep@.len() <= n);
            let rest = slice_copy(line, i + sep.len(), n);
            Some((ident, rest))
        },
        None => None,
    }
}

fn generic_scan_exec(lines: &Vec<Vec<u8>>) -> (r: (Vec<Vec<u8>>, Vec<Vec<u8>>))
    ensures
        (views(r.0@), views(r.1@)) == generic_scan(views(lines@)),
{
    let ghost lv = views(lines@);
    let mut params: Vec<Vec<u8>> = Vec::new();
    let mut ios: Vec<Vec<u8>> = Vec::new();
    let mut i: usize = 0;
    assert(lv.take(0) =~= Seq::<Seq<u8>>::empty());
    assert(views(params@) =~= Seq::<Seq<u8>>::empty());
    assert(views(ios@) =~= Seq::<Seq<u8>>::empty());
    while i < lines.len()
        invariant
            i <= lines@.len(),
            lv == views(lines@),
            (views(params@), views(ios@)) == generic_scan(lv.take(i as int)),
        decreases lines.len() - i,
    {
        proof {
            assert(lv.take(i + 1).drop_last() =~= lv.take(i as int));
            assert(lv.take(i + 1).last() == lines@[i as int]@);
        }
        match assignment_exec(lines[i].as_slice()) {
            Some((ident, rest)) => {
                if starts_with(rest.as_slice(), lit("config(").as_slice()) {
                    let ghost before = params@;
                    params.push(ident);
                    proof {
                        lemma_map_push(before, ident, |x: Vec<u8>| x@);
                    }
                } else if starts_with(rest.as_slice(), lit("io(").as_slice()) {
                    let ghost before = ios@;
                    ios.push(ident);
                    proof {
                        lemma_map_push(before, ident, |x: Vec<u8>| x@);
                    }
                }
            },
            None => {},
        }
        i = i + 1;
    }
    assert(lv.take(lv.len() as int) =~= lv);
    (params, ios)
}

pub struct GenericInfo {
    pub name: Vec<u8>,
    /// Config parameters, in declaration order (name only).
    pub params: Vec<Vec<u8>>,
    /// io() signals, in declaration order.
    pub ios: Vec<Vec<u8>>,
}

#[verifier::ext_equal]
pub struct GenericV {
    pub name: Seq<u8>,
    pub params: Seq<Seq<u8>>,
    pub ios: Seq<Seq<u8>>,
}

impl View for GenericInfo {
    type V = GenericV;

    open spec fn view(&self) -> GenericV {
        GenericV { name: self.name@, params: views(self.params@), ios: views(self.ios@) }
    }
}

/// A generic's source file: its file name and its text (`None` when it
/// could not be read).
pub struct GenericSource {
    pub file_name: Vec<u8>,
    pub text: Option<Vec<u8>>,
}

/// The generics listed: those whose stem passes the filter and whose
/// text could be read.
pub open spec fn generics_fold(gs: Seq<GenericSource>, filter: Option<Seq<u8>>) -> Seq<GenericV>
    decreases gs.len(),
{
    if gs.len() == 0 {
        Seq::empty()
    } else {
        let acc = generics_fold(gs.drop_last(), filter);
        let g = gs.last();
        let name = spec_stem(g.file_name@);
        match g.text {
            Some(t) => if name_matches(filter, name) {
                let (params, ios) = generic_scan(text_lines(t@));
                acc.push(GenericV { name, params, ios })
            } else {
                acc
            },
            None => acc,
        }
    }
}

// ---------------------------------------------------------------------------
// KiCad libraries
// ---------------------------------------------------------------------------

/// A library directory: its name and the names of its files of the
/// library's kind, in order.
pub struct LibraryDir {
    pub dir_name: Vec<u8>,
    pub file_names: Vec<Vec<u8>>,
}

pub struct SymbolLibraryInfo {
    pub library: Vec<u8>,
    pub symbols: Vec<Vec<u8>>,
    pub truncated: Option<usize>,
}

pub struct FootprintLibraryInfo {
    pub library: Vec<u8>,
    pub footprints: Vec<Vec<u8>>,
    pub truncated: Option<usize>,
}

/// A library as listed: its name, the entries shown, and how many were
/// left out.
#[verifier::ext_equal]
pub struct LibV {
    pub library: Seq<u8>,
    pub entries: Seq<Seq<u8>>,
    pub truncated: Option<nat>,
}

impl View for SymbolLibraryInfo {
    type V = LibV;

    open spec fn view(&self) -> LibV {
        LibV {
            library: self.library@,
            entries: views(self.symbols@),
            truncated: match self.truncated {
                Some(n) => Some(n as nat),
                None => None,
            },
        }
    }
}

impl View for FootprintLibraryInfo {
    type V = LibV;

    open spec fn view(&self) -> LibV {
        LibV {
            library: self.library@,
            entries: views(self.footprints@),
            truncated: match self.truncated {
                Some(n) => Some(n as nat),
                None => None,
            },
        }
    }
}

/// The stems of a library's files that pass the filter, or all of them
/// when the library's own name passes.
pub open spec fn lib_entries(names: Seq<Seq<u8>>, library: Seq<u8>, filter: Option<Seq<u8>>) -> Seq<
    Seq<u8>,
>
    decreases names.len(),
{
    if names.len() == 0 {
        Seq::empty()
    } else {
        let acc = lib_entries(names.drop_last(), library, filter);
        let s = spec_stem(names.last());
        if name_matches(filter, s) || name_matches(filter, library) {
            acc.push(s)
        } else {
            acc
        }
    }
}

/// A library's listing: at most `MAX_PER_LIBRARY` entries, and the count
/// of the rest.
pub open spec fn lib_info(library: Seq<u8>, all: Seq<Seq<u8>>) -> LibV {
    if all.len() > MAX_PER_LIBRARY {
        LibV {
            library,
            entries: all.take(MAX_PER_LIBRARY as int),
            truncated: Some((all.len() - MAX_PER_LIBRARY) as nat),
        }
    } else {
        LibV { library, entries: all, truncated: None }
    }
}

/// The symbol libraries listed, the number of symbols listed, and whether
/// the total cap was reached (which stops the listing).
pub open spec fn symbols_fold(libs: Seq<LibraryDir>, filter: Option<Seq<u8>>) -> (Seq<LibV>, nat, bool)
    decreases libs.len(),
{
    if libs.len() == 0 {
        (Seq::empty(), 0, false)
    } else {
        let (acc, total, capped) = symbols_fold(libs.drop_last(), filter);
        if capped {
            (acc, total, capped)
        } else {
            let lib = libs.last();
            let library = trim_end_matches(lib.dir_name@, ".kicad_symdir".spec_bytes());
            let all = lib_entries(views(lib.file_names@), library, filter);
            if all.len() == 0 {
                (acc, total, false)
            } else {
                let info = lib_info(library, all);
                let t = total + info.entries.len();
                (acc.push(info), t, t >= MAX_SYMBOLS_TOTAL)
            }
        }
    }
}

/// The footprint libraries listed.
pub open spec fn footprints_fold(libs: Seq<LibraryDir>, filter: Option<Seq<u8>>) -> Seq<LibV>
    decreases libs.len(),
{
    if libs.len() == 0 {
        Seq::empty()
    } else {
        let acc = footprints_fold(libs.drop_last(), filter);
        let lib = libs.last();
        let library = trim_end_matches(lib.dir_name@, ".pretty".spec_bytes());
        let all = lib_entries(views(lib.file_names@), library, filter);
        if all.len() == 0 {
            acc
        } else {
            acc.push(lib_info(library, all))
        }
    }
}

fn lib_entries_exec(names: &Vec<Vec<u8>>, library: &[u8], filter: Option<&[u8]>) -> (r: Vec<Vec<u8>>)
    ensures
        views(r@) == lib_entries(views(names@), library@, opt_slice(filter)),
{
    let ghost nv = views(names@);
    let lib_passes = name_matches_exec(filter, library);
    let mut out: Vec<Vec<u8>> = Vec::new();
    let mut i: usize = 0;
    assert(nv.take(0) =~= Seq::<Seq<u8>>::empty());
    assert(views(out@) =~= Seq::<Seq<u8>>::empty());
    while i < names.len()
        invariant
            i <= names@.len(),
            nv == views(names@),
            lib_passes == name_matches(opt_slice(filter), library@),
            views(out@) == lib_entries(nv.take(i as int), library@, opt_slice(filter)),
        decreases names.len() - i,
    {
        proof {
            assert(nv.take(i + 1).drop_last() =~= nv.take(i as int));
            assert(nv.take(i + 1).last() == names@[i as int]@);
        }
        let s = stem(names[i].as_slice());
        if name_matches_exec(filter, s.as_slice()) || lib_passes {
            let ghost before = out@;
            out.push(s);
            proof {
                lemma_map_push(before, s, |x: Vec<u8>| x@);
            }
        }
        i = i + 1;
    }
    assert(nv.take(nv.len() as int) =~= nv);
    out
}

/// Cut a library's entries to `MAX_PER_LIBRARY`; returns the entries shown
/// and the count left out.
fn cap_entries(all: Vec<Vec<u8>>) -> (r: (Vec<Vec<u8>>, Option<usize>))
    requires
        all@.len() > 0,
    ensures
        ({
            let info = lib_info(Seq::empty(), views(all@));
            &&& views(r.0@) == info.entries
            &&& match r.1 {
                Some(n) => info.truncated == Some(n as nat),
                None => info.truncated is None,
            }
        }),
{
    if all.len() > MAX_PER_LIBRARY {
        let mut shown: Vec<Vec<u8>> = Vec::new();
        let mut i: usize = 0;
        while i < MAX_PER_LIBRARY
            invariant
                i <= MAX_PER_LIBRARY < all@.len(),
                views(shown@) == views(all@).take(i as int),
            decreases MAX_PER_LIBRARY - i,
        {
            let ghost before = shown@;
            let e = copy(&all[i]);
            shown.push(e);
            proof {
                lemma_map_push(before, e, |x: Vec<u8>| x@);
                assert(views(all@).take(i + 1) =~= views(all@).take(i as int).push(all@[i as int]@));
            }
            i = i + 1;
        }
        let rest = all.len() - MAX_PER_LIBRARY;
        (shown, Some(rest))
    } else {
        (all, None)
    }
}

// ---------------------------------------------------------------------------
// The project's components
// ---------------------------------------------------------------------------

pub struct ProjectComponentInfo {
    pub name: Vec<u8>,
    pub description: Option<Vec<u8>>,
    pub mpn: Option<Vec<u8>>,
    pub lcsc: Option<Vec<u8>>,
}

#[verifier::ext_equal]
pub struct ComponentInfoV {
    pub name: Seq<u8>,
    pub description: Option<Seq<u8>>,
    pub mpn: Option<Seq<u8>>,
    pub lcsc: Option<Seq<u8>>,
}

impl View for ProjectComponentInfo {
    type V = ComponentInfoV;

    open spec fn view(&self) -> ComponentInfoV {
        ComponentInfoV {
            name: self.name@,
            description: ov(self.description),
            mpn: ov(self.mpn),
            lcsc: ov(self.lcsc),
        }
    }
}

/// A card's LCSC part number, when its `lcsc` vendor is one.
pub open spec fn card_lcsc(c: CardV) -> Option<Seq<u8>> {
    match assoc_get(c.part.vendors, "lcsc".spec_bytes()) {
        Some(VendorV::Lcsc { part, .. }) => Some(part),
        _ => None,
    }
}

/// The project's cards whose name passes the filter, in key order.
pub open spec fn components_fold(cards: Seq<(Seq<u8>, CardV)>, filter: Option<Seq<u8>>) -> Seq<ComponentInfoV>
    decreases cards.len(),
{
    if cards.len() == 0 {
        Seq::empty()
    } else {
        let acc = components_fold(cards.drop_last(), filter);
        let c = cards.last().1;
        if name_matches(filter, c.name) {
            acc.push(
                ComponentInfoV {
                    name: c.name,
                    description: c.description,
                    mpn: c.part.mpn,
                    lcsc: card_lcsc(c),
                },
            )
        } else {
            acc
        }
    }
}

fn copy_opt(o: &Option<Vec<u8>>) -> (r: Option<Vec<u8>>)
    ensures
        ov(r) == ov(*o),
{
    match o {
        Some(v) => Some(copy(v)),
        None => None,
    }
}

fn card_lcsc_exec(c: &ComponentCard) -> (r: Option<Vec<u8>>)
    ensures
        ov(r) == card_lcsc(c@),
{
    let (j, found) = key_slot(&c.part.vendors, lit("lcsc").as_slice());
    if found {
        match &c.part.vendors[j].1 {
            VendorSel::Lcsc { part, .. } => Some(copy(part)),
            _ => None,
        }
    } else {
        None
    }
}

// ---------------------------------------------------------------------------
// The listing
// ---------------------------------------------------------------------------

pub struct LibraryListing {
    pub generics: Vec<GenericInfo>,
    pub kicad_symbols: Vec<SymbolLibraryInfo>,
    pub kicad_footprints: Vec<FootprintLibraryInfo>,
    pub project_components: Vec<ProjectComponentInfo>,
    pub truncated: Option<Vec<u8>>,
}

#[verifier::ext_equal]
pub struct ListingV {
    pub generics: Seq<GenericV>,
    pub kicad_symbols: Seq<LibV>,
    pub kicad_footprints: Seq<LibV>,
    pub project_components: Seq<ComponentInfoV>,
    pub truncated: Option<Seq<u8>>,
}

impl View for LibraryListing {
    type V = ListingV;

    open spec fn view(&self) -> ListingV {
        ListingV {
            generics: self.generics@.map_values(|g: GenericInfo| g@),
            kicad_symbols: self.kicad_symbols@.map_values(|l: SymbolLibraryInfo| l@),
            kicad_footprints: self.kicad_footprints@.map_values(|l: FootprintLibraryInfo| l@),
            project_components: self.project_components@.map_values(|c: ProjectComponentInfo| c@),
            truncated: ov(self.truncated),
        }
    }
}

pub open spec fn msg_symbols_capped() -> Seq<u8> {
    "symbol listing capped — pass a filter to narrow the search".spec_bytes()
}

/// The listing: generics, symbol libraries up to the total cap, footprint
/// libraries, and the project's components, each filtered by name.
pub open spec fn spec_listing(
    generics: Seq<GenericSource>,
    symbol_libs: Seq<LibraryDir>,
    footprint_libs: Seq<LibraryDir>,
    project: Option<ProjectV>,
    filter: Option<Seq<u8>>,
) -> ListingV {
    let sym = symbols_fold(symbol_libs, filter);
    ListingV {
        generics: generics_fold(generics, filter),
        kicad_symbols: sym.0,
        kicad_footprints: footprints_fold(footprint_libs, filter),
        project_components: match project {
            Some(p) => components_fold(p.components, filter),
            None => Seq::empty(),
        },
        truncated: if sym.2 {
            Some(msg_symbols_capped())
        } else {
            None
        },
    }
}

fn generics_exec(gs: &Vec<GenericSource>, filter: Option<&[u8]>) -> (r: Vec<GenericInfo>)
    ensures
        r@.map_values(|g: GenericInfo| g@) == generics_fold(gs@, opt_slice(filter)),
{
    let mut out: Vec<GenericInfo> = Vec::new();
    let mut i: usize = 0;
    assert(gs@.take(0) =~= Seq::<GenericSource>::empty());
    assert(out@.map_values(|g: GenericInfo| g@) =~= Seq::<GenericV>::empty());
    while i < gs.len()
        invariant
            i <= gs@.len(),
            out@.map_values(|g: GenericInfo| g@) == generics_fold(gs@.take(i as int), opt_slice(filter)),
        decreases gs.len() - i,
    {
        proof {
            assert(gs@.take(i + 1).drop_last() =~= gs@.take(i as int));
            assert(gs@.take(i + 1).last() == gs@[i as int]);
        }
        let name = stem(gs[i].file_name.as_slice());
        match &gs[i].text {
            Some(t) => {
                if name_matches_exec(filter, name.as_slice()) {
                    let lines = text_lines_exec(t.as_slice());
                    let (params, ios) = generic_scan_exec(&lines);
                    let g = GenericInfo { name, params, ios };
                    let ghost before = out@;
                    out.push(g);
                    proof {
                        lemma_map_push(before, g, |g: GenericInfo| g@);
                    }
                }
            },
            None => {},
        }
        i = i + 1;
    }
    assert(gs@.take(gs@.len() as int) =~= gs@);
    out
}

fn symbols_exec(libs: &Vec<LibraryDir>, filter: Option<&[u8]>) -> (r: (Vec<SymbolLibraryInfo>, bool))
    ensures
        r.0@.map_values(|l: SymbolLibraryInfo| l@) == symbols_fold(libs@, opt_slice(filter)).0,
        r.1 == symbols_fold(libs@, opt_slice(filter)).2,
{
    let mut out: Vec<SymbolLibraryInfo> = Vec::new();
    let mut total: usize = 0;
    let mut i: usize = 0;
    assert(libs@.take(0) =~= Seq::<LibraryDir>::empty());
    assert(out@.map_values(|l: SymbolLibraryInfo| l@) =~= Seq::<LibV>::empty());
    while i < libs.len()
        invariant
            i <= libs@.len(),
            total < MAX_SYMBOLS_TOTAL,
            out@.map_values(|l: SymbolLibraryInfo| l@) == symbols_fold(libs@.take(i as int), opt_slice(filter)).0,
            total == symbols_fold(libs@.take(i as int), opt_slice(filter)).1,
            !symbols_fold(libs@.take(i as int), opt_slice(filter)).2,
        decreases libs.len() - i,
    {
        proof {
            assert(libs@.take(i + 1).drop_last() =~= libs@.take(i as int));
            assert(libs@.take(i + 1).last() == libs@[i as int]);
        }
        let library = stem_trim(libs[i].dir_name.as_slice(), lit(".kicad_symdir").as_slice());
        let all = lib_entries_exec(&libs[i].file_names, library.as_slice(), filter);
        if all.len() > 0 {
            let ghost allv = views(all@);
            let (shown, truncated) = cap_entries(all);
            let n = shown.len();
            let info = SymbolLibraryInfo { library, symbols: shown, truncated };
            proof {
                assert(views(info.symbols@).len() == n);
                assert(info@ =~= lib_info(library@, allv));
            }
            let ghost before = out@;
            out.push(info);
            proof {
                lemma_map_push(before, info, |l: SymbolLibraryInfo| l@);
            }
            total = total + n;
            if total >= MAX_SYMBOLS_TOTAL {
                proof {
                    let k = (i + 1) as int;
                    assert forall|m: int| k <= m <= libs@.len() implies #[trigger] symbols_fold(
                        libs@.take(m),
                        opt_slice(filter),
                    ) == symbols_fold(libs@.take(k), opt_slice(filter)) by {
                        lemma_capped_stays(libs@, opt_slice(filter), k, m);
                    }
                    assert(libs@.take(libs@.len() as int) =~= libs@);
                }
                return (out, true);
            }
        }
        i = i + 1;
    }
    assert(libs@.take(libs@.len() as int) =~= libs@);
    (out, false)
}

/// Once the cap is reached, later libraries change nothing.
proof fn lemma_capped_stays(libs: Seq<LibraryDir>, filter: Option<Seq<u8>>, k: int, m: int)
    requires
        0 <= k <= m <= libs.len(),
        symbols_fold(libs.take(k), filter).2,
    ensures
        symbols_fold(libs.take(m), filter) == symbols_fold(libs.take(k), filter),
    decreases m - k,
{
    if m > k {
        lemma_capped_stays(libs, filter, k, m - 1);
        assert(libs.take(m).drop_last() =~= libs.take(m - 1));
    }
}

fn footprints_exec(libs: &Vec<LibraryDir>, filter: Option<&[u8]>) -> (r: Vec<FootprintLibraryInfo>)
    ensures
        r@.map_values(|l: FootprintLibraryInfo| l@) == footprints_fold(libs@, opt_slice(filter)),
{
    let mut out: Vec<FootprintLibraryInfo> = Vec::new();
    let mut i: usize = 0;
    assert(libs@.take(0) =~= Seq::<LibraryDir>::empty());
    assert(out@.map_values(|l: FootprintLibraryInfo| l@) =~= Seq::<LibV>::empty());
    while i < libs.len()
        invariant
            i <= libs@.len(),
            out@.map_values(|l: FootprintLibraryInfo| l@) == footprints_fold(libs@.take(i as int), opt_slice(filter)),
        decreases libs.len() - i,
    {
        proof {
            assert(libs@.take(i + 1).drop_last() =~= libs@.take(i as int));
            assert(libs@.take(i + 1).last() == libs@[i as int]);
        }
        let library = stem_trim(libs[i].dir_name.as_slice(), lit(".pretty").as_slice());
        let all = lib_entries_exec(&libs[i].file_names, library.as_slice(), filter);
        if all.len() > 0 {
            let ghost allv = views(all@);
            let (shown, truncated) = cap_entries(all);
            let info = FootprintLibraryInfo { library, footprints: shown, truncated };
            assert(info@ =~= lib_info(library@, allv));
            let ghost before = out@;
            out.push(info);
            proof {
                lemma_map_push(before, info, |l: FootprintLibraryInfo| l@);
            }
        }
        i = i + 1;
    }
    assert(libs@.take(libs@.len() as int) =~= libs@);
    out
}

fn components_exec(cards: &Vec<(Vec<u8>, ComponentCard)>, filter: Option<&[u8]>) -> (r: Vec<ProjectComponentInfo>)
    ensures
        r@.map_values(|c: ProjectComponentInfo| c@) == components_fold(kv_view(cards@), opt_slice(filter)),
{
    let ghost cv = kv_view(cards@);
    let mut out: Vec<ProjectComponentInfo> = Vec::new();
    let mut i: usize = 0;
    assert(cv.take(0) =~= Seq::<(Seq<u8>, CardV)>::empty());
    assert(out@.map_values(|c: ProjectComponentInfo| c@) =~= Seq::<ComponentInfoV>::empty());
    while i < cards.len()
        invariant
            i <= cards@.len(),
            cv == kv_view(cards@),
            out@.map_values(|c: ProjectComponentInfo| c@) == components_fold(cv.take(i as int), opt_slice(filter)),
        decreases cards.len() - i,
    {
        proof {
            assert(cv.take(i + 1).drop_last() =~= cv.take(i as int));
            assert(cv.take(i + 1).last() == cv[i as int]);
        }
        let c = &cards[i].1;
        if name_matches_exec(filter, c.name.as_slice()) {
            let info = ProjectComponentInfo {
                name: copy(&c.name),
                description: copy_opt(&c.description),
                mpn: copy_opt(&c.part.mpn),
                lcsc: card_lcsc_exec(c),
            };
            let ghost before = out@;
            out.push(info);
            proof {
                lemma_map_push(before, info, |c: ProjectComponentInfo| c@);
                assert(info@ =~= (ComponentInfoV {
                    name: cv[i as int].1.name,
                    description: cv[i as int].1.description,
                    mpn: cv[i as int].1.part.mpn,
                    lcsc: card_lcsc(cv[i as int].1),
                }));
            }
        }
        i = i + 1;
    }
    assert(cv.take(cv.len() as int) =~= cv);
    out
}

pub open spec fn project_opt(p: Option<&ProjectDoc>) -> Option<ProjectV> {
    match p {
        Some(d) => Some(d@),
        None => None,
    }
}

/// The inventory from what the caller found on disk: the generic sources
/// under `generics/`, the `.kicad_symdir` and `.pretty` library
/// directories, and the project's cards.
pub fn build_listing(
    generics: &Vec<GenericSource>,
    symbol_libs: &Vec<LibraryDir>,
    footprint_libs: &Vec<LibraryDir>,
    project: Option<&ProjectDoc>,
    filter: Option<&[u8]>,
) -> (r: LibraryListing)
    ensures
        r@ == spec_listing(generics@, symbol_libs@, footprint_libs@, project_opt(project), opt_slice(filter)),
{
    let g = generics_exec(generics, filter);
    let (symbols, capped) = symbols_exec(symbol_libs, filter);
    let footprints = footprints_exec(footprint_libs, filter);
    let components = match project {
        Some(p) => components_exec(&p.components, filter),
        None => Vec::new(),
    };
    let truncated = if capped {
        Some(lit("symbol listing capped — pass a filter to narrow the search"))
    } else {
        None
    };
    let r = LibraryListing {
        generics: g,
        kicad_symbols: symbols,
        kicad_footprints: footprints,
        project_components: components,
        truncated,
    };
    proof {
        let sp = spec_listing(generics@, symbol_libs@, footprint_libs@, project_opt(project), opt_slice(filter));
        assert(r@.project_components =~= sp.project_components);
        assert(r@ =~= sp);
    }
    r
}


// ---------------------------------------------------------------------------
// Library paths
// ---------------------------------------------------------------------------

/// The root a user-facing library path is read under.
#[derive(PartialEq, Eq, Structural, Debug, Clone, Copy)]
pub enum LibraryRoot {
    /// `@stdlib/...`: under the materialized stdlib.
    Stdlib,
    /// Anything else: under the workspace root.
    Workspace,
}

/// The root of a library path and the path relative to it.
pub open spec fn spec_library_target(raw: Seq<u8>) -> (LibraryRoot, Seq<u8>) {
    let p = "@stdlib/".spec_bytes();
    if spec_starts_with(raw, p) {
        (LibraryRoot::Stdlib, raw.subrange(p.len() as int, raw.len() as int))
    } else {
        (LibraryRoot::Workspace, raw)
    }
}

pub fn library_target(raw: &[u8]) -> (r: (LibraryRoot, Vec<u8>))
    ensures
        (r.0, r.1@) == spec_library_target(raw@),
{
    let p = lit("@stdlib/");
    if starts_with(raw, p.as_slice()) {
        (LibraryRoot::Stdlib, slice_copy(raw, p.len(), raw.len()))
    } else {
        (LibraryRoot::Workspace, slice_copy(raw, 0, raw.len()))
    }
}

/// A canonical path lies within a canonical base directory: it is the
/// base, or continues it after a `/`.
pub open spec fn within(path: Seq<u8>, base: Seq<u8>) -> bool {
    &&& spec_starts_with(path, base)
    &&& (path.len() == base.len() || (base.len() > 0 && base.last() == 47u8) || path[base.len() as int]
        == 47u8)
}

pub fn within_exec(path: &[u8], base: &[u8]) -> (r: bool)
    ensures
        r == within(path@, base@),
{
    if !starts_with(path, base) {
        return false;
    }
    path.len() == base.len() || (base.len() > 0 && base[base.len() - 1] == 47u8) || path[base.len()]
        == 47u8
}

/// What resolving a library path answers, given the canonical form of the
/// path joined to its root (`None`: it does not resolve) and of the root
/// itself; `base` is the root as given.
pub open spec fn spec_resolve_library_path(
    raw: Seq<u8>,
    base: Seq<u8>,
    canonical: Option<Seq<u8>>,
    base_canonical: Option<Seq<u8>>,
) -> Result<Seq<u8>, Seq<u8>> {
    match canonical {
        None => Err("no such file: ".spec_bytes() + raw),
        Some(c) => match base_canonical {
            None => Err("unreadable base dir ".spec_bytes() + base),
            Some(b) => if within(c, b) {
                Ok(c)
            } else {
                Err("path escapes its root: ".spec_bytes() + raw)
            },
        },
    }
}

/// Resolve a user-facing library path (`@stdlib/...` or workspace-relative)
/// to a real file, refusing escapes of its root: the caller canonicalizes
/// the path joined to the root that `library_target` names, and the root.
pub fn resolve_library_path(
    raw: &[u8],
    base: &[u8],
    canonical: Option<Vec<u8>>,
    base_canonical: Option<Vec<u8>>,
) -> (r: Result<Vec<u8>, Vec<u8>>)
    ensures
        match r {
            Ok(p) => spec_resolve_library_path(raw@, base@, ov(canonical), ov(base_canonical)) == Ok::<
                Seq<u8>,
                Seq<u8>,
            >(p@),
            Err(m) => spec_resolve_library_path(raw@, base@, ov(canonical), ov(base_canonical))
                == Err::<Seq<u8>, Seq<u8>>(m@),
        },
{
    match canonical {
        None => {
            let mut m = lit("no such file: ");
            push_all(&mut m, raw);
            Err(m)
        },
        Some(c) => match base_canonical {
            None => {
                let mut m = lit("unreadable base dir ");
                push_all(&mut m, base);
                Err(m)
            },
            Some(b) => {
                if within_exec(c.as_slice(), b.as_slice()) {
                    Ok(c)
                } else {
                    let mut m = lit("path escapes its root: ");
                    push_all(&mut m, raw);
                    Err(m)
                }
            },
        },
    }
}

// ---------------------------------------------------------------------------
// Symbol pins
// ---------------------------------------------------------------------------

pub struct SymbolPinInfo {
    pub name: Vec<u8>,
    pub number: Vec<u8>,
    pub electrical_type: Option<Vec<u8>>,
    pub hidden: bool,
    /// The sanitized identifier `pins={}` will bind this pin's signal to.
    pub io_name: Vec<u8>,
}

pub struct SymbolPins {
    pub symbol: Vec<u8>,
    pub pins: Vec<SymbolPinInfo>,
    /// Deduped signal -> io identifier map: the exact keys a wrapper's
    /// `pins={}` needs.
    pub io_names: Vec<(Vec<u8>, Vec<u8>)>,
    pub footprint: Option<Vec<u8>>,
    pub mpn: Option<Vec<u8>>,
    pub manufacturer: Option<Vec<u8>>,
    pub datasheet: Option<Vec<u8>>,
    pub description: Option<Vec<u8>>,
    pub truncated: Option<usize>,
}

/// Why a symbol cannot be picked from a library file at `path` holding
/// the symbols `names`: a requested name it lacks, several symbols and no
/// name, or no symbol at all.
pub open spec fn spec_symbol_choice(
    path: Seq<u8>,
    requested: Option<Seq<u8>>,
    requested_found: bool,
    names: Seq<Seq<u8>>,
) -> Option<Seq<u8>> {
    match requested {
        Some(n) => if requested_found {
            None
        } else {
            Some(
                "no symbol ".spec_bytes() + spec_debug_str(n) + " in ".spec_bytes() + path
                    + "; available: ".spec_bytes() + joined(names),
            )
        },
        None => if names.len() > 1 {
            Some(
                path + " holds ".spec_bytes() + crate::bytes::decimal(names.len())
                    + " symbols — pass `symbol`: ".spec_bytes() + joined(names),
            )
        } else if names.len() == 0 {
            Some("no symbols in ".spec_bytes() + path)
        } else {
            None
        },
    }
}

/// Check the symbol choice; `requested_found` says whether the library
/// holds the requested symbol.
pub fn symbol_choice(
    path: &[u8],
    requested: Option<&[u8]>,
    requested_found: bool,
    names: &Vec<Vec<u8>>,
) -> (r: Result<(), Vec<u8>>)
    ensures
        match r {
            Ok(()) => spec_symbol_choice(path@, opt_slice(requested), requested_found, views(names@)) is None,
            Err(m) => spec_symbol_choice(path@, opt_slice(requested), requested_found, views(names@))
                == Some(m@),
        },
{
    match requested {
        Some(n) => {
            if requested_found {
                Ok(())
            } else {
                let mut m = lit("no symbol ");
                push_all(&mut m, debug_quote(n).as_slice());
                push_all(&mut m, lit(" in ").as_slice());
                push_all(&mut m, path);
                push_all(&mut m, lit("; available: ").as_slice());
                push_all(&mut m, join_exec(names).as_slice());
                Err(m)
            }
        },
        None => {
            if names.len() > 1 {
                let mut m: Vec<u8> = Vec::new();
                push_all(&mut m, path);
                push_all(&mut m, lit(" holds ").as_slice());
                push_all(&mut m, crate::bytes::decimal_text(names.len() as u64).as_slice());
                push_all(&mut m, lit(" symbols — pass `symbol`: ").as_slice());
                push_all(&mut m, join_exec(names).as_slice());
                Err(m)
            } else if names.len() == 0 {
                let mut m = lit("no symbols in ");
                push_all(&mut m, path);
                Err(m)
            } else {
                Ok(())
            }
        },
    }
}

/// The pins listed of a symbol with `total` pins: the first `MAX_PINS`,
/// and how many were left out.
pub fn symbol_pins_from(
    symbol: Vec<u8>,
    pins: Vec<SymbolPinInfo>,
    io_names: Vec<(Vec<u8>, Vec<u8>)>,
    footprint: &[u8],
    mpn: Option<Vec<u8>>,
    manufacturer: Option<Vec<u8>>,
    datasheet: Option<Vec<u8>>,
    description: Option<Vec<u8>>,
) -> (r: SymbolPins)
    ensures
        r.symbol == symbol,
        r.pins@ == (if pins@.len() > MAX_PINS { pins@.take(MAX_PINS as int) } else { pins@ }),
        r.truncated == (if pins@.len() > MAX_PINS { Some((pins@.len() - MAX_PINS) as usize) } else { None }),
        r.io_names == io_names,
        ov(r.footprint) == spec_none_if_empty(footprint@),
        r.mpn == mpn,
        r.manufacturer == manufacturer,
        r.datasheet == datasheet,
        r.description == description,
{
    let total = pins.len();
    let mut pins = pins;
    let truncated = if total > MAX_PINS {
        pins.truncate(MAX_PINS);
        Some(total - MAX_PINS)
    } else {
        None
    };
    SymbolPins {
        symbol,
        pins,
        io_names,
        footprint: none_if_empty(footprint),
        mpn,
        manufacturer,
        datasheet,
        description,
        truncated,
    }
}


// ---------------------------------------------------------------------------
// Laws
// ---------------------------------------------------------------------------

/// A resolved library path never leaves its root: whatever the caller's
/// canonicalization gave, a path is answered only when it lies within the
/// canonical root.
pub proof fn law_resolved_paths_stay_within_root(
    raw: Seq<u8>,
    base: Seq<u8>,
    canonical: Option<Seq<u8>>,
    base_canonical: Option<Seq<u8>>,
)
    ensures
        spec_resolve_library_path(raw, base, canonical, base_canonical) matches Ok(p) ==> (canonical
            == Some(p) && (base_canonical matches Some(b) && within(p, b))),
{
}

/// Every entry a library lists passes the filter, or its library's name
/// does; at most `MAX_PER_LIBRARY` are listed, and the count left out is
/// reported exactly.
pub proof fn law_library_entries_filtered(names: Seq<Seq<u8>>, library: Seq<u8>, filter: Option<Seq<u8>>)
    ensures
        forall|i: int| 0 <= i < lib_entries(names, library, filter).len() ==> name_matches(
            filter,
            #[trigger] lib_entries(names, library, filter)[i],
        ) || name_matches(filter, library),
        ({
            let all = lib_entries(names, library, filter);
            let info = lib_info(library, all);
            &&& info.entries.len() <= MAX_PER_LIBRARY
            &&& info.entries.len() + match info.truncated {
                Some(n) => n,
                None => 0,
            } == all.len()
            &&& forall|i: int| 0 <= i < info.entries.len() ==> #[trigger] info.entries[i] == all[i]
        }),
    decreases names.len(),
{
    if names.len() > 0 {
        law_library_entries_filtered(names.drop_last(), library, filter);
        let acc = lib_entries(names.drop_last(), library, filter);
        let all = lib_entries(names, library, filter);
        assert forall|i: int| 0 <= i < all.len() implies name_matches(filter, #[trigger] all[i])
            || name_matches(filter, library) by {
            if i < acc.len() {
                assert(all[i] == acc[i]);
            }
        }
    }
}

} // verus!
