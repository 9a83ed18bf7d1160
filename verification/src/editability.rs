//! Which instances and nets a structured writer can target. An instance
//! is editable when its parent module's authored file holds exactly one
//! top-level call with its literal name; a net when exactly one top-level
//! assignment in the authored files defines it. Everything else is refused
//! with a reason, and a refused instance is anchored to its nearest
//! editable ancestor.
use vstd::prelude::*;
use vstd::string::StringSliceAdditionalSpecFns;
use crate::bytes::{bytes_eq, copy, decimal, decimal_text, lit, slice_copy, spec_rfind_byte};
use crate::index::{calls_named, FileIndex, NetDef};
use crate::model::{instance_index, InstanceDoc, InstanceKind, SchematicDoc};
use crate::names::spec_is_authored;
use crate::text::push_all;

verus! {

pub struct InstanceEdit {
    /// A structured writer can target this instance's creating call.
    pub editable: bool,
    /// Workspace-relative file holding the creating call (when literal).
    pub file: Option<Vec<u8>>,
    /// 1-based line of the call statement.
    pub line: Option<u32>,
    /// Why the instance is not editable.
    pub reason: Option<Vec<u8>>,
    /// For non-editable instances: the nearest ancestor whose creating
    /// call is literal, where a structured edit reaching this instance must
    /// land.
    pub anchor: Option<Vec<u8>>,
}

pub struct NetEdit {
    /// A structured writer can rename/rewire this net's defining assignment.
    pub editable: bool,
    pub file: Option<Vec<u8>>,
    /// 1-based line of the defining assignment.
    pub line: Option<u32>,
    /// The variable the net is bound to in its defining file.
    pub variable: Option<Vec<u8>>,
    pub reason: Option<Vec<u8>>,
}

/// Editability keyed like the schematic: instances by dotted path (modules
/// and components only), nets by name.
pub struct EditabilityDoc {
    pub instances: Vec<(Vec<u8>, InstanceEdit)>,
    pub nets: Vec<(Vec<u8>, NetEdit)>,
}

/// [`InstanceEdit`] as values.
pub struct InstanceEditView {
    pub editable: bool,
    pub file: Option<Seq<u8>>,
    pub line: Option<u32>,
    pub reason: Option<Seq<u8>>,
    pub anchor: Option<Seq<u8>>,
}

/// [`NetEdit`] as values.
pub struct NetEditView {
    pub editable: bool,
    pub file: Option<Seq<u8>>,
    pub line: Option<u32>,
    pub variable: Option<Seq<u8>>,
    pub reason: Option<Seq<u8>>,
}

pub open spec fn ov(o: Option<Vec<u8>>) -> Option<Seq<u8>> {
    match o {
        Some(v) => Some(v@),
        None => None,
    }
}

impl InstanceEdit {
    pub open spec fn view(&self) -> InstanceEditView {
        InstanceEditView {
            editable: self.editable,
            file: ov(self.file),
            line: self.line,
            reason: ov(self.reason),
            anchor: ov(self.anchor),
        }
    }

    /// A refusal with `reason`.
    pub fn refused(reason: Vec<u8>) -> (r: InstanceEdit)
        ensures
            r.view() == refusal(reason@),
    {
        InstanceEdit { editable: false, file: None, line: None, reason: Some(reason), anchor: None }
    }
}

impl NetEdit {
    pub open spec fn view(&self) -> NetEditView {
        NetEditView {
            editable: self.editable,
            file: ov(self.file),
            line: self.line,
            variable: ov(self.variable),
            reason: ov(self.reason),
        }
    }
}

pub open spec fn refusal(reason: Seq<u8>) -> InstanceEditView {
    InstanceEditView { editable: false, file: None, line: None, reason: Some(reason), anchor: None }
}

/// The items separated by `, `.
pub open spec fn joined(items: Seq<Seq<u8>>) -> Seq<u8>
    decreases items.len(),
{
    if items.len() == 0 {
        Seq::empty()
    } else if items.len() == 1 {
        items[0]
    } else {
        joined(items.drop_last()) + ", ".spec_bytes() + items.last()
    }
}

pub open spec fn msg_no_source() -> Seq<u8> {
    "the enclosing module has no resolvable source file".spec_bytes()
}

pub open spec fn msg_library(file: Seq<u8>) -> Seq<u8> {
    "instantiated inside library source (".spec_bytes() + file
        + ") — structured edits land on the nearest authored ancestor".spec_bytes()
}

pub open spec fn msg_ambiguous_call(count: nat, file: Seq<u8>, local: Seq<u8>, lines: Seq<Seq<u8>>) -> Seq<u8> {
    "ambiguous: ".spec_bytes() + decimal(count) + " top-level calls in ".spec_bytes() + file
        + " carry name=\"".spec_bytes() + local + "\" (lines ".spec_bytes() + joined(lines)
        + ")".spec_bytes()
}

pub open spec fn msg_no_call(local: Seq<u8>, file: Seq<u8>) -> Seq<u8> {
    "no top-level call with a literal name=\"".spec_bytes() + local + "\" in ".spec_bytes() + file
        + " — the instance is likely generated (loop, comprehension, or computed name); edit the source or ask the agent".spec_bytes()
}

pub open spec fn msg_no_net_def(kind: Seq<u8>, name: Seq<u8>) -> Seq<u8> {
    "no top-level `VAR = ".spec_bytes() + kind + "(\"".spec_bytes() + name
        + "\")` assignment in authored source — the net may be generated or scoped through io(); edit the source or ask the agent".spec_bytes()
}

pub open spec fn msg_ambiguous_net(count: nat, kind: Seq<u8>, name: Seq<u8>, locs: Seq<Seq<u8>>) -> Seq<u8> {
    "ambiguous: ".spec_bytes() + decimal(count) + " assignments define ".spec_bytes() + kind
        + "(\"".spec_bytes() + name + "\") (".spec_bytes() + joined(locs) + ")".spec_bytes()
}

/// `rsplit_once('.')`: the parent path and the local name.
pub open spec fn parent_split(path: Seq<u8>) -> Option<(Seq<u8>, Seq<u8>)> {
    match spec_rfind_byte(path, 46u8) {
        Some(i) => Some((path.subrange(0, i), path.subrange(i + 1, path.len() as int))),
        None => None,
    }
}

/// The first indexed file named `f`.
pub open spec fn file_from(files: Seq<(Vec<u8>, FileIndex)>, f: Seq<u8>, from: int) -> Option<int>
    decreases files.len() - from,
{
    if from < 0 || from >= files.len() {
        None
    } else if files[from].0@ == f {
        Some(from)
    } else {
        file_from(files, f, from + 1)
    }
}

/// The classification of the call creating `local` in `file`.
pub open spec fn call_entry(idx: FileIndex, file: Seq<u8>, local: Seq<u8>) -> InstanceEditView {
    match idx.error {
        Some(e) => refusal(e@),
        None => {
            let cs = calls_named(idx.calls@, local);
            if cs.len() == 1 {
                InstanceEditView {
                    editable: true,
                    file: Some(file),
                    line: Some(idx.calls@[cs[0] as int].line),
                    reason: None,
                    anchor: None,
                }
            } else if cs.len() > 1 {
                refusal(
                    msg_ambiguous_call(
                        cs.len(),
                        file,
                        local,
                        cs.map_values(|c: usize| decimal(idx.calls@[c as int].line as nat)),
                    ),
                )
            } else {
                refusal(msg_no_call(local, file))
            }
        },
    }
}

/// The entry for one instance, before anchoring; `None` for instances that
/// are no edit target (ports, pins, interfaces, the root).
pub open spec fn base_entry(sch: SchematicDoc, files: Seq<(Vec<u8>, FileIndex)>, inst: InstanceDoc) -> Option<
    InstanceEditView,
> {
    if !(inst.kind == InstanceKind::Module || inst.kind == InstanceKind::Component) {
        None
    } else {
        match parent_split(inst.path@) {
            None => None,
            Some((parent, local)) => {
                let src = match instance_index(sch.instances@, parent) {
                    Some(p) => ov(sch.instances@[p].source_file),
                    None => None,
                };
                Some(
                    match src {
                        None => refusal(msg_no_source()),
                        Some(f) => if !spec_is_authored(f) {
                            refusal(msg_library(f))
                        } else {
                            match file_from(files, f, 0) {
                                Some(k) => call_entry(files[k].1, f, local),
                                None => refusal(msg_no_source()),
                            }
                        },
                    },
                )
            },
        }
    }
}

pub open spec fn base_entries(
    sch: SchematicDoc,
    files: Seq<(Vec<u8>, FileIndex)>,
    insts: Seq<InstanceDoc>,
) -> Seq<(Seq<u8>, InstanceEditView)>
    decreases insts.len(),
{
    if insts.len() == 0 {
        Seq::empty()
    } else {
        let r = base_entries(sch, files, insts.drop_last());
        match base_entry(sch, files, insts.last()) {
            Some(e) => r.push((insts.last().path@, e)),
            None => r,
        }
    }
}

/// The first entry for `p`.
pub open spec fn entry_from(es: Seq<(Seq<u8>, InstanceEditView)>, p: Seq<u8>, from: int) -> Option<int>
    decreases es.len() - from,
{
    if from < 0 || from >= es.len() {
        None
    } else if es[from].0 == p {
        Some(from)
    } else {
        entry_from(es, p, from + 1)
    }
}

pub open spec fn editable_entry(es: Seq<(Seq<u8>, InstanceEditView)>, p: Seq<u8>) -> bool {
    match entry_from(es, p, 0) {
        Some(i) => es[i].1.editable,
        None => false,
    }
}

/// The nearest ancestor of `path` with an editable entry.
pub open spec fn anchor_of(es: Seq<(Seq<u8>, InstanceEditView)>, path: Seq<u8>) -> Option<Seq<u8>>
    decreases path.len(),
{
    match parent_split(path) {
        None => None,
        Some((parent, _)) => if editable_entry(es, parent) {
            Some(parent)
        } else if parent.len() < path.len() {
            anchor_of(es, parent)
        } else {
            None
        },
    }
}

pub open spec fn anchored(es: Seq<(Seq<u8>, InstanceEditView)>) -> Seq<(Seq<u8>, InstanceEditView)> {
    es.map_values(
        |e: (Seq<u8>, InstanceEditView)|
            if e.1.editable {
                e
            } else {
                (e.0, InstanceEditView { anchor: anchor_of(es, e.0), ..e.1 })
            },
    )
}

/// Indices of the definitions named `name` with callee `kind`.
pub open spec fn defs_of(defs: Seq<NetDef>, name: Seq<u8>, kind: Seq<u8>) -> Seq<int>
    decreases defs.len(),
{
    if defs.len() == 0 {
        Seq::empty()
    } else {
        let r = defs_of(defs.drop_last(), name, kind);
        if defs.last().name@ == name && defs.last().callee@ == kind {
            r.push(defs.len() - 1)
        } else {
            r
        }
    }
}

/// (file, definition) index pairs defining the net, files in order.
pub open spec fn net_matches(files: Seq<(Vec<u8>, FileIndex)>, name: Seq<u8>, kind: Seq<u8>) -> Seq<(int, int)>
    decreases files.len(),
{
    if files.len() == 0 {
        Seq::empty()
    } else {
        net_matches(files.drop_last(), name, kind) + defs_of(
            files.last().1.net_defs@,
            name,
            kind,
        ).map_values(|d: int| ((files.len() - 1) as int, d))
    }
}

pub open spec fn def_at(files: Seq<(Vec<u8>, FileIndex)>, m: (int, int)) -> NetDef {
    files[m.0].1.net_defs@[m.1]
}

pub open spec fn net_entry(files: Seq<(Vec<u8>, FileIndex)>, name: Seq<u8>, kind: Seq<u8>) -> NetEditView {
    let ms = net_matches(files, name, kind);
    if ms.len() == 1 {
        NetEditView {
            editable: true,
            file: Some(files[ms[0].0].0@),
            line: Some(def_at(files, ms[0]).line),
            variable: Some(def_at(files, ms[0]).variable@),
            reason: None,
        }
    } else if ms.len() == 0 {
        NetEditView {
            editable: false,
            file: None,
            line: None,
            variable: None,
            reason: Some(msg_no_net_def(kind, name)),
        }
    } else {
        NetEditView {
            editable: false,
            file: None,
            line: None,
            variable: None,
            reason: Some(
                msg_ambiguous_net(
                    ms.len(),
                    kind,
                    name,
                    ms.map_values(
                        |m: (int, int)|
                            files[m.0].0@ + ":".spec_bytes() + decimal(def_at(files, m).line as nat),
                    ),
                ),
            ),
        }
    }
}

pub open spec fn instance_entries_view(v: Seq<(Vec<u8>, InstanceEdit)>) -> Seq<(Seq<u8>, InstanceEditView)> {
    v.map_values(|e: (Vec<u8>, InstanceEdit)| (e.0@, e.1.view()))
}

pub open spec fn net_entries_view(v: Seq<(Vec<u8>, NetEdit)>) -> Seq<(Seq<u8>, NetEditView)> {
    v.map_values(|e: (Vec<u8>, NetEdit)| (e.0@, e.1.view()))
}

pub(crate) fn join_exec(items: &Vec<Vec<u8>>) -> (r: Vec<u8>)
    ensures
        r@ == joined(crate::writers::views(items@)),
{
    let ghost iv = crate::writers::views(items@);
    let mut out: Vec<u8> = Vec::new();
    let mut i: usize = 0;
    assert(joined(iv.take(0)) =~= Seq::<u8>::empty());
    while i < items.len()
        invariant
            i <= items@.len(),
            iv == crate::writers::views(items@),
            out@ == joined(iv.take(i as int)),
        decreases items.len() - i,
    {
        proof {
            assert(iv.take(i + 1).drop_last() =~= iv.take(i as int));
            assert(iv.take(i + 1).last() == items@[i as int]@);
        }
        if i > 0 {
            push_all(&mut out, lit(", ").as_slice());
        } else {
            assert(iv.take(1) =~= seq![items@[0]@]);
        }
        push_all(&mut out, items[i].as_slice());
        i = i + 1;
    }
    assert(iv.take(iv.len() as int) =~= iv);
    out
}

fn call_entry_exec(idx: &FileIndex, file: &[u8], local: &[u8]) -> (r: InstanceEdit)
    ensures
        r.view() == call_entry(*idx, file@, local@),
{
    match &idx.error {
        Some(e) => return InstanceEdit::refused(copy(e)),
        None => {},
    }
    let cs = crate::index::find_calls_named(idx, local);
    let n: usize = idx.calls.len();
    proof {
        crate::index::lemma_calls_named(idx.calls@, local@);
    }
    if cs.len() == 1 {
        return InstanceEdit {
            editable: true,
            file: Some(crate::bytes::owned(file)),
            line: Some(idx.calls[cs[0]].line),
            reason: None,
            anchor: None,
        };
    }
    if cs.len() == 0 {
        let mut m = lit("no top-level call with a literal name=\"");
        push_all(&mut m, local);
        push_all(&mut m, lit("\" in ").as_slice());
        push_all(&mut m, file);
        push_all(
            &mut m,
            lit(
                " — the instance is likely generated (loop, comprehension, or computed name); edit the source or ask the agent",
            ).as_slice(),
        );
        return InstanceEdit::refused(m);
    }
    let ghost want = cs@.map_values(|c: usize| decimal(idx.calls@[c as int].line as nat));
    let mut lines: Vec<Vec<u8>> = Vec::new();
    let mut k: usize = 0;
    assert(crate::writers::views(lines@) =~= want.take(0));
    while k < cs.len()
        invariant
            k <= cs@.len(),
            cs@ == calls_named(idx.calls@, local@),
            forall|j: int| 0 <= j < cs@.len() ==> (#[trigger] cs@[j]) < idx.calls@.len(),
            want == cs@.map_values(|c: usize| decimal(idx.calls@[c as int].line as nat)),
            crate::writers::views(lines@) == want.take(k as int),
        decreases cs.len() - k,
    {
        let ghost old = lines@;
        let d = decimal_text(idx.calls[cs[k]].line as u64);
        lines.push(d);
        proof {
            crate::text::lemma_map_push(old, d, |x: Vec<u8>| x@);
            assert(want.take(k + 1) =~= want.take(k as int).push(want[k as int]));
        }
        k = k + 1;
    }
    assert(want.take(want.len() as int) =~= want);
    let mut m = lit("ambiguous: ");
    push_all(&mut m, decimal_text(cs.len() as u64).as_slice());
    push_all(&mut m, lit(" top-level calls in ").as_slice());
    push_all(&mut m, file);
    push_all(&mut m, lit(" carry name=\"").as_slice());
    push_all(&mut m, local);
    push_all(&mut m, lit("\" (lines ").as_slice());
    push_all(&mut m, join_exec(&lines).as_slice());
    push_all(&mut m, lit(")").as_slice());
    InstanceEdit::refused(m)
}

fn file_of(files: &Vec<(Vec<u8>, FileIndex)>, f: &[u8]) -> (r: Option<usize>)
    ensures
        r matches Some(k) ==> file_from(files@, f@, 0) == Some(k as int) && k < files@.len(),
        r is None ==> file_from(files@, f@, 0) is None,
{
    let mut k: usize = 0;
    while k < files.len()
        invariant
            k <= files@.len(),
            file_from(files@, f@, 0) == file_from(files@, f@, k as int),
        decreases files.len() - k,
    {
        if bytes_eq(files[k].0.as_slice(), f) {
            return Some(k);
        }
        k = k + 1;
    }
    None
}

fn parent_split_exec(path: &[u8]) -> (r: Option<(Vec<u8>, Vec<u8>)>)
    ensures
        r matches Some((p, l)) ==> parent_split(path@) == Some((p@, l@)),
        r is None ==> parent_split(path@) is None,
{
    let n: usize = path.len();
    proof {
        crate::bytes::lemma_rfind_byte(path@, 46u8);
    }
    match crate::bytes::rfind_byte(path, 46u8) {
        Some(i) => {
            assert(i < n);
            Some((slice_copy(path, 0, i), slice_copy(path, i + 1, n)))
        },
        None => None,
    }
}

fn base_entry_exec(sch: &SchematicDoc, files: &Vec<(Vec<u8>, FileIndex)>, inst: &InstanceDoc) -> (r:
    Option<InstanceEdit>)
    ensures
        r matches Some(e) ==> base_entry(*sch, files@, *inst) == Some(e.view()),
        r is None ==> base_entry(*sch, files@, *inst) is None,
{
    if !(inst.kind == InstanceKind::Module || inst.kind == InstanceKind::Component) {
        return None;
    }
    let (parent, local) = match parent_split_exec(inst.path.as_slice()) {
        Some(x) => x,
        None => return None,
    };
    let src: Option<Vec<u8>> = match sch.instance(parent.as_slice()) {
        Some(p) => match &sch.instances[p].source_file {
            Some(f) => Some(copy(f)),
            None => None,
        },
        None => None,
    };
    let no_source = lit("the enclosing module has no resolvable source file");
    match src {
        None => Some(InstanceEdit::refused(no_source)),
        Some(f) => if !crate::names::is_authored(f.as_slice()) {
            let mut m = lit("instantiated inside library source (");
            push_all(&mut m, f.as_slice());
            push_all(
                &mut m,
                lit(") — structured edits land on the nearest authored ancestor").as_slice(),
            );
            Some(InstanceEdit::refused(m))
        } else {
            match file_of(files, f.as_slice()) {
                Some(k) => Some(call_entry_exec(&files[k].1, f.as_slice(), local.as_slice())),
                None => Some(InstanceEdit::refused(no_source)),
            }
        },
    }
}

fn editable_entry_exec(es: &Vec<(Vec<u8>, InstanceEdit)>, p: &[u8]) -> (r: bool)
    ensures
        r == editable_entry(instance_entries_view(es@), p@),
{
    let ghost ev = instance_entries_view(es@);
    let mut i: usize = 0;
    while i < es.len()
        invariant
            i <= es@.len(),
            ev == instance_entries_view(es@),
            entry_from(ev, p@, 0) == entry_from(ev, p@, i as int),
        decreases es.len() - i,
    {
        if bytes_eq(es[i].0.as_slice(), p) {
            return es[i].1.editable;
        }
        i = i + 1;
    }
    false
}

fn anchor_exec(es: &Vec<(Vec<u8>, InstanceEdit)>, path: &[u8]) -> (r: Option<Vec<u8>>)
    ensures
        r matches Some(a) ==> anchor_of(instance_entries_view(es@), path@) == Some(a@),
        r is None ==> anchor_of(instance_entries_view(es@), path@) is None,
{
    let ghost ev = instance_entries_view(es@);
    let mut cursor = crate::bytes::owned(path);
    loop
        invariant
            ev == instance_entries_view(es@),
            anchor_of(ev, path@) == anchor_of(ev, cursor@),
        decreases cursor@.len(),
    {
        proof {
            crate::bytes::lemma_rfind_byte(cursor@, 46u8);
        }
        match parent_split_exec(cursor.as_slice()) {
            None => return None,
            Some((parent, _)) => {
                if editable_entry_exec(es, parent.as_slice()) {
                    return Some(parent);
                }
                cursor = parent;
            },
        }
    }
}

fn defs_of_exec(defs: &Vec<NetDef>, name: &[u8], kind: &[u8]) -> (r: Vec<usize>)
    ensures
        r@.map_values(|d: usize| d as int) == defs_of(defs@, name@, kind@),
        forall|k: int| 0 <= k < r@.len() ==> (#[trigger] r@[k]) < defs@.len(),
{
    let mut out: Vec<usize> = Vec::new();
    let mut i: usize = 0;
    assert(out@.map_values(|d: usize| d as int) =~= defs_of(defs@.take(0), name@, kind@));
    while i < defs.len()
        invariant
            i <= defs@.len(),
            out@.map_values(|d: usize| d as int) == defs_of(defs@.take(i as int), name@, kind@),
            forall|k: int| 0 <= k < out@.len() ==> (#[trigger] out@[k]) < i,
        decreases defs.len() - i,
    {
        proof {
            assert(defs@.take(i + 1).drop_last() =~= defs@.take(i as int));
            assert(defs@.take(i + 1).last() == defs@[i as int]);
        }
        if bytes_eq(defs[i].name.as_slice(), name) && bytes_eq(defs[i].callee.as_slice(), kind) {
            let ghost old = out@;
            out.push(i);
            proof {
                crate::text::lemma_map_push(old, i, |d: usize| d as int);
            }
        }
        i = i + 1;
    }
    assert(defs@.take(defs@.len() as int) =~= defs@);
    out
}

pub open spec fn pairs_int(v: Seq<(usize, usize)>) -> Seq<(int, int)> {
    v.map_values(|p: (usize, usize)| (p.0 as int, p.1 as int))
}

fn net_matches_exec(files: &Vec<(Vec<u8>, FileIndex)>, name: &[u8], kind: &[u8]) -> (r: Vec<(usize, usize)>)
    ensures
        pairs_int(r@) == net_matches(files@, name@, kind@),
        forall|k: int|
            0 <= k < r@.len() ==> (#[trigger] r@[k]).0 < files@.len() && r@[k].1 < files@[r@[k].0 as int].1.net_defs@.len(),
{
    let mut out: Vec<(usize, usize)> = Vec::new();
    let mut f: usize = 0;
    assert(pairs_int(out@) =~= net_matches(files@.take(0), name@, kind@));
    while f < files.len()
        invariant
            f <= files@.len(),
            pairs_int(out@) == net_matches(files@.take(f as int), name@, kind@),
            forall|k: int|
                0 <= k < out@.len() ==> (#[trigger] out@[k]).0 < f && out@[k].1
                    < files@[out@[k].0 as int].1.net_defs@.len(),
        decreases files.len() - f,
    {
        proof {
            assert(files@.take(f + 1).drop_last() =~= files@.take(f as int));
            assert(files@.take(f + 1).last() == files@[f as int]);
        }
        let ds = defs_of_exec(&files[f].1.net_defs, name, kind);
        let ghost base = pairs_int(out@);
        let ghost dsv = ds@.map_values(|d: usize| d as int);
        let mut k: usize = 0;
        assert(base + dsv.take(0).map_values(|d: int| (f as int, d)) =~= base);
        while k < ds.len()
            invariant
                k <= ds@.len(),
                f < files@.len(),
                dsv == ds@.map_values(|d: usize| d as int),
                forall|j: int| 0 <= j < ds@.len() ==> (#[trigger] ds@[j]) < files@[f as int].1.net_defs@.len(),
                pairs_int(out@) == base + dsv.take(k as int).map_values(|d: int| (f as int, d)),
                forall|j: int|
                    0 <= j < out@.len() ==> (#[trigger] out@[j]).0 <= f && out@[j].1
                        < files@[out@[j].0 as int].1.net_defs@.len(),
            decreases ds.len() - k,
        {
            let ghost old = out@;
            let e = (f, ds[k]);
            out.push(e);
            proof {
                crate::text::lemma_map_push(old, e, |p: (usize, usize)| (p.0 as int, p.1 as int));
                assert(dsv.take(k + 1) =~= dsv.take(k as int).push(dsv[k as int]));
                crate::text::lemma_map_push(dsv.take(k as int), dsv[k as int], |d: int| (f as int, d));
                crate::text::lemma_append_push(
                    base,
                    dsv.take(k as int).map_values(|d: int| (f as int, d)),
                    (f as int, dsv[k as int]),
                );
            }
            k = k + 1;
        }
        proof {
            assert(dsv.take(dsv.len() as int) =~= dsv);
            assert(files@.take(f + 1).len() - 1 == f);
        }
        f = f + 1;
    }
    assert(files@.take(files@.len() as int) =~= files@);
    out
}

fn net_entry_exec(files: &Vec<(Vec<u8>, FileIndex)>, name: &[u8], kind: &[u8]) -> (r: NetEdit)
    ensures
        r.view() == net_entry(files@, name@, kind@),
{
    let ms = net_matches_exec(files, name, kind);
    if ms.len() == 1 {
        let (fi, di) = ms[0];
        let d = &files[fi].1.net_defs[di];
        return NetEdit {
            editable: true,
            file: Some(copy(&files[fi].0)),
            line: Some(d.line),
            variable: Some(copy(&d.variable)),
            reason: None,
        };
    }
    if ms.len() == 0 {
        let mut m = lit("no top-level `VAR = ");
        push_all(&mut m, kind);
        push_all(&mut m, lit("(\"").as_slice());
        push_all(&mut m, name);
        push_all(
            &mut m,
            lit(
                "\")` assignment in authored source — the net may be generated or scoped through io(); edit the source or ask the agent",
            ).as_slice(),
        );
        return NetEdit { editable: false, file: None, line: None, variable: None, reason: Some(m) };
    }
    let ghost msv = pairs_int(ms@);
    let ghost want = msv.map_values(
        |m: (int, int)| files@[m.0].0@ + ":".spec_bytes() + decimal(def_at(files@, m).line as nat),
    );
    let mut locs: Vec<Vec<u8>> = Vec::new();
    let mut k: usize = 0;
    assert(crate::writers::views(locs@) =~= want.take(0));
    while k < ms.len()
        invariant
            k <= ms@.len(),
            msv == pairs_int(ms@),
            want == msv.map_values(
                |m: (int, int)|
                    files@[m.0].0@ + ":".spec_bytes() + decimal(def_at(files@, m).line as nat),
            ),
            forall|j: int|
                0 <= j < ms@.len() ==> (#[trigger] ms@[j]).0 < files@.len() && ms@[j].1
                    < files@[ms@[j].0 as int].1.net_defs@.len(),
            crate::writers::views(locs@) == want.take(k as int),
        decreases ms.len() - k,
    {
        let (fi, di) = ms[k];
        let mut t = copy(&files[fi].0);
        push_all(&mut t, lit(":").as_slice());
        push_all(&mut t, decimal_text(files[fi].1.net_defs[di].line as u64).as_slice());
        let ghost old = locs@;
        locs.push(t);
        proof {
            crate::text::lemma_map_push(old, t, |x: Vec<u8>| x@);
            assert(want.take(k + 1) =~= want.take(k as int).push(want[k as int]));
        }
        k = k + 1;
    }
    assert(want.take(want.len() as int) =~= want);
    let mut m = lit("ambiguous: ");
    push_all(&mut m, decimal_text(ms.len() as u64).as_slice());
    push_all(&mut m, lit(" assignments define ").as_slice());
    push_all(&mut m, kind);
    push_all(&mut m, lit("(\"").as_slice());
    push_all(&mut m, name);
    push_all(&mut m, lit("\") (").as_slice());
    push_all(&mut m, join_exec(&locs).as_slice());
    push_all(&mut m, lit(")").as_slice());
    NetEdit { editable: false, file: None, line: None, variable: None, reason: Some(m) }
}

/// The classification of a whole schematic, `files` holding the index of
/// each authored source file (see [`scan_files`]).
pub open spec fn spec_editability(sch: SchematicDoc, files: Seq<(Vec<u8>, FileIndex)>) -> (
    Seq<(Seq<u8>, InstanceEditView)>,
    Seq<(Seq<u8>, NetEditView)>,
) {
    (
        anchored(base_entries(sch, files, sch.instances@)),
        sch.nets@.map_values(
            |n: crate::model::NetDoc| (n.name@, net_entry(files, n.name@, n.kind@)),
        ),
    )
}

/// Build the editability map for a schematic. Purely static and total:
/// anything unclassifiable is refused with a reason.
pub fn analyze_editability(sch: &SchematicDoc, files: &Vec<(Vec<u8>, FileIndex)>) -> (r: EditabilityDoc)
    ensures
        instance_entries_view(r.instances@) == spec_editability(*sch, files@).0,
        net_entries_view(r.nets@) == spec_editability(*sch, files@).1,
{
    let mut es: Vec<(Vec<u8>, InstanceEdit)> = Vec::new();
    let mut i: usize = 0;
    assert(instance_entries_view(es@) =~= base_entries(*sch, files@, sch.instances@.take(0)));
    while i < sch.instances.len()
        invariant
            i <= sch.instances@.len(),
            instance_entries_view(es@) == base_entries(*sch, files@, sch.instances@.take(i as int)),
        decreases sch.instances.len() - i,
    {
        proof {
            assert(sch.instances@.take(i + 1).drop_last() =~= sch.instances@.take(i as int));
            assert(sch.instances@.take(i + 1).last() == sch.instances@[i as int]);
        }
        match base_entry_exec(sch, files, &sch.instances[i]) {
            Some(e) => {
                let ghost old = es@;
                let entry = (copy(&sch.instances[i].path), e);
                es.push(entry);
                proof {
                    crate::text::lemma_map_push(
                        old,
                        entry,
                        |e: (Vec<u8>, InstanceEdit)| (e.0@, e.1.view()),
                    );
                }
            },
            None => {},
        }
        i = i + 1;
    }
    assert(sch.instances@.take(sch.instances@.len() as int) =~= sch.instances@);
    let ghost ev = instance_entries_view(es@);
    // Anchor pass: the nearest editable ancestor of everything refused.
    let mut anchors: Vec<Option<Vec<u8>>> = Vec::new();
    let mut k: usize = 0;
    while k < es.len()
        invariant
            k <= es@.len(),
            ev == instance_entries_view(es@),
            anchors@.len() == k,
            forall|j: int|
                0 <= j < k ==> ov(#[trigger] anchors@[j]) == (if ev[j].1.editable {
                    ev[j].1.anchor
                } else {
                    anchor_of(ev, ev[j].0)
                }),
        decreases es.len() - k,
    {
        let a = if es[k].1.editable {
            match &es[k].1.anchor {
                Some(x) => Some(copy(x)),
                None => None,
            }
        } else {
            anchor_exec(&es, es[k].0.as_slice())
        };
        anchors.push(a);
        k = k + 1;
    }
    let mut instances: Vec<(Vec<u8>, InstanceEdit)> = Vec::new();
    let mut j: usize = 0;
    let ghost want = anchored(ev);
    assert(instance_entries_view(instances@) =~= want.take(0));
    while j < es.len()
        invariant
            j <= es@.len(),
            ev == instance_entries_view(es@),
            anchors@.len() == es@.len(),
            want == anchored(ev),
            forall|t: int|
                0 <= t < es@.len() ==> ov(#[trigger] anchors@[t]) == (if ev[t].1.editable {
                    ev[t].1.anchor
                } else {
                    anchor_of(ev, ev[t].0)
                }),
            instance_entries_view(instances@) == want.take(j as int),
        decreases es.len() - j,
    {
        let src = &es[j].1;
        let anchor = match &anchors[j] {
            Some(x) => Some(copy(x)),
            None => None,
        };
        let e = InstanceEdit {
            editable: src.editable,
            file: match &src.file {
                Some(x) => Some(copy(x)),
                None => None,
            },
            line: src.line,
            reason: match &src.reason {
                Some(x) => Some(copy(x)),
                None => None,
            },
            anchor,
        };
        let entry = (copy(&es[j].0), e);
        let ghost old = instances@;
        instances.push(entry);
        proof {
            crate::text::lemma_map_push(old, entry, |e: (Vec<u8>, InstanceEdit)| (e.0@, e.1.view()));
            assert(want.take(j + 1) =~= want.take(j as int).push(want[j as int]));
            assert(ev[j as int] == (es@[j as int].0@, es@[j as int].1.view()));
        }
        j = j + 1;
    }
    assert(want.take(want.len() as int) =~= want);
    let mut nets: Vec<(Vec<u8>, NetEdit)> = Vec::new();
    let mut n: usize = 0;
    let ghost wn = spec_editability(*sch, files@).1;
    assert(net_entries_view(nets@) =~= wn.take(0));
    while n < sch.nets.len()
        invariant
            n <= sch.nets@.len(),
            wn == spec_editability(*sch, files@).1,
            net_entries_view(nets@) == wn.take(n as int),
        decreases sch.nets.len() - n,
    {
        let net = &sch.nets[n];
        let entry = (copy(&net.name), net_entry_exec(files, net.name.as_slice(), net.kind.as_slice()));
        let ghost old = nets@;
        nets.push(entry);
        proof {
            crate::text::lemma_map_push(old, entry, |e: (Vec<u8>, NetEdit)| (e.0@, e.1.view()));
            assert(wn.take(n + 1) =~= wn.take(n as int).push(wn[n as int]));
        }
        n = n + 1;
    }
    assert(wn.take(wn.len() as int) =~= wn);
    EditabilityDoc { instances, nets }
}

/// The authored files whose index the classification reads: the source
/// files of the schematic's instances that the canvas may write, as the
/// keys of a path-ordered map.
pub open spec fn scan_map(insts: Seq<InstanceDoc>) -> crate::probe::Assoc
    decreases insts.len(),
{
    if insts.len() == 0 {
        Seq::empty()
    } else {
        let r = scan_map(insts.drop_last());
        match insts.last().source_file {
            Some(f) => if spec_is_authored(f@) {
                crate::probe::assoc_insert(r, f@, Seq::empty())
            } else {
                r
            },
            None => r,
        }
    }
}

pub fn scan_files(sch: &SchematicDoc) -> (r: Vec<Vec<u8>>)
    ensures
        crate::writers::views(r@) == scan_map(sch.instances@).map_values(
            |e: (Seq<u8>, Seq<u8>)| e.0,
        ),
{
    let mut m: Vec<(Vec<u8>, Vec<u8>)> = Vec::new();
    let mut i: usize = 0;
    assert(crate::placement::plan_view(m@) =~= scan_map(sch.instances@.take(0)));
    while i < sch.instances.len()
        invariant
            i <= sch.instances@.len(),
            crate::placement::plan_view(m@) == scan_map(sch.instances@.take(i as int)),
        decreases sch.instances.len() - i,
    {
        proof {
            assert(sch.instances@.take(i + 1).drop_last() =~= sch.instances@.take(i as int));
            assert(sch.instances@.take(i + 1).last() == sch.instances@[i as int]);
        }
        match &sch.instances[i].source_file {
            Some(f) => {
                if crate::names::is_authored(f.as_slice()) {
                    let empty: Vec<u8> = Vec::new();
                    assert(empty@ =~= Seq::<u8>::empty());
                    m = crate::probe::map_insert(&m, f.as_slice(), empty.as_slice());
                }
            },
            None => {},
        }
        i = i + 1;
    }
    assert(sch.instances@.take(sch.instances@.len() as int) =~= sch.instances@);
    let ghost mv = crate::placement::plan_view(m@);
    let mut out: Vec<Vec<u8>> = Vec::new();
    let mut k: usize = 0;
    assert(crate::writers::views(out@) =~= mv.take(0).map_values(|e: (Seq<u8>, Seq<u8>)| e.0));
    while k < m.len()
        invariant
            k <= m@.len(),
            mv == crate::placement::plan_view(m@),
            crate::writers::views(out@) == mv.take(k as int).map_values(
                |e: (Seq<u8>, Seq<u8>)| e.0,
            ),
        decreases m.len() - k,
    {
        let ghost old = out@;
        let c = copy(&m[k].0);
        out.push(c);
        proof {
            crate::text::lemma_map_push(old, c, |x: Vec<u8>| x@);
            assert(mv.take(k + 1) =~= mv.take(k as int).push(mv[k as int]));
            crate::text::lemma_map_push(mv.take(k as int), mv[k as int], |e: (Seq<u8>, Seq<u8>)| e.0);
        }
        k = k + 1;
    }
    assert(mv.take(mv.len() as int) =~= mv);
    out
}


/// An entry is editable exactly when it says where (file and line) and
/// gives no reason.
pub open spec fn inst_consistent(v: InstanceEditView) -> bool {
    v.editable == (v.file is Some && v.line is Some && v.reason is None)
}

pub open spec fn net_consistent(v: NetEditView) -> bool {
    v.editable == (v.file is Some && v.line is Some && v.reason is None)
}

/// `path` is a module or component of the schematic below the root.
pub open spec fn edit_target(insts: Seq<InstanceDoc>, path: Seq<u8>) -> bool {
    exists|j: int|
        0 <= j < insts.len() && (#[trigger] insts[j]).path@ == path && (insts[j].kind == InstanceKind::Module
            || insts[j].kind == InstanceKind::Component) && parent_split(path) is Some
}

proof fn lemma_call_entry(idx: FileIndex, file: Seq<u8>, local: Seq<u8>)
    ensures
        inst_consistent(call_entry(idx, file, local)),
        call_entry(idx, file, local).anchor is None,
{
}

proof fn lemma_base_entries(sch: SchematicDoc, files: Seq<(Vec<u8>, FileIndex)>, insts: Seq<InstanceDoc>)
    ensures
        forall|i: int|
            0 <= i < base_entries(sch, files, insts).len() ==> inst_consistent(
                (#[trigger] base_entries(sch, files, insts)[i]).1,
            ) && edit_target(insts, base_entries(sch, files, insts)[i].0)
                && base_entries(sch, files, insts)[i].1.anchor is None,
    decreases insts.len(),
{
    if insts.len() > 0 {
        let d = insts.drop_last();
        lemma_base_entries(sch, files, d);
        let r = base_entries(sch, files, d);
        let last = insts.last();
        match base_entry(sch, files, last) {
            Some(e) => {
                match parent_split(last.path@) {
                    Some((parent, local)) => {
                        let src = match instance_index(sch.instances@, parent) {
                            Some(p) => ov(sch.instances@[p].source_file),
                            None => None,
                        };
                        match src {
                            Some(f) => match file_from(files, f, 0) {
                                Some(k) => lemma_call_entry(files[k].1, f, local),
                                None => {},
                            },
                            None => {},
                        }
                    },
                    None => {},
                }
                assert(base_entries(sch, files, insts) == r.push((last.path@, e)));
                assert(insts[insts.len() - 1] == last);
            },
            None => {
                assert(base_entries(sch, files, insts) == r);
            },
        }
        assert forall|i: int| 0 <= i < base_entries(sch, files, insts).len() implies inst_consistent(
            (#[trigger] base_entries(sch, files, insts)[i]).1,
        ) && edit_target(insts, base_entries(sch, files, insts)[i].0)
            && base_entries(sch, files, insts)[i].1.anchor is None by {
            if i < r.len() {
                assert(base_entries(sch, files, insts)[i] == r[i]);
                let j = choose|j: int|
                    0 <= j < d.len() && (#[trigger] d[j]).path@ == r[i].0 && (d[j].kind == InstanceKind::Module
                        || d[j].kind == InstanceKind::Component) && parent_split(r[i].0) is Some;
                assert(insts[j] == d[j]);
            } else {
                assert(insts[insts.len() - 1] == last);
            }
        }
    }
}

/// The shape of the editability map. Every instance entry names a module
/// or component of the schematic below the root; an entry is editable
/// exactly when it carries a file and a line and no reason; an anchor is
/// given only to a non-editable entry and names an editable one. Every net
/// of the schematic has its entry, in the schematic's order, editable
/// exactly when a file and a line are known and no reason is given.
pub proof fn law_editability_shape(sch: SchematicDoc, files: Seq<(Vec<u8>, FileIndex)>)
    ensures
        forall|i: int|
            0 <= i < spec_editability(sch, files).0.len() ==> inst_consistent(
                (#[trigger] spec_editability(sch, files).0[i]).1,
            ) && edit_target(sch.instances@, spec_editability(sch, files).0[i].0) && (spec_editability(
                sch,
                files,
            ).0[i].1.anchor matches Some(a) ==> !spec_editability(sch, files).0[i].1.editable
                && editable_entry(base_entries(sch, files, sch.instances@), a)),
        spec_editability(sch, files).1.len() == sch.nets@.len(),
        forall|i: int|
            0 <= i < sch.nets@.len() ==> (#[trigger] spec_editability(sch, files).1[i]).0 == sch.nets@[i].name@
                && net_consistent(spec_editability(sch, files).1[i].1),
{
    let base = base_entries(sch, files, sch.instances@);
    lemma_base_entries(sch, files, sch.instances@);
    assert forall|i: int| 0 <= i < spec_editability(sch, files).0.len() implies inst_consistent(
        (#[trigger] spec_editability(sch, files).0[i]).1,
    ) && edit_target(sch.instances@, spec_editability(sch, files).0[i].0) && (spec_editability(
        sch,
        files,
    ).0[i].1.anchor matches Some(a) ==> !spec_editability(sch, files).0[i].1.editable
        && editable_entry(base, a)) by {
        assert(spec_editability(sch, files).0 == anchored(base));
        let e = base[i];
        if !e.1.editable {
            lemma_anchor_editable(base, e.0);
        }
    }
    assert forall|i: int| 0 <= i < sch.nets@.len() implies (#[trigger] spec_editability(sch, files).1[i]).0
        == sch.nets@[i].name@ && net_consistent(spec_editability(sch, files).1[i].1) by {
    }
}

proof fn lemma_anchor_editable(es: Seq<(Seq<u8>, InstanceEditView)>, path: Seq<u8>)
    ensures
        anchor_of(es, path) matches Some(a) ==> editable_entry(es, a),
    decreases path.len(),
{
    match parent_split(path) {
        None => {},
        Some((parent, _)) => if !editable_entry(es, parent) && parent.len() < path.len() {
            lemma_anchor_editable(es, parent);
        },
    }
}


proof fn lemma_targets_have_entries(sch: SchematicDoc, files: Seq<(Vec<u8>, FileIndex)>, insts: Seq<InstanceDoc>)
    ensures
        forall|j: int|
            0 <= j < insts.len() && ((#[trigger] insts[j]).kind == InstanceKind::Module || insts[j].kind
                == InstanceKind::Component) && parent_split(insts[j].path@) is Some ==> exists|i: int|
                0 <= i < base_entries(sch, files, insts).len() && (#[trigger] base_entries(sch, files, insts)[i]).0
                    == insts[j].path@,
    decreases insts.len(),
{
    if insts.len() > 0 {
        let d = insts.drop_last();
        lemma_targets_have_entries(sch, files, d);
        let r = base_entries(sch, files, d);
        let full = base_entries(sch, files, insts);
        assert forall|j: int|
            0 <= j < insts.len() && ((#[trigger] insts[j]).kind == InstanceKind::Module || insts[j].kind
                == InstanceKind::Component) && parent_split(insts[j].path@) is Some implies exists|i: int|
            0 <= i < full.len() && (#[trigger] full[i]).0 == insts[j].path@ by {
            if j < d.len() {
                assert(d[j] == insts[j]);
                let i = choose|i: int| 0 <= i < r.len() && (#[trigger] r[i]).0 == d[j].path@;
                match base_entry(sch, files, insts.last()) {
                    Some(e) => {
                        assert(full == r.push((insts.last().path@, e)));
                        assert(full[i] == r[i]);
                    },
                    None => {
                        assert(full == r);
                    },
                }
            } else {
                let e = base_entry(sch, files, insts.last());
                assert(e is Some);
                assert(full == r.push((insts.last().path@, e->0)));
                assert(full[r.len() as int].0 == insts[j].path@);
            }
        }
    }
}

/// Every module or component of the schematic below the root has an
/// instance entry in the editability map.
pub proof fn law_editability_covers_targets(sch: SchematicDoc, files: Seq<(Vec<u8>, FileIndex)>)
    ensures
        forall|j: int|
            0 <= j < sch.instances@.len() && ((#[trigger] sch.instances@[j]).kind == InstanceKind::Module
                || sch.instances@[j].kind == InstanceKind::Component) && parent_split(sch.instances@[j].path@)
                is Some ==> exists|i: int|
                0 <= i < spec_editability(sch, files).0.len() && (#[trigger] spec_editability(sch, files).0[i]).0
                    == sch.instances@[j].path@,
{
    lemma_targets_have_entries(sch, files, sch.instances@);
    let base = base_entries(sch, files, sch.instances@);
    assert forall|j: int|
        0 <= j < sch.instances@.len() && ((#[trigger] sch.instances@[j]).kind == InstanceKind::Module
            || sch.instances@[j].kind == InstanceKind::Component) && parent_split(sch.instances@[j].path@)
            is Some implies exists|i: int|
        0 <= i < spec_editability(sch, files).0.len() && (#[trigger] spec_editability(sch, files).0[i]).0
            == sch.instances@[j].path@ by {
        let i = choose|i: int| 0 <= i < base.len() && (#[trigger] base[i]).0 == sch.instances@[j].path@;
        assert(spec_editability(sch, files).0[i].0 == base[i].0);
    }
}


proof fn lemma_base_entry_origin(sch: SchematicDoc, files: Seq<(Vec<u8>, FileIndex)>, insts: Seq<InstanceDoc>)
    ensures
        forall|i: int|
            0 <= i < base_entries(sch, files, insts).len() ==> exists|j: int|
                0 <= j < insts.len() && (#[trigger] insts[j]).path@ == (#[trigger] base_entries(
                    sch,
                    files,
                    insts,
                )[i]).0 && base_entry(sch, files, insts[j]) == Some(base_entries(sch, files, insts)[i].1),
    decreases insts.len(),
{
    if insts.len() > 0 {
        let d = insts.drop_last();
        lemma_base_entry_origin(sch, files, d);
        let r = base_entries(sch, files, d);
        let full = base_entries(sch, files, insts);
        assert forall|i: int| 0 <= i < full.len() implies exists|j: int|
            0 <= j < insts.len() && (#[trigger] insts[j]).path@ == (#[trigger] full[i]).0 && base_entry(
                sch,
                files,
                insts[j],
            ) == Some(full[i].1) by {
            if i < r.len() {
                match base_entry(sch, files, insts.last()) {
                    Some(e) => assert(full[i] == r[i]),
                    None => assert(full == r),
                }
                let j = choose|j: int|
                    0 <= j < d.len() && (#[trigger] d[j]).path@ == (#[trigger] r[i]).0 && base_entry(
                        sch,
                        files,
                        d[j],
                    ) == Some(r[i].1);
                assert(insts[j] == d[j]);
            } else {
                let e = base_entry(sch, files, insts.last());
                assert(e is Some);
                assert(full == r.push((insts.last().path@, e->0)));
                assert(insts[insts.len() - 1] == insts.last());
                assert(full[i] == (insts.last().path@, e->0));
            }
        }
    }
}

/// The parent instance of `path` (the path up to its last dot) has the
/// authored source file `f`, whose index holds no error and exactly one
/// top-level call with `path`'s last segment as literal name, at line `l`.
pub open spec fn parent_call_at(
    sch: SchematicDoc,
    files: Seq<(Vec<u8>, FileIndex)>,
    path: Seq<u8>,
    f: Seq<u8>,
    l: u32,
) -> bool {
    match parent_split(path) {
        None => false,
        Some((parent, local)) => match instance_index(sch.instances@, parent) {
            None => false,
            Some(q) => ov(sch.instances@[q].source_file) == Some(f) && spec_is_authored(f) && match file_from(
                files,
                f,
                0,
            ) {
                None => false,
                Some(k) => {
                    let cs = calls_named(files[k].1.calls@, local);
                    files[k].1.error is None && cs.len() == 1 && files[k].1.calls@[cs[0] as int].line == l
                },
            },
        },
    }
}

/// An instance entry is editable, with file `f` and line `l`, exactly when
/// the file read is its parent's: the parent instance (the path up to the
/// last dot) has an authored source file `f`, the index of `f` holds no
/// error and exactly one top-level call whose literal name is the entry's
/// last path segment, and that call stands at line `l`. The instance's own
/// source file plays no part.
pub proof fn law_editable_reads_parent_file(
    sch: SchematicDoc,
    files: Seq<(Vec<u8>, FileIndex)>,
    i: int,
    f: Seq<u8>,
    l: u32,
)
    requires
        0 <= i < spec_editability(sch, files).0.len(),
    ensures
        ({
            let e = spec_editability(sch, files).0[i];
            (e.1.editable && e.1.file == Some(f) && e.1.line == Some(l)) <==> parent_call_at(sch, files, e.0, f, l)
        }),
{
    let base = base_entries(sch, files, sch.instances@);
    lemma_base_entry_origin(sch, files, sch.instances@);
    assert(spec_editability(sch, files).0 == anchored(base));
    let e = spec_editability(sch, files).0[i];
    assert(e.0 == base[i].0 && e.1.editable == base[i].1.editable && e.1.file == base[i].1.file
        && e.1.line == base[i].1.line);
    let j = choose|j: int|
        0 <= j < sch.instances@.len() && (#[trigger] sch.instances@[j]).path@ == (#[trigger] base[i]).0
            && base_entry(sch, files, sch.instances@[j]) == Some(base[i].1);
    let inst = sch.instances@[j];
    assert(inst.path@ == e.0);
}

/// The source file of the parent instance of `path`, if both are known.
pub open spec fn parent_source(sch: SchematicDoc, path: Seq<u8>) -> Option<Seq<u8>> {
    match parent_split(path) {
        None => None,
        Some((parent, _)) => match instance_index(sch.instances@, parent) {
            None => None,
            Some(q) => ov(sch.instances@[q].source_file),
        },
    }
}

/// Why an instance entry is refused before its file is even read, judged
/// by the parent's source file, never the instance's own: with no known
/// parent source the entry is refused as having none; with a parent source
/// `f` outside the authored files (library source) it is refused naming `f`.
pub proof fn law_refusal_by_parent_source(sch: SchematicDoc, files: Seq<(Vec<u8>, FileIndex)>, i: int)
    requires
        0 <= i < spec_editability(sch, files).0.len(),
    ensures
        ({
            let e = spec_editability(sch, files).0[i];
            &&& parent_source(sch, e.0) is None ==> !e.1.editable && e.1.reason == Some(msg_no_source())
            &&& forall|f: Seq<u8>|
                parent_source(sch, e.0) == Some(f) && !spec_is_authored(f) ==> !e.1.editable
                    && e.1.reason == Some(#[trigger] msg_library(f))
        }),
{
    let base = base_entries(sch, files, sch.instances@);
    lemma_base_entry_origin(sch, files, sch.instances@);
    assert(spec_editability(sch, files).0 == anchored(base));
    let e = spec_editability(sch, files).0[i];
    assert(e.0 == base[i].0 && e.1.editable == base[i].1.editable && e.1.reason == base[i].1.reason);
    let j = choose|j: int|
        0 <= j < sch.instances@.len() && (#[trigger] sch.instances@[j]).path@ == (#[trigger] base[i]).0
            && base_entry(sch, files, sch.instances@[j]) == Some(base[i].1);
    let inst = sch.instances@[j];
    assert(inst.path@ == e.0);
}

/// The anchor is the nearest editable ancestor: it is the parent when the
/// parent's entry is editable, and otherwise the parent's own anchor; and
/// the map gives every non-editable entry exactly that anchor.
pub proof fn law_anchor_is_nearest(sch: SchematicDoc, files: Seq<(Vec<u8>, FileIndex)>, path: Seq<u8>)
    ensures
        ({
            let base = base_entries(sch, files, sch.instances@);
            match anchor_of(base, path) {
                Some(a) => editable_entry(base, a) && match parent_split(path) {
                    Some((parent, _)) => if editable_entry(base, parent) {
                        a == parent
                    } else {
                        anchor_of(base, parent) == Some(a)
                    },
                    None => false,
                },
                None => true,
            }
        }),
        forall|i: int|
            0 <= i < spec_editability(sch, files).0.len() && !(#[trigger] spec_editability(sch, files).0[i]).1.editable
                ==> spec_editability(sch, files).0[i].1.anchor == anchor_of(
                base_entries(sch, files, sch.instances@),
                spec_editability(sch, files).0[i].0,
            ),
{
    let base = base_entries(sch, files, sch.instances@);
    lemma_anchor_editable(base, path);
    lemma_base_entries(sch, files, sch.instances@);
    assert forall|i: int|
        0 <= i < spec_editability(sch, files).0.len() && !(#[trigger] spec_editability(sch, files).0[i]).1.editable
            implies spec_editability(sch, files).0[i].1.anchor == anchor_of(base, spec_editability(sch, files).0[i].0) by {
        assert(spec_editability(sch, files).0 == anchored(base));
    }
}

} // verus!
