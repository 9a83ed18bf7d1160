//! The build output as plain data: instances addressed by dotted paths
//! rooted at `root` (e.g. `root.power.ldo.C1`), nets keyed by name, and the
//! diagnostics of the last build. Maps are vectors of entries whose keys
//! are unique.
use vstd::prelude::*;
use crate::bytes::{bytes_eq, copy};

verus! {

#[derive(PartialEq, Eq, Structural, Debug, Clone, Copy)]
pub enum InstanceKind {
    Module,
    Component,
    Interface,
    Port,
    Pin,
}

pub struct PinDoc {
    pub name: Vec<u8>,
    /// Net name this pin is connected to; `None` = unconnected.
    pub net: Option<Vec<u8>>,
}

pub struct PortRef {
    /// Instance path of the owning component.
    pub component: Vec<u8>,
    /// Pin/port name on that component (e.g. `P1`, `NC.2`).
    pub pin: Vec<u8>,
}

pub struct NetDoc {
    pub name: Vec<u8>,
    /// Net type name (`Net`, `Power`, `Ground`, ...).
    pub kind: Vec<u8>,
    pub ports: Vec<PortRef>,
}

pub struct InstanceDoc {
    pub path: Vec<u8>,
    pub kind: InstanceKind,
    /// Module/type name this instance was created from (e.g. `Resistor`).
    pub type_label: Vec<u8>,
    /// Workspace-relative source file of the type definition, if resolvable.
    pub source_file: Option<Vec<u8>>,
    /// Reference designator for components (e.g. `R1`).
    pub refdes: Option<Vec<u8>>,
    /// The attributes whose value is a string, keyed by name.
    pub text_attributes: Vec<(Vec<u8>, Vec<u8>)>,
    /// child name -> child instance path.
    pub children: Vec<(Vec<u8>, Vec<u8>)>,
    /// For components: pins with their connected net (if any).
    pub pins: Vec<PinDoc>,
}

pub struct SchematicDoc {
    /// Name of the root module (the .zen file's module).
    pub root_module: Vec<u8>,
    /// Every instance, keyed by dotted path; the root is `root`.
    pub instances: Vec<InstanceDoc>,
    /// Nets keyed by their unique name.
    pub nets: Vec<NetDoc>,
    /// refdes (e.g. `R1`) -> instance path.
    pub by_refdes: Vec<(Vec<u8>, Vec<u8>)>,
}

#[derive(PartialEq, Eq, Structural, Debug, Clone, Copy)]
pub enum Severity {
    Error,
    Warning,
    Advice,
}

pub struct Diag {
    pub severity: Severity,
    pub message: Vec<u8>,
    /// Diagnostic kind/category when available.
    pub kind: Option<Vec<u8>>,
    /// Workspace-relative file path.
    pub file: Option<Vec<u8>>,
    /// 1-based line/column of the primary span.
    pub line: Option<u32>,
    pub col: Option<u32>,
    pub end_line: Option<u32>,
    pub end_col: Option<u32>,
    pub suppressed: bool,
    /// Outer-to-inner context chain (call sites) as readable frames.
    pub stack: Vec<Vec<u8>>,
}

pub struct BuildOutput {
    /// Workspace-relative path of the .zen file that was built.
    pub source: Vec<u8>,
    /// `None` when evaluation failed before producing a netlist.
    pub schematic: Option<SchematicDoc>,
    pub diagnostics: Vec<Diag>,
}

/// A compact per-build summary.
pub struct BuildSummary {
    pub source: Vec<u8>,
    pub ok: bool,
    pub components: usize,
    pub nets: usize,
    pub errors: usize,
    pub warnings: usize,
}

/// First instance at or after `from` with path `path`.
pub open spec fn instance_from(insts: Seq<InstanceDoc>, path: Seq<u8>, from: int) -> Option<int>
    decreases insts.len() - from,
{
    if from < 0 || from >= insts.len() {
        None
    } else if insts[from].path@ == path {
        Some(from)
    } else {
        instance_from(insts, path, from + 1)
    }
}

/// The instance with path `path`.
pub open spec fn instance_index(insts: Seq<InstanceDoc>, path: Seq<u8>) -> Option<int> {
    instance_from(insts, path, 0)
}

pub proof fn lemma_instance_from(insts: Seq<InstanceDoc>, path: Seq<u8>, from: int)
    requires
        from >= 0,
    ensures
        instance_from(insts, path, from) matches Some(i) ==> from <= i < insts.len()
            && insts[i].path@ == path,
        instance_from(insts, path, from) is None ==> forall|j: int|
            from <= j < insts.len() ==> insts[j].path@ != path,
    decreases insts.len() - from,
{
    if from < insts.len() && insts[from].path@ != path {
        lemma_instance_from(insts, path, from + 1);
    }
}

/// First net at or after `from` named `name`.
pub open spec fn net_from(nets: Seq<NetDoc>, name: Seq<u8>, from: int) -> Option<int>
    decreases nets.len() - from,
{
    if from < 0 || from >= nets.len() {
        None
    } else if nets[from].name@ == name {
        Some(from)
    } else {
        net_from(nets, name, from + 1)
    }
}

/// The net named `name`.
pub open spec fn net_index(nets: Seq<NetDoc>, name: Seq<u8>) -> Option<int> {
    net_from(nets, name, 0)
}

pub proof fn lemma_net_from(nets: Seq<NetDoc>, name: Seq<u8>, from: int)
    requires
        from >= 0,
    ensures
        net_from(nets, name, from) matches Some(i) ==> from <= i < nets.len() && nets[i].name@
            == name,
        net_from(nets, name, from) is None ==> forall|j: int|
            from <= j < nets.len() ==> nets[j].name@ != name,
    decreases nets.len() - from,
{
    if from < nets.len() && nets[from].name@ != name {
        lemma_net_from(nets, name, from + 1);
    }
}

/// Value of the first entry with key `k` in a list of byte-string pairs.
pub open spec fn pair_from(m: Seq<(Vec<u8>, Vec<u8>)>, k: Seq<u8>, from: int) -> Option<int>
    decreases m.len() - from,
{
    if from < 0 || from >= m.len() {
        None
    } else if m[from].0@ == k {
        Some(from)
    } else {
        pair_from(m, k, from + 1)
    }
}

pub proof fn lemma_pair_from(m: Seq<(Vec<u8>, Vec<u8>)>, k: Seq<u8>, from: int)
    requires
        from >= 0,
    ensures
        pair_from(m, k, from) matches Some(i) ==> from <= i < m.len() && m[i].0@ == k,
        pair_from(m, k, from) is None ==> forall|j: int| from <= j < m.len() ==> m[j].0@ != k,
    decreases m.len() - from,
{
    if from < m.len() && m[from].0@ != k {
        lemma_pair_from(m, k, from + 1);
    }
}

pub fn find_pair(m: &Vec<(Vec<u8>, Vec<u8>)>, k: &[u8]) -> (r: Option<usize>)
    ensures
        r matches Some(i) ==> pair_from(m@, k@, 0) == Some(i as int) && i < m@.len(),
        r is None ==> pair_from(m@, k@, 0) is None,
{
    proof {
        lemma_pair_from(m@, k@, 0);
    }
    let mut i: usize = 0;
    while i < m.len()
        invariant
            i <= m@.len(),
            pair_from(m@, k@, 0) == pair_from(m@, k@, i as int),
        decreases m.len() - i,
    {
        if bytes_eq(m[i].0.as_slice(), k) {
            return Some(i);
        }
        i = i + 1;
    }
    None
}

impl SchematicDoc {
    /// Keys are unique: instance paths, net names and refdes entries.
    pub open spec fn wf(&self) -> bool {
        &&& forall|i: int, j: int|
            0 <= i < j < self.instances@.len() ==> (#[trigger] self.instances@[i]).path@
                != (#[trigger] self.instances@[j]).path@
        &&& forall|i: int, j: int|
            0 <= i < j < self.nets@.len() ==> (#[trigger] self.nets@[i]).name@
                != (#[trigger] self.nets@[j]).name@
        &&& forall|i: int, j: int|
            0 <= i < j < self.by_refdes@.len() ==> (#[trigger] self.by_refdes@[i]).0@
                != (#[trigger] self.by_refdes@[j]).0@
    }

    /// Index of the instance at `path`.
    pub fn instance(&self, path: &[u8]) -> (r: Option<usize>)
        ensures
            r matches Some(i) ==> instance_index(self.instances@, path@) == Some(i as int) && i
                < self.instances@.len(),
            r is None ==> instance_index(self.instances@, path@) is None,
    {
        proof {
            lemma_instance_from(self.instances@, path@, 0);
        }
        let mut i: usize = 0;
        while i < self.instances.len()
            invariant
                i <= self.instances@.len(),
                instance_index(self.instances@, path@) == instance_from(
                    self.instances@,
                    path@,
                    i as int,
                ),
            decreases self.instances.len() - i,
        {
            if bytes_eq(self.instances[i].path.as_slice(), path) {
                return Some(i);
            }
            i = i + 1;
        }
        None
    }

    /// Index of the net named `name`.
    pub fn net(&self, name: &[u8]) -> (r: Option<usize>)
        ensures
            r matches Some(i) ==> net_index(self.nets@, name@) == Some(i as int) && i
                < self.nets@.len(),
            r is None ==> net_index(self.nets@, name@) is None,
    {
        proof {
            lemma_net_from(self.nets@, name@, 0);
        }
        let mut i: usize = 0;
        while i < self.nets.len()
            invariant
                i <= self.nets@.len(),
                net_index(self.nets@, name@) == net_from(self.nets@, name@, i as int),
            decreases self.nets.len() - i,
        {
            if bytes_eq(self.nets[i].name.as_slice(), name) {
                return Some(i);
            }
            i = i + 1;
        }
        None
    }

    /// What `resolve_path` answers: the argument itself when an instance
    /// has that path, else the path its refdes entry names.
    pub open spec fn spec_resolve_path(&self, p: Seq<u8>) -> Option<Seq<u8>> {
        if instance_index(self.instances@, p) is Some {
            Some(p)
        } else {
            match pair_from(self.by_refdes@, p, 0) {
                Some(i) => Some(self.by_refdes@[i].1@),
                None => None,
            }
        }
    }

    /// Resolve either an instance path or a refdes to an instance path.
    pub fn resolve_path(&self, path_or_refdes: &[u8]) -> (r: Option<Vec<u8>>)
        ensures
            r matches Some(v) ==> self.spec_resolve_path(path_or_refdes@) == Some(v@),
            r is None ==> self.spec_resolve_path(path_or_refdes@) is None,
    {
        if self.instance(path_or_refdes).is_some() {
            return Some(crate::bytes::slice_copy(path_or_refdes, 0, path_or_refdes.len()));
        }
        match find_pair(&self.by_refdes, path_or_refdes) {
            Some(i) => Some(copy(&self.by_refdes[i].1)),
            None => None,
        }
    }
}

/// An unsuppressed diagnostic of the given severity.
pub open spec fn counts(d: Diag, s: Severity) -> bool {
    !d.suppressed && d.severity == s
}

/// How many diagnostics count at severity `s`.
pub open spec fn count_severity(ds: Seq<Diag>, s: Severity) -> nat
    decreases ds.len(),
{
    if ds.len() == 0 {
        0
    } else {
        count_severity(ds.drop_last(), s) + if counts(ds.last(), s) {
            1nat
        } else {
            0nat
        }
    }
}

pub proof fn lemma_count_severity_bound(ds: Seq<Diag>, s: Severity)
    ensures
        count_severity(ds, s) <= ds.len(),
        count_severity(ds, s) == 0 <==> forall|i: int| 0 <= i < ds.len() ==> !counts(#[trigger] ds[i], s),
    decreases ds.len(),
{
    if ds.len() > 0 {
        lemma_count_severity_bound(ds.drop_last(), s);
        assert forall|i: int| 0 <= i < ds.len() - 1 implies ds.drop_last()[i] == ds[i] by {}
        if count_severity(ds, s) == 0 {
            assert forall|i: int| 0 <= i < ds.len() implies !counts(#[trigger] ds[i], s) by {
                if i < ds.len() - 1 {
                    assert(ds.drop_last()[i] == ds[i]);
                }
            }
        }
    }
}

fn count_diags(ds: &Vec<Diag>, s: Severity) -> (r: usize)
    ensures
        r == count_severity(ds@, s),
{
    let mut n: usize = 0;
    let mut i: usize = 0;
    while i < ds.len()
        invariant
            i <= ds@.len(),
            n == count_severity(ds@.take(i as int), s),
            n <= i,
        decreases ds.len() - i,
    {
        proof {
            assert(ds@.take(i + 1).drop_last() =~= ds@.take(i as int));
            assert(ds@.take(i + 1).last() == ds@[i as int]);
        }
        if !ds[i].suppressed && ds[i].severity == s {
            n = n + 1;
        }
        i = i + 1;
    }
    assert(ds@.take(ds@.len() as int) =~= ds@);
    n
}

impl BuildOutput {
    /// Some unsuppressed diagnostic is an error.
    pub fn has_errors(&self) -> (r: bool)
        ensures
            r == exists|i: int|
                0 <= i < self.diagnostics@.len() && counts(
                    #[trigger] self.diagnostics@[i],
                    Severity::Error,
                ),
    {
        let mut i: usize = 0;
        while i < self.diagnostics.len()
            invariant
                i <= self.diagnostics@.len(),
                forall|j: int|
                    0 <= j < i ==> !counts(#[trigger] self.diagnostics@[j], Severity::Error),
            decreases self.diagnostics.len() - i,
        {
            if !self.diagnostics[i].suppressed && self.diagnostics[i].severity == Severity::Error {
                assert(counts(self.diagnostics@[i as int], Severity::Error));
                return true;
            }
            i = i + 1;
        }
        false
    }
}

/// How many instances are components.
pub open spec fn count_components(insts: Seq<InstanceDoc>) -> nat
    decreases insts.len(),
{
    if insts.len() == 0 {
        0
    } else {
        count_components(insts.drop_last()) + if insts.last().kind == InstanceKind::Component {
            1nat
        } else {
            0nat
        }
    }
}

fn component_count(insts: &Vec<InstanceDoc>) -> (r: usize)
    ensures
        r == count_components(insts@),
{
    let mut n: usize = 0;
    let mut i: usize = 0;
    while i < insts.len()
        invariant
            i <= insts@.len(),
            n == count_components(insts@.take(i as int)),
            n <= i,
        decreases insts.len() - i,
    {
        proof {
            assert(insts@.take(i + 1).drop_last() =~= insts@.take(i as int));
            assert(insts@.take(i + 1).last() == insts@[i as int]);
        }
        if insts[i].kind == InstanceKind::Component {
            n = n + 1;
        }
        i = i + 1;
    }
    assert(insts@.take(insts@.len() as int) =~= insts@);
    n
}

impl BuildSummary {
    /// Counts of one build: components and nets of its schematic (zero
    /// without one), unsuppressed errors and warnings; `ok` when there is
    /// a schematic and no error.
    pub fn from_output(out: &BuildOutput) -> (r: BuildSummary)
        ensures
            r.source@ == out.source@,
            r.components == match out.schematic {
                Some(s) => count_components(s.instances@),
                None => 0,
            },
            r.nets == match out.schematic {
                Some(s) => s.nets@.len(),
                None => 0,
            },
            r.errors == count_severity(out.diagnostics@, Severity::Error),
            r.warnings == count_severity(out.diagnostics@, Severity::Warning),
            r.ok == (r.errors == 0 && out.schematic is Some),
    {
        let (components, nets) = match &out.schematic {
            Some(s) => (component_count(&s.instances), s.nets.len()),
            None => (0, 0),
        };
        let errors = count_diags(&out.diagnostics, Severity::Error);
        let warnings = count_diags(&out.diagnostics, Severity::Warning);
        BuildSummary {
            source: copy(&out.source),
            ok: errors == 0 && out.schematic.is_some(),
            components,
            nets,
            errors,
            warnings,
        }
    }
}

} // verus!
