//! The top-level shape of one authored `.zen` file, as plain data: the
//! instantiation calls carrying a literal `name=`, the `Module("…")`
//! bindings, the net-shaped assignments, and the anchors writers insert at.
//! All offsets are byte offsets into the file's content.
use vstd::prelude::*;
use crate::bytes::bytes_eq;

verus! {

/// One keyword argument of an instantiation call.
pub struct Kwarg {
    pub name: Vec<u8>,
    /// Byte span of the value expression.
    pub value_start: usize,
    pub value_end: usize,
    /// The value when it is a plain identifier (a net variable reference).
    pub value_ident: Option<Vec<u8>>,
    /// The net name when the value is an inline `Net("X")`-shaped call
    /// (`Net`, `Power` or `Ground` with a literal first argument).
    pub value_net_literal: Option<Vec<u8>>,
    /// Byte span of the whole `name=value` argument.
    pub arg_start: usize,
    pub arg_end: usize,
    /// End offset of the argument preceding this one (0 for the first):
    /// deleting `prev_end..arg_end` removes the kwarg and its comma.
    pub prev_end: usize,
}

/// One top-level instantiation call with a literal `name=` kwarg.
pub struct CallSite {
    /// The `name=` literal's value.
    pub name: Vec<u8>,
    /// Statement byte span.
    pub stmt_start: usize,
    pub stmt_end: usize,
    /// Byte span of the `name=` string literal, quotes included.
    pub name_start: usize,
    pub name_end: usize,
    /// 1-based line of the statement.
    pub line: u32,
    /// Callee identifier (the module binding the call goes through).
    pub callee: Vec<u8>,
    pub kwargs: Vec<Kwarg>,
    /// End offset of the last argument — where a new kwarg inserts.
    pub last_arg_end: usize,
}

/// A top-level `IDENT = Module("SPEC")` binding.
pub struct ModuleBinding {
    pub ident: Vec<u8>,
    pub spec: Vec<u8>,
    pub stmt_start: usize,
    pub stmt_end: usize,
}

/// A top-level `VAR = Callee("name", …)` assignment.
pub struct NetDef {
    pub variable: Vec<u8>,
    pub callee: Vec<u8>,
    pub name: Vec<u8>,
    pub line: u32,
    pub stmt_start: usize,
    pub stmt_end: usize,
    /// Byte span of the variable identifier on the left-hand side.
    pub ident_start: usize,
    pub ident_end: usize,
    /// The definition spells its name as a string literal (`Net("X")`);
    /// otherwise the variable is the name (`X = Net()`).
    pub named: bool,
    /// Byte span of the name string literal, quotes included; for an
    /// unnamed definition the empty span where a literal would go.
    pub string_start: usize,
    pub string_end: usize,
    /// Unnamed, and other arguments follow the literal's place.
    pub args_follow: bool,
}

/// An identifier read (not an assignment target) somewhere in the file.
pub struct IdentRef {
    pub name: Vec<u8>,
    pub start: usize,
    pub end: usize,
}

/// One authored file's top-level shape, indexed once.
pub struct FileIndex {
    /// Top-level instantiation calls with a literal `name=` (the trailing
    /// `Board(...)` excluded), in statement order.
    pub calls: Vec<CallSite>,
    pub module_bindings: Vec<ModuleBinding>,
    pub net_defs: Vec<NetDef>,
    /// Every name bound at top level (assignments, loads, defs).
    pub bound_idents: Vec<Vec<u8>>,
    /// Start of the first `Board(...)` statement, if any.
    pub board_start: Option<usize>,
    /// End offset of the last `load(...)` statement.
    pub last_load_end: Option<usize>,
    /// End offset of a leading docstring statement.
    pub docstring_end: Option<usize>,
    /// Parse failure: everything in the file refuses with it.
    pub error: Option<Vec<u8>>,
    /// Every identifier read in the file.
    pub ident_refs: Vec<IdentRef>,
    /// Names rebound in a nested scope (def/lambda parameters, for targets,
    /// comprehension clauses).
    pub nested_bindings: Vec<Vec<u8>>,
}

pub open spec fn span_ok(s: usize, e: usize, len: nat) -> bool {
    s <= e && e <= len
}

pub open spec fn kwarg_fits(k: Kwarg, len: nat) -> bool {
    span_ok(k.value_start, k.value_end, len) && span_ok(k.arg_start, k.arg_end, len) && k.prev_end
        <= k.arg_end
}

pub open spec fn call_fits(c: CallSite, len: nat) -> bool {
    &&& span_ok(c.stmt_start, c.stmt_end, len)
    &&& span_ok(c.name_start, c.name_end, len)
    &&& c.last_arg_end <= len
    &&& forall|j: int| 0 <= j < c.kwargs@.len() ==> kwarg_fits(#[trigger] c.kwargs@[j], len)
}

pub open spec fn def_fits(d: NetDef, len: nat) -> bool {
    span_ok(d.stmt_start, d.stmt_end, len) && span_ok(d.ident_start, d.ident_end, len) && span_ok(
        d.string_start,
        d.string_end,
        len,
    )
}

pub open spec fn opt_fits(o: Option<usize>, len: nat) -> bool {
    o matches Some(v) ==> v <= len
}

/// Every span the index records lies within a text of `len` bytes.
pub open spec fn index_fits(idx: FileIndex, len: nat) -> bool {
    &&& forall|i: int| 0 <= i < idx.calls@.len() ==> call_fits(#[trigger] idx.calls@[i], len)
    &&& forall|i: int|
        0 <= i < idx.module_bindings@.len() ==> span_ok(
            (#[trigger] idx.module_bindings@[i]).stmt_start,
            idx.module_bindings@[i].stmt_end,
            len,
        )
    &&& forall|i: int| 0 <= i < idx.net_defs@.len() ==> def_fits(#[trigger] idx.net_defs@[i], len)
    &&& forall|i: int|
        0 <= i < idx.ident_refs@.len() ==> span_ok(
            (#[trigger] idx.ident_refs@[i]).start,
            idx.ident_refs@[i].end,
            len,
        )
    &&& opt_fits(idx.board_start, len)
    &&& opt_fits(idx.last_load_end, len)
    &&& opt_fits(idx.docstring_end, len)
}

fn check_span(s: usize, e: usize, len: usize) -> (r: bool)
    ensures
        r == span_ok(s, e, len as nat),
{
    s <= e && e <= len
}

fn check_opt(o: Option<usize>, len: usize) -> (r: bool)
    ensures
        r == opt_fits(o, len as nat),
{
    match o {
        Some(v) => v <= len,
        None => true,
    }
}

fn check_call(c: &CallSite, len: usize) -> (r: bool)
    ensures
        r == call_fits(*c, len as nat),
{
    if !(check_span(c.stmt_start, c.stmt_end, len) && check_span(c.name_start, c.name_end, len)
        && c.last_arg_end <= len) {
        return false;
    }
    let mut j: usize = 0;
    while j < c.kwargs.len()
        invariant
            j <= c.kwargs@.len(),
            forall|t: int| 0 <= t < j ==> kwarg_fits(#[trigger] c.kwargs@[t], len as nat),
        decreases c.kwargs.len() - j,
    {
        let k = &c.kwargs[j];
        if !(check_span(k.value_start, k.value_end, len) && check_span(k.arg_start, k.arg_end, len)
            && k.prev_end <= k.arg_end) {
            return false;
        }
        j = j + 1;
    }
    true
}

/// Does every recorded span lie within a text of `len` bytes?
pub fn index_fits_len(idx: &FileIndex, len: usize) -> (r: bool)
    ensures
        r == index_fits(*idx, len as nat),
{
    let mut i: usize = 0;
    while i < idx.calls.len()
        invariant
            i <= idx.calls@.len(),
            forall|t: int| 0 <= t < i ==> call_fits(#[trigger] idx.calls@[t], len as nat),
        decreases idx.calls.len() - i,
    {
        if !check_call(&idx.calls[i], len) {
            return false;
        }
        i = i + 1;
    }
    let mut i: usize = 0;
    while i < idx.module_bindings.len()
        invariant
            i <= idx.module_bindings@.len(),
            forall|t: int|
                0 <= t < i ==> span_ok(
                    (#[trigger] idx.module_bindings@[t]).stmt_start,
                    idx.module_bindings@[t].stmt_end,
                    len as nat,
                ),
        decreases idx.module_bindings.len() - i,
    {
        if !check_span(idx.module_bindings[i].stmt_start, idx.module_bindings[i].stmt_end, len) {
            return false;
        }
        i = i + 1;
    }
    let mut i: usize = 0;
    while i < idx.net_defs.len()
        invariant
            i <= idx.net_defs@.len(),
            forall|t: int| 0 <= t < i ==> def_fits(#[trigger] idx.net_defs@[t], len as nat),
        decreases idx.net_defs.len() - i,
    {
        let d = &idx.net_defs[i];
        if !(check_span(d.stmt_start, d.stmt_end, len) && check_span(d.ident_start, d.ident_end, len)
            && check_span(d.string_start, d.string_end, len)) {
            return false;
        }
        i = i + 1;
    }
    let mut i: usize = 0;
    while i < idx.ident_refs.len()
        invariant
            i <= idx.ident_refs@.len(),
            forall|t: int|
                0 <= t < i ==> span_ok(
                    (#[trigger] idx.ident_refs@[t]).start,
                    idx.ident_refs@[t].end,
                    len as nat,
                ),
        decreases idx.ident_refs.len() - i,
    {
        if !check_span(idx.ident_refs[i].start, idx.ident_refs[i].end, len) {
            return false;
        }
        i = i + 1;
    }
    check_opt(idx.board_start, len) && check_opt(idx.last_load_end, len) && check_opt(
        idx.docstring_end,
        len,
    )
}

// ---------------------------------------------------------------------------
// Lookups
// ---------------------------------------------------------------------------

/// Indices of the calls whose `name=` literal is `name`, in order.
pub open spec fn calls_named(calls: Seq<CallSite>, name: Seq<u8>) -> Seq<usize>
    decreases calls.len(),
{
    if calls.len() == 0 {
        Seq::empty()
    } else {
        let r = calls_named(calls.drop_last(), name);
        if calls.last().name@ == name {
            r.push((calls.len() - 1) as usize)
        } else {
            r
        }
    }
}

pub proof fn lemma_calls_named(calls: Seq<CallSite>, name: Seq<u8>)
    requires
        calls.len() <= usize::MAX,
    ensures
        forall|k: int|
            0 <= k < calls_named(calls, name).len() ==> (#[trigger] calls_named(calls, name)[k])
                < calls.len() && calls[calls_named(calls, name)[k] as int].name@ == name,
        forall|j: int|
            0 <= j < calls.len() && (#[trigger] calls[j]).name@ == name ==> exists|k: int|
                0 <= k < calls_named(calls, name).len() && calls_named(calls, name)[k] as int == j,
    decreases calls.len(),
{
    if calls.len() > 0 {
        let d = calls.drop_last();
        lemma_calls_named(d, name);
        assert forall|j: int| 0 <= j < d.len() implies d[j] == calls[j] by {}
        let r = calls_named(d, name);
        assert forall|j: int|
            0 <= j < calls.len() && (#[trigger] calls[j]).name@ == name implies exists|k: int|
                0 <= k < calls_named(calls, name).len() && calls_named(calls, name)[k] as int
                    == j by {
            if j < calls.len() - 1 {
                assert(d[j] == calls[j]);
                let k = choose|k: int| 0 <= k < r.len() && r[k] as int == j;
                assert(calls_named(calls, name)[k] as int == j);
            } else {
                assert(calls_named(calls, name)[r.len() as int] as int == j);
            }
        }
    }
}

/// Indices of the calls named `name`.
pub fn find_calls_named(idx: &FileIndex, name: &[u8]) -> (r: Vec<usize>)
    ensures
        r@ == calls_named(idx.calls@, name@),
{
    let mut out: Vec<usize> = Vec::new();
    let mut i: usize = 0;
    while i < idx.calls.len()
        invariant
            i <= idx.calls@.len(),
            out@ == calls_named(idx.calls@.take(i as int), name@),
        decreases idx.calls.len() - i,
    {
        assert(idx.calls@.take(i + 1).drop_last() == idx.calls@.take(i as int));
        if bytes_eq(idx.calls[i].name.as_slice(), name) {
            out.push(i);
        }
        i = i + 1;
    }
    assert(idx.calls@.take(idx.calls@.len() as int) == idx.calls@);
    out
}

/// Indices of the net definitions whose string name is `name`, in order.
pub open spec fn defs_named(defs: Seq<NetDef>, name: Seq<u8>) -> Seq<usize>
    decreases defs.len(),
{
    if defs.len() == 0 {
        Seq::empty()
    } else {
        let r = defs_named(defs.drop_last(), name);
        if defs.last().name@ == name {
            r.push((defs.len() - 1) as usize)
        } else {
            r
        }
    }
}

pub proof fn lemma_defs_named(defs: Seq<NetDef>, name: Seq<u8>)
    requires
        defs.len() <= usize::MAX,
    ensures
        forall|k: int|
            0 <= k < defs_named(defs, name).len() ==> (#[trigger] defs_named(defs, name)[k])
                < defs.len() && defs[defs_named(defs, name)[k] as int].name@ == name,
        (exists|j: int| 0 <= j < defs.len() && defs[j].name@ == name) ==> defs_named(
            defs,
            name,
        ).len() > 0,
        defs_named(defs, name).len() > 0 ==> forall|j: int|
            0 <= j < defs_named(defs, name)[0] ==> defs[j].name@ != name,
    decreases defs.len(),
{
    if defs.len() > 0 {
        let d = defs.drop_last();
        lemma_defs_named(d, name);
        assert forall|j: int| 0 <= j < d.len() implies d[j] == defs[j] by {}
        if exists|j: int| 0 <= j < defs.len() && defs[j].name@ == name {
            let j = choose|j: int| 0 <= j < defs.len() && defs[j].name@ == name;
            if j < defs.len() - 1 {
                assert(d[j].name@ == name);
            }
        }
    }
}

pub fn find_defs_named(idx: &FileIndex, name: &[u8]) -> (r: Vec<usize>)
    ensures
        r@ == defs_named(idx.net_defs@, name@),
{
    let mut out: Vec<usize> = Vec::new();
    let mut i: usize = 0;
    while i < idx.net_defs.len()
        invariant
            i <= idx.net_defs@.len(),
            out@ == defs_named(idx.net_defs@.take(i as int), name@),
        decreases idx.net_defs.len() - i,
    {
        assert(idx.net_defs@.take(i + 1).drop_last() == idx.net_defs@.take(i as int));
        if bytes_eq(idx.net_defs[i].name.as_slice(), name) {
            out.push(i);
        }
        i = i + 1;
    }
    assert(idx.net_defs@.take(idx.net_defs@.len() as int) == idx.net_defs@);
    out
}

/// First net definition, at or after `from`, bound to variable `var`.
pub open spec fn first_def_var_from(defs: Seq<NetDef>, var: Seq<u8>, from: int) -> Option<int>
    decreases defs.len() - from,
{
    if from < 0 || from >= defs.len() {
        None
    } else if defs[from].variable@ == var {
        Some(from)
    } else {
        first_def_var_from(defs, var, from + 1)
    }
}

pub open spec fn first_def_var(defs: Seq<NetDef>, var: Seq<u8>) -> Option<int> {
    first_def_var_from(defs, var, 0)
}

pub proof fn lemma_first_def_var_from(defs: Seq<NetDef>, var: Seq<u8>, from: int)
    requires
        from >= 0,
    ensures
        first_def_var_from(defs, var, from) matches Some(i) ==> from <= i < defs.len()
            && defs[i].variable@ == var && forall|j: int| from <= j < i ==> defs[j].variable@ != var,
        first_def_var_from(defs, var, from) is None ==> forall|j: int|
            from <= j < defs.len() ==> defs[j].variable@ != var,
    decreases defs.len() - from,
{
    if from < defs.len() && defs[from].variable@ != var {
        lemma_first_def_var_from(defs, var, from + 1);
    }
}

pub fn find_def_var(idx: &FileIndex, var: &[u8]) -> (r: Option<usize>)
    ensures
        r matches Some(i) ==> first_def_var(idx.net_defs@, var@) == Some(i as int),
        r is None ==> first_def_var(idx.net_defs@, var@) is None,
{
    let mut i: usize = 0;
    while i < idx.net_defs.len()
        invariant
            i <= idx.net_defs@.len(),
            first_def_var(idx.net_defs@, var@) == first_def_var_from(idx.net_defs@, var@, i as int),
        decreases idx.net_defs.len() - i,
    {
        if bytes_eq(idx.net_defs[i].variable.as_slice(), var) {
            return Some(i);
        }
        i = i + 1;
    }
    None
}

/// First module binding, at or after `from`, whose identifier is `ident`.
pub open spec fn first_binding_from(bs: Seq<ModuleBinding>, ident: Seq<u8>, from: int) -> Option<int>
    decreases bs.len() - from,
{
    if from < 0 || from >= bs.len() {
        None
    } else if bs[from].ident@ == ident {
        Some(from)
    } else {
        first_binding_from(bs, ident, from + 1)
    }
}

pub open spec fn first_binding_ident(bs: Seq<ModuleBinding>, ident: Seq<u8>) -> Option<int> {
    first_binding_from(bs, ident, 0)
}

pub proof fn lemma_first_binding_from(bs: Seq<ModuleBinding>, ident: Seq<u8>, from: int)
    requires
        from >= 0,
    ensures
        first_binding_from(bs, ident, from) matches Some(i) ==> from <= i < bs.len() && bs[i].ident@
            == ident && forall|j: int| from <= j < i ==> bs[j].ident@ != ident,
        first_binding_from(bs, ident, from) is None ==> forall|j: int|
            from <= j < bs.len() ==> bs[j].ident@ != ident,
    decreases bs.len() - from,
{
    if from < bs.len() && bs[from].ident@ != ident {
        lemma_first_binding_from(bs, ident, from + 1);
    }
}

pub fn find_binding_ident(idx: &FileIndex, ident: &[u8]) -> (r: Option<usize>)
    ensures
        r matches Some(i) ==> first_binding_ident(idx.module_bindings@, ident@) == Some(i as int),
        r is None ==> first_binding_ident(idx.module_bindings@, ident@) is None,
{
    let mut i: usize = 0;
    while i < idx.module_bindings.len()
        invariant
            i <= idx.module_bindings@.len(),
            first_binding_ident(idx.module_bindings@, ident@) == first_binding_from(
                idx.module_bindings@,
                ident@,
                i as int,
            ),
        decreases idx.module_bindings.len() - i,
    {
        if bytes_eq(idx.module_bindings[i].ident.as_slice(), ident) {
            return Some(i);
        }
        i = i + 1;
    }
    None
}

/// Indices of the identifier reads of `var`.
pub open spec fn refs_of(refs: Seq<IdentRef>, var: Seq<u8>) -> Seq<usize>
    decreases refs.len(),
{
    if refs.len() == 0 {
        Seq::empty()
    } else {
        let r = refs_of(refs.drop_last(), var);
        if refs.last().name@ == var {
            r.push((refs.len() - 1) as usize)
        } else {
            r
        }
    }
}

pub proof fn lemma_refs_of(refs: Seq<IdentRef>, var: Seq<u8>)
    requires
        refs.len() <= usize::MAX,
    ensures
        forall|k: int|
            0 <= k < refs_of(refs, var).len() ==> (#[trigger] refs_of(refs, var)[k]) < refs.len()
                && refs[refs_of(refs, var)[k] as int].name@ == var,
    decreases refs.len(),
{
    if refs.len() > 0 {
        let d = refs.drop_last();
        lemma_refs_of(d, var);
        assert forall|j: int| 0 <= j < d.len() implies d[j] == refs[j] by {}
        let r = refs_of(d, var);
        let full = refs_of(refs, var);
        assert forall|k: int| 0 <= k < full.len() implies (#[trigger] full[k]) < refs.len()
            && refs[full[k] as int].name@ == var by {
            if k < r.len() {
                assert(full[k] == r[k]);
            }
        }
    }
}

pub fn find_refs(idx: &FileIndex, var: &[u8]) -> (r: Vec<usize>)
    ensures
        r@ == refs_of(idx.ident_refs@, var@),
{
    let mut out: Vec<usize> = Vec::new();
    let mut i: usize = 0;
    while i < idx.ident_refs.len()
        invariant
            i <= idx.ident_refs@.len(),
            out@ == refs_of(idx.ident_refs@.take(i as int), var@),
        decreases idx.ident_refs.len() - i,
    {
        assert(idx.ident_refs@.take(i + 1).drop_last() == idx.ident_refs@.take(i as int));
        if bytes_eq(idx.ident_refs[i].name.as_slice(), var) {
            out.push(i);
        }
        i = i + 1;
    }
    assert(idx.ident_refs@.take(idx.ident_refs@.len() as int) == idx.ident_refs@);
    out
}

/// The name occurs in a list of byte strings.
pub open spec fn listed(list: Seq<Vec<u8>>, x: Seq<u8>) -> bool {
    exists|i: int| 0 <= i < list.len() && list[i]@ == x
}

/// Renaming a variable is only safe when nothing rebinds the same name in a
/// nested scope.
pub fn is_shadowed(idx: &FileIndex, var: &[u8]) -> (r: bool)
    ensures
        r == listed(idx.nested_bindings@, var@),
{
    crate::bytes::contains_bytes(&idx.nested_bindings, var)
}

pub fn is_bound(idx: &FileIndex, ident: &[u8]) -> (r: bool)
    ensures
        r == listed(idx.bound_idents@, ident@),
{
    crate::bytes::contains_bytes(&idx.bound_idents, ident)
}

} // verus!
