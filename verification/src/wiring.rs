//! Wiring writers: pins resolve through the instantiated module's facts to
//! an io kwarg, whose value is then pointed at a net variable. Definitions a
//! rewiring orphans are pruned in the same write.
use vstd::prelude::*;
use vstd::string::StringSliceAdditionalSpecFns;
use crate::bytes::{bytes_eq, contains_bytes, copy, lit, slice_copy};
use crate::edit::{
    anchor_at, net_def_anchor, net_def_stmt, net_def_stmt_exec, lemma_anchor_bound, spec_anchor_at,
    spec_net_def_anchor, EditError,
};
use crate::facts::{find_key, find_value, has_key, has_value, lookup, ModuleFacts};
use crate::index::{
    defs_named, find_binding_ident, find_def_var, find_defs_named, find_refs, first_binding_ident,
    first_def_var, index_fits, index_fits_len, is_bound, lemma_defs_named, lemma_first_def_var_from,
    listed, refs_of, CallSite, FileIndex,
};
use crate::names::{net_variable, spec_net_variable, spec_valid_name, spec_valid_net_kind, valid_instance_name, valid_net_kind};
use crate::text::{
    apply_edits, edit_view, edits_view, line_boundary_before, push_all, separator, spec_apply_edits,
    spec_line_boundary_before, spec_separator, EditV, TextEdit,
};
use crate::writers::{del_edit, delete_edit, find_kwarg, first_kwarg, spec_unique_call, unique_call};

verus! {

/// How a pin's kwarg currently reads.
pub enum PinState {
    /// The call carries no kwarg for the io.
    Unbound,
    /// An inline `Net("X")` placeholder from placement.
    Placeholder { name: Vec<u8> },
    /// A reference to a top-level net definition, read `refs` times in the
    /// file.
    Def { variable: Vec<u8>, name: Vec<u8>, refs: usize },
}

/// [`PinState`] as values.
pub enum PinView {
    Unbound,
    Placeholder { name: Seq<u8> },
    Def { variable: Seq<u8>, name: Seq<u8>, refs: nat },
}

impl View for PinState {
    type V = PinView;

    open spec fn view(&self) -> PinView {
        match self {
            PinState::Unbound => PinView::Unbound,
            PinState::Placeholder { name } => PinView::Placeholder { name: name@ },
            PinState::Def { variable, name, refs } => PinView::Def {
                variable: variable@,
                name: name@,
                refs: *refs as nat,
            },
        }
    }
}

/// The call already carries a kwarg of this name, and it is neither the
/// identity nor a config parameter.
pub open spec fn existing_kwarg(site: CallSite, facts: ModuleFacts, name: Seq<u8>) -> bool {
    first_kwarg(site.kwargs@, name) is Some && name != "name".spec_bytes() && !has_key(
        facts.config_types@,
        name,
    )
}

/// The io a pin name resolves to on `site`: an io itself (required, a pin
/// map target, or a kwarg the call already carries), else through the
/// module's literal pin map.
pub open spec fn spec_resolve_io(facts: ModuleFacts, site: CallSite, pin: Seq<u8>) -> Option<Seq<u8>> {
    if listed(facts.required_ios@, pin) || has_value(facts.pin_map@, pin) || existing_kwarg(
        site,
        facts,
        pin,
    ) {
        Some(pin)
    } else {
        match lookup(facts.pin_map@, pin) {
            Some(io) => Some(io@),
            None => None,
        }
    }
}

pub fn resolve_io(facts: &ModuleFacts, site: &CallSite, pin: &[u8]) -> (r: Option<Vec<u8>>)
    ensures
        r matches Some(v) ==> spec_resolve_io(*facts, *site, pin@) == Some(v@),
        r is None ==> spec_resolve_io(*facts, *site, pin@) is None,
{
    let ek = find_kwarg(&site.kwargs, pin).is_some() && !bytes_eq(pin, lit("name").as_slice())
        && find_key(&facts.config_types, pin).is_none();
    if contains_bytes(&facts.required_ios, pin) || find_value(&facts.pin_map, pin) || ek {
        return Some(slice_copy(pin, 0, pin.len()));
    }
    match find_key(&facts.pin_map, pin) {
        Some(i) => Some(copy(&facts.pin_map[i].1)),
        None => None,
    }
}

/// The current state of `io` on `site`, or why the pin cannot be rewired
/// structurally.
pub open spec fn spec_pin_state(idx: FileIndex, site: CallSite, io: Seq<u8>) -> Result<PinView, EditError> {
    match first_kwarg(site.kwargs@, io) {
        None => Ok(PinView::Unbound),
        Some(k) => match site.kwargs@[k].value_ident {
            Some(var) => match first_def_var(idx.net_defs@, var@) {
                Some(d) => Ok(
                    PinView::Def {
                        variable: var@,
                        name: idx.net_defs@[d].name@,
                        refs: refs_of(idx.ident_refs@, var@).len(),
                    },
                ),
                None => Err(EditError::NotNetDef),
            },
            None => match site.kwargs@[k].value_net_literal {
                Some(n) => Ok(PinView::Placeholder { name: n@ }),
                None => Err(EditError::ComputedPin),
            },
        },
    }
}

fn pin_state(idx: &FileIndex, site: &CallSite, io: &[u8]) -> (r: Result<PinState, EditError>)
    ensures
        r matches Ok(s) ==> spec_pin_state(*idx, *site, io@) == Ok::<PinView, EditError>(s@),
        r matches Err(e) ==> spec_pin_state(*idx, *site, io@) == Err::<PinView, EditError>(e),
{
    match find_kwarg(&site.kwargs, io) {
        None => Ok(PinState::Unbound),
        Some(k) => {
            let kw = &site.kwargs[k];
            match &kw.value_ident {
                Some(var) => {
                    proof {
                        lemma_first_def_var_from(idx.net_defs@, var@, 0);
                    }
                    match find_def_var(idx, var.as_slice()) {
                        Some(d) => {
                            let refs = find_refs(idx, var.as_slice());
                            Ok(
                                PinState::Def {
                                    variable: copy(var),
                                    name: copy(&idx.net_defs[d].name),
                                    refs: refs.len(),
                                },
                            )
                        },
                        None => Err(EditError::NotNetDef),
                    }
                },
                None => match &kw.value_net_literal {
                    Some(n) => Ok(PinState::Placeholder { name: copy(n) }),
                    None => Err(EditError::ComputedPin),
                },
            }
        },
    }
}

/// One endpoint resolved on an indexed file: the call, the io the pin names
/// and the pin's current state; `facts` describe the module the call
/// instantiates.
pub open spec fn spec_resolve_endpoint(
    idx: FileIndex,
    facts: ModuleFacts,
    instance: Seq<u8>,
    pin: Seq<u8>,
) -> Result<(int, Seq<u8>, PinView), EditError> {
    match spec_unique_call(idx, instance) {
        Err(e) => Err(e),
        Ok(i) => if first_binding_ident(idx.module_bindings@, idx.calls@[i].callee@) is None {
            Err(EditError::NoModuleBinding)
        } else {
            match spec_resolve_io(facts, idx.calls@[i], pin) {
                None => Err(EditError::PinUnresolved),
                Some(io) => match spec_pin_state(idx, idx.calls@[i], io) {
                    Err(e) => Err(e),
                    Ok(s) => Ok((i, io, s)),
                },
            }
        },
    }
}

pub fn resolve_endpoint(idx: &FileIndex, facts: &ModuleFacts, instance: &[u8], pin: &[u8]) -> (r:
    Result<(usize, Vec<u8>, PinState), EditError>)
    ensures
        r matches Ok((i, io, s)) ==> spec_resolve_endpoint(*idx, *facts, instance@, pin@) == Ok::<
            (int, Seq<u8>, PinView),
            EditError,
        >((i as int, io@, s@)) && i < idx.calls@.len(),
        r matches Err(e) ==> spec_resolve_endpoint(*idx, *facts, instance@, pin@) == Err::<
            (int, Seq<u8>, PinView),
            EditError,
        >(e),
{
    let i = match unique_call(idx, instance) {
        Ok(i) => i,
        Err(e) => return Err(e),
    };
    let site = &idx.calls[i];
    if find_binding_ident(idx, site.callee.as_slice()).is_none() {
        return Err(EditError::NoModuleBinding);
    }
    let io = match resolve_io(facts, site, pin) {
        Some(io) => io,
        None => return Err(EditError::PinUnresolved),
    };
    match pin_state(idx, site, io.as_slice()) {
        Ok(s) => Ok((i, io, s)),
        Err(e) => Err(e),
    }
}

// ---------------------------------------------------------------------------
// Edits shared by the wiring writers
// ---------------------------------------------------------------------------

/// Where a net definition read by the statement at `before` goes: the
/// usual definition anchor, but never below that statement's line.
pub open spec fn def_insert_at(c: Seq<u8>, idx: FileIndex, before: int) -> int {
    let a = spec_anchor_at(c, spec_net_def_anchor(idx));
    let b = spec_line_boundary_before(c, before);
    if a <= b {
        a
    } else {
        b
    }
}

/// Inserting `VAR = Kind("NAME")` at [`def_insert_at`].
pub open spec fn def_insert(
    c: Seq<u8>,
    idx: FileIndex,
    before: int,
    var: Seq<u8>,
    kind: Seq<u8>,
    name: Seq<u8>,
) -> EditV {
    let at = def_insert_at(c, idx, before);
    (at, at, spec_separator(c, at) + net_def_stmt(var, kind, name))
}

fn def_insert_edit(
    c: &[u8],
    idx: &FileIndex,
    before: usize,
    var: &[u8],
    kind: &[u8],
    name: &[u8],
) -> (r: TextEdit)
    requires
        index_fits(*idx, c@.len()),
    ensures
        edit_view(r) == def_insert(c@, *idx, before as int, var@, kind@, name@),
        r.start <= r.end <= c@.len(),
{
    proof {
        lemma_anchor_bound(*idx, c@.len());
    }
    let a = anchor_at(c, net_def_anchor(idx));
    let b = line_boundary_before(c, before);
    let at = if a <= b {
        a
    } else {
        b
    };
    let mut text = separator(c, at);
    push_all(&mut text, net_def_stmt_exec(var, kind, name).as_slice());
    TextEdit { start: at, end: at, text }
}

/// Pointing `io` on `site` at `var`: the kwarg's value replaced, or
/// `, io=var` appended after the last argument.
pub open spec fn kwarg_set(site: CallSite, io: Seq<u8>, var: Seq<u8>) -> EditV {
    match first_kwarg(site.kwargs@, io) {
        Some(k) => (site.kwargs@[k].value_start as int, site.kwargs@[k].value_end as int, var),
        None => (
            site.last_arg_end as int,
            site.last_arg_end as int,
            ", ".spec_bytes() + io + "=".spec_bytes() + var,
        ),
    }
}

/// The identifier the io's kwarg held, if it held one.
pub open spec fn kwarg_old_ident(site: CallSite, io: Seq<u8>) -> Option<Seq<u8>> {
    match first_kwarg(site.kwargs@, io) {
        Some(k) => match site.kwargs@[k].value_ident {
            Some(v) => Some(v@),
            None => None,
        },
        None => None,
    }
}

pub proof fn lemma_kwarg_set_bounds(site: CallSite, io: Seq<u8>, var: Seq<u8>, len: nat)
    requires
        crate::index::call_fits(site, len),
    ensures
        0 <= kwarg_set(site, io, var).0 <= kwarg_set(site, io, var).1 <= len,
{
    crate::writers::lemma_first_kwarg_from(site.kwargs@, io, 0);
    if let Some(k) = first_kwarg(site.kwargs@, io) {
        assert(crate::index::kwarg_fits(site.kwargs@[k], len));
    }
}

fn kwarg_set_edit(site: &CallSite, io: &[u8], var: &[u8]) -> (r: (TextEdit, Option<Vec<u8>>))
    ensures
        edit_view(r.0) == kwarg_set(*site, io@, var@),
        r.1 matches Some(v) ==> kwarg_old_ident(*site, io@) == Some(v@),
        r.1 is None ==> kwarg_old_ident(*site, io@) is None,
{
    match find_kwarg(&site.kwargs, io) {
        Some(k) => {
            let kw = &site.kwargs[k];
            let old = match &kw.value_ident {
                Some(v) => Some(copy(v)),
                None => None,
            };
            (TextEdit { start: kw.value_start, end: kw.value_end, text: slice_copy(var, 0, var.len()) }, old)
        },
        None => {
            let mut text = lit(", ");
            push_all(&mut text, io);
            push_all(&mut text, lit("=").as_slice());
            push_all(&mut text, var);
            (TextEdit { start: site.last_arg_end, end: site.last_arg_end, text }, None)
        },
    }
}

/// The definition of `old` that a rewiring leaves unread: `old` is not the
/// new variable, is a top-level net definition, and all its `reads` reads
/// were replaced.
pub open spec fn orphaned_def(idx: FileIndex, old: Seq<u8>, reads: nat, var: Seq<u8>) -> Option<int> {
    if old == var {
        None
    } else {
        match first_def_var(idx.net_defs@, old) {
            Some(d) => if refs_of(idx.ident_refs@, old).len() == reads {
                Some(d)
            } else {
                None
            },
            None => None,
        }
    }
}

fn orphaned_def_exec(idx: &FileIndex, old: &[u8], reads: usize, var: &[u8]) -> (r: Option<usize>)
    ensures
        r matches Some(d) ==> orphaned_def(*idx, old@, reads as nat, var@) == Some(d as int) && d
            < idx.net_defs@.len(),
        r is None ==> orphaned_def(*idx, old@, reads as nat, var@) is None,
{
    if bytes_eq(old, var) {
        return None;
    }
    proof {
        lemma_first_def_var_from(idx.net_defs@, old@, 0);
    }
    match find_def_var(idx, old) {
        Some(d) => if find_refs(idx, old).len() == reads {
            Some(d)
        } else {
            None
        },
        None => None,
    }
}

// ---------------------------------------------------------------------------
// attach_pin_net
// ---------------------------------------------------------------------------

pub struct AttachPinRequest {
    /// Top-level instance name in the target file.
    pub instance: Vec<u8>,
    /// Component pin name (`1`) or io identifier (`P1`).
    pub pin: Vec<u8>,
    /// Net identity (the string name). An existing definition is reused
    /// regardless of kind; otherwise one is created.
    pub net_name: Vec<u8>,
    /// `Net` | `Power` | `Ground`, used only when creating.
    pub kind: Vec<u8>,
}

pub struct AttachPinResult {
    /// The io kwarg the pin resolved to.
    pub io: Vec<u8>,
    pub variable: Vec<u8>,
    pub created_def: bool,
    /// Net definitions pruned because this reattachment orphaned them.
    pub pruned_defs: Vec<Vec<u8>>,
}

/// [`AttachPinResult`] with the new text, as values.
pub struct AttachView {
    pub text: Seq<u8>,
    pub io: Seq<u8>,
    pub variable: Seq<u8>,
    pub created_def: bool,
    pub pruned_defs: Seq<Seq<u8>>,
}

/// The definition an attachment prunes: the one whose only read was the
/// replaced kwarg value.
pub open spec fn attach_prune(idx: FileIndex, site: CallSite, io: Seq<u8>, var: Seq<u8>) -> Option<int> {
    match kwarg_old_ident(site, io) {
        Some(old) => orphaned_def(idx, old, 1, var),
        None => None,
    }
}

pub open spec fn attach_edits(
    c: Seq<u8>,
    idx: FileIndex,
    site: CallSite,
    io: Seq<u8>,
    var: Seq<u8>,
    created: bool,
    kind: Seq<u8>,
    name: Seq<u8>,
) -> Seq<EditV> {
    let d = if created {
        seq![def_insert(c, idx, site.stmt_start as int, var, kind, name)]
    } else {
        Seq::empty()
    };
    let p = match attach_prune(idx, site, io, var) {
        Some(k) => seq![crate::writers::def_del(c, idx, k)],
        None => Seq::empty(),
    };
    d.push(kwarg_set(site, io, var)) + p
}

/// What `attach_pin_net` does, or why it refuses.
pub open spec fn spec_attach_pin_net(
    c: Seq<u8>,
    idx: FileIndex,
    facts: ModuleFacts,
    req: AttachPinRequest,
) -> Result<AttachView, EditError> {
    if !index_fits(idx, c.len()) {
        Err(EditError::IndexMismatch)
    } else if !spec_valid_net_kind(req.kind@) {
        Err(EditError::InvalidKind)
    } else if !spec_valid_name(req.net_name@) {
        Err(EditError::InvalidNetName)
    } else if idx.error is Some {
        Err(EditError::Unparseable)
    } else {
        match spec_unique_call(idx, req.instance@) {
            Err(e) => Err(e),
            Ok(i) => if first_binding_ident(idx.module_bindings@, idx.calls@[i].callee@) is None {
                Err(EditError::NoModuleBinding)
            } else {
                let site = idx.calls@[i];
                match spec_resolve_io(facts, site, req.pin@) {
                    None => Err(EditError::PinUnresolved),
                    Some(io) => {
                        let dn = defs_named(idx.net_defs@, req.net_name@);
                        let created = dn.len() == 0;
                        let var = if created {
                            spec_net_variable(req.net_name@)
                        } else {
                            idx.net_defs@[dn[0] as int].variable@
                        };
                        if created && listed(idx.bound_idents@, var) {
                            Err(EditError::NameBound)
                        } else {
                            match spec_apply_edits(
                                c,
                                attach_edits(c, idx, site, io, var, created, req.kind@, req.net_name@),
                            ) {
                                None => Err(EditError::Overlap),
                                Some(t) => Ok(
                                    AttachView {
                                        text: t,
                                        io,
                                        variable: var,
                                        created_def: created,
                                        pruned_defs: match attach_prune(idx, site, io, var) {
                                            Some(k) => seq![idx.net_defs@[k].name@],
                                            None => Seq::empty(),
                                        },
                                    },
                                ),
                            }
                        }
                    },
                }
            },
        }
    }
}

pub open spec fn attach_view(t: Seq<u8>, r: AttachPinResult) -> AttachView {
    AttachView {
        text: t,
        io: r.io@,
        variable: r.variable@,
        created_def: r.created_def,
        pruned_defs: crate::writers::views(r.pruned_defs@),
    }
}

/// Attach one pin to a net: ensure the definition, set the call's io kwarg
/// to the net variable, and prune a definition the replacement orphaned —
/// one write. `facts` describe the module the instance's call instantiates.
fn attach_pin_net_unchecked(
    content: &[u8],
    idx: &FileIndex,
    facts: &ModuleFacts,
    req: &AttachPinRequest,
) -> (r: Result<(Vec<u8>, AttachPinResult), EditError>)
    ensures
        r matches Ok((t, res)) ==> spec_attach_pin_net(content@, *idx, *facts, *req) == Ok::<
            AttachView,
            EditError,
        >(attach_view(t@, res)),
        r matches Err(e) ==> spec_attach_pin_net(content@, *idx, *facts, *req) == Err::<
            AttachView,
            EditError,
        >(e),
{
    if !index_fits_len(idx, content.len()) {
        return Err(EditError::IndexMismatch);
    }
    if !valid_net_kind(req.kind.as_slice()) {
        return Err(EditError::InvalidKind);
    }
    if !valid_instance_name(req.net_name.as_slice()) {
        return Err(EditError::InvalidNetName);
    }
    if idx.error.is_some() {
        return Err(EditError::Unparseable);
    }
    let i = match unique_call(idx, req.instance.as_slice()) {
        Ok(i) => i,
        Err(e) => return Err(e),
    };
    let site = &idx.calls[i];
    if find_binding_ident(idx, site.callee.as_slice()).is_none() {
        return Err(EditError::NoModuleBinding);
    }
    let io = match resolve_io(facts, site, req.pin.as_slice()) {
        Some(io) => io,
        None => return Err(EditError::PinUnresolved),
    };
    let dn = find_defs_named(idx, req.net_name.as_slice());
    let nd: usize = idx.net_defs.len();
    proof {
        lemma_defs_named(idx.net_defs@, req.net_name@);
    }
    let created = dn.len() == 0;
    let variable = if created {
        net_variable(req.net_name.as_slice())
    } else {
        copy(&idx.net_defs[dn[0]].variable)
    };
    if created && is_bound(idx, variable.as_slice()) {
        return Err(EditError::NameBound);
    }
    proof {
        assert(crate::index::call_fits(idx.calls@[i as int], content@.len()));
    }
    let ghost want = attach_edits(
        content@,
        *idx,
        *site,
        io@,
        variable@,
        created,
        req.kind@,
        req.net_name@,
    );
    let mut edits: Vec<TextEdit> = Vec::new();
    if created {
        let e = def_insert_edit(
            content,
            idx,
            site.stmt_start,
            variable.as_slice(),
            req.kind.as_slice(),
            req.net_name.as_slice(),
        );
        edits.push(e);
    }
    let ghost e0 = edits_view(edits@);
    let (ke, old) = kwarg_set_edit(site, io.as_slice(), variable.as_slice());
    proof {
        lemma_kwarg_set_bounds(*site, io@, variable@, content@.len());
    }
    let ghost before_kw = edits@;
    edits.push(ke);
    proof {
        crate::text::lemma_edits_view_push(before_kw, ke);
    }
    let mut pruned: Vec<Vec<u8>> = Vec::new();
    let prune = match &old {
        Some(ov) => orphaned_def_exec(idx, ov.as_slice(), 1, variable.as_slice()),
        None => None,
    };
    let ghost before_prune = edits@;
    match prune {
        Some(d) => {
            proof {
                assert(crate::index::def_fits(idx.net_defs@[d as int], content@.len()));
            }
            let de = delete_edit(content, idx.net_defs[d].stmt_start, idx.net_defs[d].stmt_end);
            edits.push(de);
            pruned.push(copy(&idx.net_defs[d].name));
            proof {
                crate::text::lemma_edits_view_push(before_prune, de);
                assert(crate::writers::views(pruned@) =~= seq![idx.net_defs@[d as int].name@]);
            }
        },
        None => {
            assert(crate::writers::views(pruned@) =~= Seq::<Seq<u8>>::empty());
        },
    }
    proof {
        assert(edits_view(edits@) =~= want);
        assert forall|k: int| 0 <= k < edits_view(edits@).len() implies 0 <= (
        #[trigger] edits_view(edits@)[k]).0 <= edits_view(edits@)[k].1 <= content@.len() by {
            if created && k == 0 {
            } else {
            }
        }
    }
    match apply_edits(content, edits) {
        Some(t) => Ok((t, AttachPinResult { io, variable, created_def: created, pruned_defs: pruned })),
        None => Err(EditError::Overlap),
    }
}

// ---------------------------------------------------------------------------
// disconnect_pin
// ---------------------------------------------------------------------------

pub struct DisconnectResult {
    pub io: Vec<u8>,
    /// Required pins revert to a fresh placeholder net of this name;
    /// optional pins drop the kwarg entirely.
    pub placeholder: Option<Vec<u8>>,
    pub pruned_defs: Vec<Vec<u8>>,
}

/// [`DisconnectResult`] with the new text, as values.
pub struct DisconnectView {
    pub text: Seq<u8>,
    pub io: Seq<u8>,
    pub placeholder: Option<Seq<u8>>,
    pub pruned_defs: Seq<Seq<u8>>,
}

/// `INSTANCE_IO`: the placeholder net a required pin falls back to.
pub open spec fn placeholder_name(instance: Seq<u8>, io: Seq<u8>) -> Seq<u8> {
    instance + "_".spec_bytes() + io
}

/// The edit detaching the kwarg: a placeholder `Net("…")` for a required io,
/// else the kwarg and its leading comma removed.
pub open spec fn detach_edit(site: CallSite, io: Seq<u8>, required: bool, pname: Seq<u8>) -> EditV {
    let kw = site.kwargs@[first_kwarg(site.kwargs@, io)->0];
    if required {
        (
            kw.value_start as int,
            kw.value_end as int,
            "Net(".spec_bytes() + crate::quote::spec_debug_str(pname) + ")".spec_bytes(),
        )
    } else {
        (kw.prev_end as int, kw.arg_end as int, Seq::empty())
    }
}

/// What `disconnect_pin` does, or why it refuses.
pub open spec fn spec_disconnect_pin(
    c: Seq<u8>,
    idx: FileIndex,
    facts: ModuleFacts,
    instance: Seq<u8>,
    pin: Seq<u8>,
) -> Result<DisconnectView, EditError> {
    if !index_fits(idx, c.len()) {
        Err(EditError::IndexMismatch)
    } else if idx.error is Some {
        Err(EditError::Unparseable)
    } else {
        match spec_resolve_endpoint(idx, facts, instance, pin) {
            Err(e) => Err(e),
            Ok((i, io, st)) => match st {
                PinView::Unbound => Err(EditError::AlreadyUnconnected),
                PinView::Placeholder { .. } => Err(EditError::PlaceholderUnconnected),
                PinView::Def { variable, name, refs } => {
                    let site = idx.calls@[i];
                    let kw = site.kwargs@[first_kwarg(site.kwargs@, io)->0];
                    let required = listed(facts.required_ios@, io);
                    if !required && kw.prev_end == 0 {
                        Err(EditError::MissingPrecedingArg)
                    } else {
                        let pname = placeholder_name(instance, io);
                        let prune: Seq<EditV> = if refs == 1 {
                            seq![
                                crate::writers::def_del(
                                    c,
                                    idx,
                                    first_def_var(idx.net_defs@, variable)->0,
                                ),
                            ]
                        } else {
                            Seq::empty()
                        };
                        match spec_apply_edits(
                            c,
                            seq![detach_edit(site, io, required, pname)] + prune,
                        ) {
                            None => Err(EditError::Overlap),
                            Some(t) => Ok(
                                DisconnectView {
                                    text: t,
                                    io,
                                    placeholder: if required {
                                        Some(pname)
                                    } else {
                                        None
                                    },
                                    pruned_defs: if refs == 1 {
                                        seq![name]
                                    } else {
                                        Seq::empty()
                                    },
                                },
                            ),
                        }
                    }
                },
            },
        }
    }
}

pub open spec fn opt_view(o: Option<Vec<u8>>) -> Option<Seq<u8>> {
    match o {
        Some(v) => Some(v@),
        None => None,
    }
}

pub open spec fn disconnect_view(t: Seq<u8>, r: DisconnectResult) -> DisconnectView {
    DisconnectView {
        text: t,
        io: r.io@,
        placeholder: opt_view(r.placeholder),
        pruned_defs: crate::writers::views(r.pruned_defs@),
    }
}

/// Detach one pin from its net: required ios get a fresh placeholder
/// (`Net("INSTANCE_IO")`), optional ios lose the kwarg; a definition the
/// detachment orphaned is pruned in the same write.
fn disconnect_pin_unchecked(
    content: &[u8],
    idx: &FileIndex,
    facts: &ModuleFacts,
    instance: &[u8],
    pin: &[u8],
) -> (r: Result<(Vec<u8>, DisconnectResult), EditError>)
    ensures
        r matches Ok((t, res)) ==> spec_disconnect_pin(content@, *idx, *facts, instance@, pin@)
            == Ok::<DisconnectView, EditError>(disconnect_view(t@, res)),
        r matches Err(e) ==> spec_disconnect_pin(content@, *idx, *facts, instance@, pin@) == Err::<
            DisconnectView,
            EditError,
        >(e),
{
    if !index_fits_len(idx, content.len()) {
        return Err(EditError::IndexMismatch);
    }
    if idx.error.is_some() {
        return Err(EditError::Unparseable);
    }
    let (i, io, st) = match resolve_endpoint(idx, facts, instance, pin) {
        Ok(x) => x,
        Err(e) => return Err(e),
    };
    let (variable, name, refs) = match st {
        PinState::Unbound => return Err(EditError::AlreadyUnconnected),
        PinState::Placeholder { .. } => return Err(EditError::PlaceholderUnconnected),
        PinState::Def { variable, name, refs } => (variable, name, refs),
    };
    let site = &idx.calls[i];
    proof {
        crate::writers::lemma_first_kwarg_from(site.kwargs@, io@, 0);
        assert(crate::index::call_fits(idx.calls@[i as int], content@.len()));
    }
    let k = match find_kwarg(&site.kwargs, io.as_slice()) {
        Some(k) => k,
        None => return Err(EditError::AlreadyUnconnected),
    };
    let kw = &site.kwargs[k];
    proof {
        assert(crate::index::kwarg_fits(site.kwargs@[k as int], content@.len()));
    }
    let required = contains_bytes(&facts.required_ios, io.as_slice());
    if !required && kw.prev_end == 0 {
        return Err(EditError::MissingPrecedingArg);
    }
    let mut pname = slice_copy(instance, 0, instance.len());
    push_all(&mut pname, lit("_").as_slice());
    push_all(&mut pname, io.as_slice());
    let e1 = if required {
        let mut text = lit("Net(");
        push_all(&mut text, crate::quote::debug_quote(pname.as_slice()).as_slice());
        push_all(&mut text, lit(")").as_slice());
        TextEdit { start: kw.value_start, end: kw.value_end, text }
    } else {
        TextEdit { start: kw.prev_end, end: kw.arg_end, text: Vec::new() }
    };
    proof {
        assert(first_kwarg(site.kwargs@, io@) == Some(k as int));
        assert(edit_view(e1) == detach_edit(*site, io@, required, pname@));
    }
    let mut edits: Vec<TextEdit> = Vec::new();
    edits.push(e1);
    let mut pruned: Vec<Vec<u8>> = Vec::new();
    let ghost one = edits@;
    proof {
        assert(edits_view(one) =~= seq![edit_view(e1)]);
    }
    if refs == 1 {
        proof {
            lemma_first_def_var_from(idx.net_defs@, variable@, 0);
        }
        let d = match find_def_var(idx, variable.as_slice()) {
            Some(d) => d,
            None => {
                return Err(EditError::NotNetDef);
            },
        };
        proof {
            assert(crate::index::def_fits(idx.net_defs@[d as int], content@.len()));
            assert(first_def_var(idx.net_defs@, variable@)->0 == d as int);
        }
        let de = delete_edit(content, idx.net_defs[d].stmt_start, idx.net_defs[d].stmt_end);
        edits.push(de);
        proof {
            crate::text::lemma_edits_view_push(one, de);
            assert(edits_view(edits@) =~= seq![edit_view(e1)] + seq![
                crate::writers::def_del(content@, *idx, first_def_var(idx.net_defs@, variable@)->0),
            ]);
        }
        pruned.push(name);
        proof {
            assert(crate::writers::views(pruned@) =~= seq![name@]);
        }
    } else {
        proof {
            assert(edits_view(edits@) =~= seq![edit_view(e1)] + Seq::<EditV>::empty());
            assert(crate::writers::views(pruned@) =~= Seq::<Seq<u8>>::empty());
        }
    }
    proof {
        let sr = spec_resolve_endpoint(*idx, *facts, instance@, pin@);
        assert(sr == Ok::<(int, Seq<u8>, PinView), EditError>(
            (i as int, io@, PinView::Def { variable: variable@, name: name@, refs: refs as nat }),
        ));
        assert(listed(facts.required_ios@, io@) == required);
        assert(placeholder_name(instance@, io@) == pname@);
    }
    let placeholder = if required {
        Some(pname)
    } else {
        None
    };
    match apply_edits(content, edits) {
        Some(t) => Ok((t, DisconnectResult { io, placeholder, pruned_defs: pruned })),
        None => Err(EditError::Overlap),
    }
}

// ---------------------------------------------------------------------------
// connect_pins
// ---------------------------------------------------------------------------

pub struct PinEndpoint {
    /// Top-level instance name in the target file.
    pub instance: Vec<u8>,
    /// Component pin name or io identifier.
    pub pin: Vec<u8>,
}

pub struct ConnectPinsRequest {
    pub a: PinEndpoint,
    pub b: PinEndpoint,
    /// Explicit name for a created net (default: pin-derived from `a`).
    pub net: Option<Vec<u8>>,
    /// Permit a net merge (both endpoints on different shared nets). When
    /// false, such a connect returns [`ConnectOutcome::NeedsMerge`] so the
    /// caller can confirm — never silently.
    pub allow_merge: bool,
}

pub enum ConnectOutcome {
    Applied {
        net: Vec<u8>,
        variable: Vec<u8>,
        created_def: bool,
        /// The pins were already on this net — nothing was written.
        already: bool,
        /// A merge happened: the net that disappeared.
        merged_from: Option<Vec<u8>>,
        /// Reference sites rewritten by the merge.
        moved_refs: usize,
        pruned_defs: Vec<Vec<u8>>,
    },
    NeedsMerge {
        /// The net that would disappear (b's side).
        from: Vec<u8>,
        into: Vec<u8>,
        /// How many reference sites would move.
        from_refs: usize,
    },
}

/// [`ConnectOutcome`] as values.
pub enum ConnectView {
    Applied {
        net: Seq<u8>,
        variable: Seq<u8>,
        created_def: bool,
        already: bool,
        merged_from: Option<Seq<u8>>,
        moved_refs: nat,
        pruned_defs: Seq<Seq<u8>>,
    },
    NeedsMerge { from: Seq<u8>, into: Seq<u8>, from_refs: nat },
}

impl View for ConnectOutcome {
    type V = ConnectView;

    open spec fn view(&self) -> ConnectView {
        match self {
            ConnectOutcome::Applied {
                net,
                variable,
                created_def,
                already,
                merged_from,
                moved_refs,
                pruned_defs,
            } => ConnectView::Applied {
                net: net@,
                variable: variable@,
                created_def: *created_def,
                already: *already,
                merged_from: opt_view(*merged_from),
                moved_refs: *moved_refs as nat,
                pruned_defs: crate::writers::views(pruned_defs@),
            },
            ConnectOutcome::NeedsMerge { from, into, from_refs } => ConnectView::NeedsMerge {
                from: from@,
                into: into@,
                from_refs: *from_refs as nat,
            },
        }
    }
}

pub open spec fn state_var(st: PinView) -> Seq<u8> {
    match st {
        PinView::Def { variable, .. } => variable,
        _ => Seq::empty(),
    }
}

pub open spec fn state_name(st: PinView) -> Seq<u8> {
    match st {
        PinView::Def { name, .. } => name,
        PinView::Placeholder { name } => name,
        _ => Seq::empty(),
    }
}

pub open spec fn state_refs(st: PinView) -> nat {
    match st {
        PinView::Def { refs, .. } => refs,
        _ => 0,
    }
}

/// How many ports the last build saw on the net named `name`.
pub open spec fn net_ports(sch: Option<&crate::model::SchematicDoc>, name: Seq<u8>) -> nat {
    match sch {
        Some(s) => match crate::model::net_index(s.nets@, name) {
            Some(i) => s.nets@[i].ports@.len(),
            None => 0,
        },
        None => 0,
    }
}

/// A pin on a net that something else uses too: read more than once in
/// the file, or spanning several ports in the last build (a net passed into
/// a submodule is read once here but reaches many pins).
pub open spec fn spec_shared(st: PinView, sch: Option<&crate::model::SchematicDoc>) -> bool {
    st is Def && (state_refs(st) > 1 || net_ports(sch, state_name(st)) > 1)
}

fn shared(st: &PinState, sch: Option<&crate::model::SchematicDoc>) -> (r: bool)
    ensures
        r == spec_shared(st@, sch),
{
    match st {
        PinState::Def { name, refs, .. } => {
            if *refs > 1 {
                return true;
            }
            match sch {
                Some(s) => match s.net(name.as_slice()) {
                    Some(i) => s.nets[i].ports.len() > 1,
                    None => false,
                },
                None => false,
            }
        },
        _ => false,
    }
}

/// Both pins already read the same net variable.
pub open spec fn same_def(sa: PinView, sb: PinView) -> bool {
    sa is Def && sb is Def && state_var(sa) == state_var(sb)
}

/// The edits of a merge of b's net into a's: every read of b's variable
/// renamed, b's definition deleted.
pub open spec fn merge_edits(c: Seq<u8>, idx: FileIndex, sa: PinView, sb: PinView) -> Seq<EditV> {
    let vb = state_var(sb);
    crate::writers::ref_edits(idx.ident_refs@, refs_of(idx.ident_refs@, vb), state_var(sa)).push(
        crate::writers::def_del(c, idx, first_def_var(idx.net_defs@, vb)->0),
    )
}

/// Connecting two pins on different shared nets: reported back unless
/// allowed; else b's net merges into a's.
pub open spec fn spec_merge(c: Seq<u8>, idx: FileIndex, sa: PinView, sb: PinView, allow: bool) -> Result<
    (Option<Seq<u8>>, ConnectView),
    EditError,
> {
    if !allow {
        Ok(
            (
                None,
                ConnectView::NeedsMerge {
                    from: state_name(sb),
                    into: state_name(sa),
                    from_refs: state_refs(sb),
                },
            ),
        )
    } else if listed(idx.nested_bindings@, state_var(sb)) {
        Err(EditError::Shadowed)
    } else {
        match spec_apply_edits(c, merge_edits(c, idx, sa, sb)) {
            None => Err(EditError::Overlap),
            Some(t) => Ok(
                (
                    Some(t),
                    ConnectView::Applied {
                        net: state_name(sa),
                        variable: state_var(sa),
                        created_def: false,
                        already: false,
                        merged_from: Some(state_name(sb)),
                        moved_refs: refs_of(idx.ident_refs@, state_var(sb)).len(),
                        pruned_defs: seq![state_name(sb)],
                    },
                ),
            ),
        }
    }
}

/// A net named deliberately, not `INSTANCE_IO`-shaped.
pub open spec fn deliberate(st: PinView, instance: Seq<u8>, io: Seq<u8>) -> bool {
    st is Def && state_name(st) != placeholder_name(instance, io)
}

/// The side whose net the connection keeps (`true` for a): a shared net
/// wins, then a deliberately named one, then a's; `None` when neither pin
/// reads a definition.
pub open spec fn target_side(
    sa: PinView,
    ea: Seq<u8>,
    ioa: Seq<u8>,
    sb: PinView,
    eb: Seq<u8>,
    iob: Seq<u8>,
    sch: Option<&crate::model::SchematicDoc>,
) -> Option<bool> {
    if spec_shared(sa, sch) {
        Some(true)
    } else if spec_shared(sb, sch) {
        Some(false)
    } else if deliberate(sa, ea, ioa) {
        Some(true)
    } else if deliberate(sb, eb, iob) {
        Some(false)
    } else if sa is Def {
        Some(true)
    } else if sb is Def {
        Some(false)
    } else {
        None
    }
}

/// The name of a net created for a connection: the requested one, else
/// a's placeholder name, else `A_IO`.
pub open spec fn new_net_name(req: ConnectPinsRequest, sa: PinView, ioa: Seq<u8>) -> Seq<u8> {
    match req.net {
        Some(n) => n@,
        None => match sa {
            PinView::Placeholder { name } => name,
            _ => placeholder_name(req.a.instance@, ioa),
        },
    }
}

pub open spec fn min_int(a: int, b: int) -> int {
    if a <= b {
        a
    } else {
        b
    }
}

/// The net a connection lands on: its name, its variable, whether it is
/// created, and the definition's insertion (when created).
pub open spec fn spec_choose_net(
    c: Seq<u8>,
    idx: FileIndex,
    ia: int,
    ioa: Seq<u8>,
    sa: PinView,
    ib: int,
    iob: Seq<u8>,
    sb: PinView,
    sch: Option<&crate::model::SchematicDoc>,
    req: ConnectPinsRequest,
) -> Result<(Seq<u8>, Seq<u8>, bool, Seq<EditV>), EditError> {
    match target_side(sa, req.a.instance@, ioa, sb, req.b.instance@, iob, sch) {
        Some(side) => {
            let st = if side {
                sa
            } else {
                sb
            };
            Ok((state_name(st), state_var(st), false, Seq::empty()))
        },
        None => {
            let name = new_net_name(req, sa, ioa);
            if !spec_valid_name(name) {
                Err(EditError::InvalidNetName)
            } else {
                let dn = defs_named(idx.net_defs@, name);
                if dn.len() > 0 {
                    let d = idx.net_defs@[dn[0] as int];
                    Ok((d.name@, d.variable@, false, Seq::empty()))
                } else {
                    let var = spec_net_variable(name);
                    if listed(idx.bound_idents@, var) {
                        Err(EditError::NameBound)
                    } else {
                        let before = min_int(
                            idx.calls@[ia].stmt_start as int,
                            idx.calls@[ib].stmt_start as int,
                        );
                        Ok(
                            (
                                name,
                                var,
                                true,
                                seq![def_insert(c, idx, before, var, "Net".spec_bytes(), name)],
                            ),
                        )
                    }
                }
            }
        },
    }
}

/// A pin already reading the target variable needs no edit.
pub open spec fn skips(st: PinView, tvar: Seq<u8>) -> bool {
    st is Def && state_var(st) == tvar
}

pub open spec fn endpoint_edits(site: CallSite, io: Seq<u8>, st: PinView, tvar: Seq<u8>) -> Seq<EditV> {
    if skips(st, tvar) {
        Seq::empty()
    } else {
        seq![kwarg_set(site, io, tvar)]
    }
}

pub open spec fn endpoint_old(site: CallSite, io: Seq<u8>, st: PinView, tvar: Seq<u8>) -> Option<Seq<u8>> {
    if skips(st, tvar) {
        None
    } else {
        kwarg_old_ident(site, io)
    }
}

/// The replaced identifiers with how often each was replaced, in byte
/// order.
pub open spec fn tally(oa: Option<Seq<u8>>, ob: Option<Seq<u8>>) -> Seq<(Seq<u8>, nat)> {
    match oa {
        Some(x) => match ob {
            Some(y) => if x == y {
                seq![(x, 2nat)]
            } else if crate::bytes::bytes_lt(x, y) {
                seq![(x, 1nat), (y, 1nat)]
            } else {
                seq![(y, 1nat), (x, 1nat)]
            },
            None => seq![(x, 1nat)],
        },
        None => match ob {
            Some(y) => seq![(y, 1nat)],
            None => Seq::empty(),
        },
    }
}

/// The definitions (by index, in tally order) that the replacements orphan.
pub open spec fn prunes(idx: FileIndex, t: Seq<(Seq<u8>, nat)>, tvar: Seq<u8>) -> Seq<int>
    decreases t.len(),
{
    if t.len() == 0 {
        Seq::empty()
    } else {
        let r = prunes(idx, t.drop_last(), tvar);
        match orphaned_def(idx, t.last().0, t.last().1, tvar) {
            Some(d) => r.push(d),
            None => r,
        }
    }
}

/// The non-merge connection: both pins pointed at the chosen net, and every
/// definition that orphans pruned.
pub open spec fn spec_connect_apply(
    c: Seq<u8>,
    idx: FileIndex,
    ia: int,
    ioa: Seq<u8>,
    sa: PinView,
    ib: int,
    iob: Seq<u8>,
    sb: PinView,
    sch: Option<&crate::model::SchematicDoc>,
    req: ConnectPinsRequest,
) -> Result<(Option<Seq<u8>>, ConnectView), EditError> {
    match spec_choose_net(c, idx, ia, ioa, sa, ib, iob, sb, sch, req) {
        Err(e) => Err(e),
        Ok((tname, tvar, created, d)) => {
            let site_a = idx.calls@[ia];
            let site_b = idx.calls@[ib];
            let t = tally(endpoint_old(site_a, ioa, sa, tvar), endpoint_old(site_b, iob, sb, tvar));
            let p = prunes(idx, t, tvar);
            let edits = d + endpoint_edits(site_a, ioa, sa, tvar) + endpoint_edits(
                site_b,
                iob,
                sb,
                tvar,
            ) + p.map_values(|k: int| crate::writers::def_del(c, idx, k));
            match spec_apply_edits(c, edits) {
                None => Err(EditError::Overlap),
                Some(text) => Ok(
                    (
                        Some(text),
                        ConnectView::Applied {
                            net: tname,
                            variable: tvar,
                            created_def: created,
                            already: false,
                            merged_from: None,
                            moved_refs: 0,
                            pruned_defs: p.map_values(|k: int| crate::writers::def_name(idx, k)),
                        },
                    ),
                ),
            }
        },
    }
}

/// What `connect_pins` does: the new text when something is written, and
/// the outcome; or why it refuses.
pub open spec fn spec_connect_pins(
    c: Seq<u8>,
    idx: FileIndex,
    facts_a: ModuleFacts,
    facts_b: ModuleFacts,
    sch: Option<&crate::model::SchematicDoc>,
    req: ConnectPinsRequest,
) -> Result<(Option<Seq<u8>>, ConnectView), EditError> {
    if !index_fits(idx, c.len()) {
        Err(EditError::IndexMismatch)
    } else if idx.error is Some {
        Err(EditError::Unparseable)
    } else {
        match spec_resolve_endpoint(idx, facts_a, req.a.instance@, req.a.pin@) {
            Err(e) => Err(e),
            Ok((ia, ioa, sa)) => match spec_resolve_endpoint(
                idx,
                facts_b,
                req.b.instance@,
                req.b.pin@,
            ) {
                Err(e) => Err(e),
                Ok((ib, iob, sb)) => if req.a.instance@ == req.b.instance@ && ioa == iob {
                    Err(EditError::SamePin)
                } else if same_def(sa, sb) {
                    Ok(
                        (
                            None,
                            ConnectView::Applied {
                                net: state_name(sa),
                                variable: state_var(sa),
                                created_def: false,
                                already: true,
                                merged_from: None,
                                moved_refs: 0,
                                pruned_defs: Seq::empty(),
                            },
                        ),
                    )
                } else if spec_shared(sa, sch) && spec_shared(sb, sch) {
                    spec_merge(c, idx, sa, sb, req.allow_merge)
                } else {
                    spec_connect_apply(c, idx, ia, ioa, sa, ib, iob, sb, sch, req)
                },
            },
        }
    }
}

pub fn placeholder_exec(instance: &[u8], io: &[u8]) -> (r: Vec<u8>)
    ensures
        r@ == placeholder_name(instance@, io@),
{
    let mut out = slice_copy(instance, 0, instance.len());
    push_all(&mut out, lit("_").as_slice());
    push_all(&mut out, io);
    out
}

fn deliberate_exec(st: &PinState, instance: &[u8], io: &[u8]) -> (r: bool)
    ensures
        r == deliberate(st@, instance@, io@),
{
    match st {
        PinState::Def { name, .. } => !bytes_eq(
            name.as_slice(),
            placeholder_exec(instance, io).as_slice(),
        ),
        _ => false,
    }
}

fn is_def(st: &PinState) -> (r: bool)
    ensures
        r == (st@ is Def),
{
    match st {
        PinState::Def { .. } => true,
        _ => false,
    }
}

/// The variable and name of a `Def` state.
fn def_parts(st: &PinState) -> (r: (Vec<u8>, Vec<u8>))
    requires
        st@ is Def,
    ensures
        r.0@ == state_var(st@),
        r.1@ == state_name(st@),
{
    match st {
        PinState::Def { variable, name, .. } => (copy(variable), copy(name)),
        _ => (Vec::new(), Vec::new()),
    }
}

fn skips_exec(st: &PinState, tvar: &[u8]) -> (r: bool)
    ensures
        r == skips(st@, tvar@),
{
    match st {
        PinState::Def { variable, .. } => bytes_eq(variable.as_slice(), tvar),
        _ => false,
    }
}

fn target_side_exec(
    sa: &PinState,
    ea: &[u8],
    ioa: &[u8],
    sb: &PinState,
    eb: &[u8],
    iob: &[u8],
    sch: Option<&crate::model::SchematicDoc>,
) -> (r: Option<bool>)
    ensures
        r == target_side(sa@, ea@, ioa@, sb@, eb@, iob@, sch),
{
    if shared(sa, sch) {
        Some(true)
    } else if shared(sb, sch) {
        Some(false)
    } else if deliberate_exec(sa, ea, ioa) {
        Some(true)
    } else if deliberate_exec(sb, eb, iob) {
        Some(false)
    } else if is_def(sa) {
        Some(true)
    } else if is_def(sb) {
        Some(false)
    } else {
        None
    }
}

fn choose_net(
    content: &[u8],
    idx: &FileIndex,
    ia: usize,
    ioa: &[u8],
    sa: &PinState,
    ib: usize,
    iob: &[u8],
    sb: &PinState,
    sch: Option<&crate::model::SchematicDoc>,
    req: &ConnectPinsRequest,
) -> (r: Result<(Vec<u8>, Vec<u8>, bool, Vec<TextEdit>), EditError>)
    requires
        index_fits(*idx, content@.len()),
        ia < idx.calls@.len(),
        ib < idx.calls@.len(),
    ensures
        r matches Ok((n, v, cr, d)) ==> spec_choose_net(
            content@,
            *idx,
            ia as int,
            ioa@,
            sa@,
            ib as int,
            iob@,
            sb@,
            sch,
            *req,
        ) == Ok::<(Seq<u8>, Seq<u8>, bool, Seq<EditV>), EditError>((n@, v@, cr, edits_view(d@)))
            && crate::text::edits_in_bounds(edits_view(d@), content@.len()),
        r matches Err(e) ==> spec_choose_net(
            content@,
            *idx,
            ia as int,
            ioa@,
            sa@,
            ib as int,
            iob@,
            sb@,
            sch,
            *req,
        ) == Err::<(Seq<u8>, Seq<u8>, bool, Seq<EditV>), EditError>(e),
{
    let none: Vec<TextEdit> = Vec::new();
    proof {
        assert(edits_view(none@) =~= Seq::<EditV>::empty());
    }
    match target_side_exec(
        sa,
        req.a.instance.as_slice(),
        ioa,
        sb,
        req.b.instance.as_slice(),
        iob,
        sch,
    ) {
        Some(side) => {
            let (v, n) = if side {
                def_parts(sa)
            } else {
                def_parts(sb)
            };
            return Ok((n, v, false, none));
        },
        None => {},
    }
    let name = match &req.net {
        Some(n) => copy(n),
        None => match sa {
            PinState::Placeholder { name } => copy(name),
            _ => placeholder_exec(req.a.instance.as_slice(), ioa),
        },
    };
    if !valid_instance_name(name.as_slice()) {
        return Err(EditError::InvalidNetName);
    }
    let dn = find_defs_named(idx, name.as_slice());
    let nd: usize = idx.net_defs.len();
    proof {
        lemma_defs_named(idx.net_defs@, name@);
    }
    if dn.len() > 0 {
        let d = &idx.net_defs[dn[0]];
        return Ok((copy(&d.name), copy(&d.variable), false, none));
    }
    let var = net_variable(name.as_slice());
    if is_bound(idx, var.as_slice()) {
        return Err(EditError::NameBound);
    }
    let sa_start = idx.calls[ia].stmt_start;
    let sb_start = idx.calls[ib].stmt_start;
    let before = if sa_start <= sb_start {
        sa_start
    } else {
        sb_start
    };
    let e = def_insert_edit(content, idx, before, var.as_slice(), lit("Net").as_slice(), name.as_slice());
    let mut d: Vec<TextEdit> = Vec::new();
    d.push(e);
    proof {
        assert(edits_view(d@) =~= seq![edit_view(e)]);
    }
    Ok((name, var, true, d))
}

/// The replaced identifiers as values.
pub open spec fn tally_view(t: Seq<(Vec<u8>, usize)>) -> Seq<(Seq<u8>, nat)> {
    t.map_values(|p: (Vec<u8>, usize)| (p.0@, p.1 as nat))
}

fn tally_exec(oa: Option<Vec<u8>>, ob: Option<Vec<u8>>) -> (r: Vec<(Vec<u8>, usize)>)
    ensures
        tally_view(r@) == tally(opt_view(oa), opt_view(ob)),
{
    let mut out: Vec<(Vec<u8>, usize)> = Vec::new();
    match (oa, ob) {
        (Some(x), Some(y)) => {
            if bytes_eq(x.as_slice(), y.as_slice()) {
                out.push((x, 2));
            } else if crate::bytes::lt_bytes(x.as_slice(), y.as_slice()) {
                out.push((x, 1));
                out.push((y, 1));
            } else {
                out.push((y, 1));
                out.push((x, 1));
            }
        },
        (Some(x), None) => {
            out.push((x, 1));
        },
        (None, Some(y)) => {
            out.push((y, 1));
        },
        (None, None) => {},
    }
    assert(tally_view(out@) =~= tally(opt_view(oa), opt_view(ob)));
    out
}

fn connect_merge(content: &[u8], idx: &FileIndex, sa: &PinState, sb: &PinState, allow: bool) -> (r:
    Result<(Option<Vec<u8>>, ConnectOutcome), EditError>)
    requires
        index_fits(*idx, content@.len()),
        sa@ is Def,
        sb@ is Def,
        first_def_var(idx.net_defs@, state_var(sb@)) is Some,
    ensures
        r matches Ok((t, o)) ==> spec_merge(content@, *idx, sa@, sb@, allow) == Ok::<
            (Option<Seq<u8>>, ConnectView),
            EditError,
        >((opt_view(t), o@)),
        r matches Err(e) ==> spec_merge(content@, *idx, sa@, sb@, allow) == Err::<
            (Option<Seq<u8>>, ConnectView),
            EditError,
        >(e),
{
    let (va, na) = def_parts(sa);
    let (vb, nb) = def_parts(sb);
    if !allow {
        let rb = match sb {
            PinState::Def { refs, .. } => *refs,
            _ => 0,
        };
        return Ok((None, ConnectOutcome::NeedsMerge { from: nb, into: na, from_refs: rb }));
    }
    if crate::index::is_shadowed(idx, vb.as_slice()) {
        return Err(EditError::Shadowed);
    }
    let nr: usize = idx.ident_refs.len();
    proof {
        crate::index::lemma_refs_of(idx.ident_refs@, vb@);
    }
    let refs = find_refs(idx, vb.as_slice());
    let mut edits: Vec<TextEdit> = Vec::new();
    let mut k: usize = 0;
    proof {
        assert(edits_view(edits@) =~= crate::writers::ref_edits(
            idx.ident_refs@,
            refs@.take(0),
            va@,
        ));
    }
    while k < refs.len()
        invariant
            k <= refs@.len(),
            refs@ == refs_of(idx.ident_refs@, vb@),
            forall|j: int| 0 <= j < refs@.len() ==> (#[trigger] refs@[j]) < idx.ident_refs@.len(),
            index_fits(*idx, content@.len()),
            edits_view(edits@) == crate::writers::ref_edits(
                idx.ident_refs@,
                refs@.take(k as int),
                va@,
            ),
            crate::text::edits_in_bounds(edits_view(edits@), content@.len()),
        decreases refs.len() - k,
    {
        let rk = refs[k];
        let e = TextEdit {
            start: idx.ident_refs[rk].start,
            end: idx.ident_refs[rk].end,
            text: copy(&va),
        };
        let ghost old_edits = edits@;
        edits.push(e);
        proof {
            assert(crate::index::span_ok(
                idx.ident_refs@[rk as int].start,
                idx.ident_refs@[rk as int].end,
                content@.len(),
            ));
            assert(refs@.take(k + 1) =~= refs@.take(k as int).push(rk));
            assert(crate::writers::ref_edits(idx.ident_refs@, refs@.take(k + 1), va@)
                =~= crate::writers::ref_edits(idx.ident_refs@, refs@.take(k as int), va@).push(
                edit_view(e),
            ));
            crate::text::lemma_edits_view_push(old_edits, e);
            crate::text::lemma_in_bounds_push(edits_view(old_edits), edit_view(e), content@.len());
        }
        k = k + 1;
    }
    assert(refs@.take(refs@.len() as int) =~= refs@);
    proof {
        lemma_first_def_var_from(idx.net_defs@, vb@, 0);
    }
    let d = match find_def_var(idx, vb.as_slice()) {
        Some(d) => d,
        None => return Err(EditError::NotNetDef),
    };
    proof {
        assert(crate::index::def_fits(idx.net_defs@[d as int], content@.len()));
    }
    let de = delete_edit(content, idx.net_defs[d].stmt_start, idx.net_defs[d].stmt_end);
    let ghost before = edits@;
    edits.push(de);
    proof {
        crate::text::lemma_edits_view_push(before, de);
        crate::text::lemma_in_bounds_push(edits_view(before), edit_view(de), content@.len());
        assert(edits_view(edits@) == merge_edits(content@, *idx, sa@, sb@));
    }
    let moved = refs.len();
    let mut pruned: Vec<Vec<u8>> = Vec::new();
    pruned.push(copy(&nb));
    proof {
        assert(crate::writers::views(pruned@) =~= seq![nb@]);
    }
    match apply_edits(content, edits) {
        Some(t) => Ok(
            (
                Some(t),
                ConnectOutcome::Applied {
                    net: na,
                    variable: va,
                    created_def: false,
                    already: false,
                    merged_from: Some(nb),
                    moved_refs: moved,
                    pruned_defs: pruned,
                },
            ),
        ),
        None => Err(EditError::Overlap),
    }
}

/// The compound wiring edit: choose or create the shared net, point both
/// pin kwargs at it, prune what that orphans — one write. A connect that
/// would merge two shared nets needs `allow_merge` and is otherwise
/// reported back for confirmation. `sch` (the last good build) ranks
/// connectedness by real port counts; `facts_a` and `facts_b` describe the
/// modules the two instances' calls instantiate.
fn connect_pins_unchecked(
    content: &[u8],
    idx: &FileIndex,
    facts_a: &ModuleFacts,
    facts_b: &ModuleFacts,
    sch: Option<&crate::model::SchematicDoc>,
    req: &ConnectPinsRequest,
) -> (r: Result<(Option<Vec<u8>>, ConnectOutcome), EditError>)
    ensures
        r matches Ok((t, o)) ==> spec_connect_pins(content@, *idx, *facts_a, *facts_b, sch, *req)
            == Ok::<(Option<Seq<u8>>, ConnectView), EditError>((opt_view(t), o@)),
        r matches Err(e) ==> spec_connect_pins(content@, *idx, *facts_a, *facts_b, sch, *req)
            == Err::<(Option<Seq<u8>>, ConnectView), EditError>(e),
{
    if !index_fits_len(idx, content.len()) {
        return Err(EditError::IndexMismatch);
    }
    if idx.error.is_some() {
        return Err(EditError::Unparseable);
    }
    let (ia, ioa, sa) = match resolve_endpoint(
        idx,
        facts_a,
        req.a.instance.as_slice(),
        req.a.pin.as_slice(),
    ) {
        Ok(x) => x,
        Err(e) => return Err(e),
    };
    let (ib, iob, sb) = match resolve_endpoint(
        idx,
        facts_b,
        req.b.instance.as_slice(),
        req.b.pin.as_slice(),
    ) {
        Ok(x) => x,
        Err(e) => return Err(e),
    };
    if bytes_eq(req.a.instance.as_slice(), req.b.instance.as_slice()) && bytes_eq(
        ioa.as_slice(),
        iob.as_slice(),
    ) {
        return Err(EditError::SamePin);
    }
    if is_def(&sa) && is_def(&sb) {
        let (va, na) = def_parts(&sa);
        let (vb, nb) = def_parts(&sb);
        if bytes_eq(va.as_slice(), vb.as_slice()) {
            let none: Vec<Vec<u8>> = Vec::new();
            proof {
                assert(crate::writers::views(none@) =~= Seq::<Seq<u8>>::empty());
            }
            return Ok(
                (
                    None,
                    ConnectOutcome::Applied {
                        net: na,
                        variable: va,
                        created_def: false,
                        already: true,
                        merged_from: None,
                        moved_refs: 0,
                        pruned_defs: none,
                    },
                ),
            );
        }
    }
    if shared(&sa, sch) && shared(&sb, sch) {
        proof {
            let site_b = idx.calls@[ib as int];
            assert(spec_pin_state(*idx, site_b, iob@) == Ok::<PinView, EditError>(sb@));
            crate::writers::lemma_first_kwarg_from(site_b.kwargs@, iob@, 0);
        }
        return connect_merge(content, idx, &sa, &sb, req.allow_merge);
    }
    connect_apply(content, idx, ia, &ioa, &sa, ib, &iob, &sb, sch, req)
}

fn connect_apply(
    content: &[u8],
    idx: &FileIndex,
    ia: usize,
    ioa: &Vec<u8>,
    sa: &PinState,
    ib: usize,
    iob: &Vec<u8>,
    sb: &PinState,
    sch: Option<&crate::model::SchematicDoc>,
    req: &ConnectPinsRequest,
) -> (r: Result<(Option<Vec<u8>>, ConnectOutcome), EditError>)
    requires
        index_fits(*idx, content@.len()),
        ia < idx.calls@.len(),
        ib < idx.calls@.len(),
    ensures
        r matches Ok((t, o)) ==> spec_connect_apply(
            content@,
            *idx,
            ia as int,
            ioa@,
            sa@,
            ib as int,
            iob@,
            sb@,
            sch,
            *req,
        ) == Ok::<(Option<Seq<u8>>, ConnectView), EditError>((opt_view(t), o@)),
        r matches Err(e) ==> spec_connect_apply(
            content@,
            *idx,
            ia as int,
            ioa@,
            sa@,
            ib as int,
            iob@,
            sb@,
            sch,
            *req,
        ) == Err::<(Option<Seq<u8>>, ConnectView), EditError>(e),
{
    let (tname, tvar, created, mut edits) = match choose_net(
        content,
        idx,
        ia,
        ioa.as_slice(),
        sa,
        ib,
        iob.as_slice(),
        sb,
        sch,
        req,
    ) {
        Ok(x) => x,
        Err(e) => return Err(e),
    };
    let ghost d = edits_view(edits@);
    let site_a = &idx.calls[ia];
    let site_b = &idx.calls[ib];
    proof {
        assert(crate::index::call_fits(idx.calls@[ia as int], content@.len()));
        assert(crate::index::call_fits(idx.calls@[ib as int], content@.len()));
        lemma_kwarg_set_bounds(*site_a, ioa@, tvar@, content@.len());
        lemma_kwarg_set_bounds(*site_b, iob@, tvar@, content@.len());
    }
    let mut oa: Option<Vec<u8>> = None;
    if !skips_exec(sa, tvar.as_slice()) {
        let (e, o) = kwarg_set_edit(site_a, ioa.as_slice(), tvar.as_slice());
        let ghost before = edits@;
        edits.push(e);
        oa = o;
        proof {
            crate::text::lemma_edits_view_push(before, e);
            crate::text::lemma_in_bounds_push(edits_view(before), edit_view(e), content@.len());
            assert(edits_view(edits@) =~= d + endpoint_edits(*site_a, ioa@, sa@, tvar@));
        }
    } else {
        assert(edits_view(edits@) =~= d + endpoint_edits(*site_a, ioa@, sa@, tvar@));
    }
    let ghost da = edits_view(edits@);
    let mut ob: Option<Vec<u8>> = None;
    if !skips_exec(sb, tvar.as_slice()) {
        let (e, o) = kwarg_set_edit(site_b, iob.as_slice(), tvar.as_slice());
        let ghost before = edits@;
        edits.push(e);
        ob = o;
        proof {
            crate::text::lemma_edits_view_push(before, e);
            crate::text::lemma_in_bounds_push(edits_view(before), edit_view(e), content@.len());
            assert(edits_view(edits@) =~= da + endpoint_edits(*site_b, iob@, sb@, tvar@));
        }
    } else {
        assert(edits_view(edits@) =~= da + endpoint_edits(*site_b, iob@, sb@, tvar@));
    }
    proof {
        assert(opt_view(oa) == endpoint_old(*site_a, ioa@, sa@, tvar@));
        assert(opt_view(ob) == endpoint_old(*site_b, iob@, sb@, tvar@));
    }
    let t = tally_exec(oa, ob);
    let ghost tv = tally_view(t@);
    let ghost base = edits_view(edits@);
    let mut pruned: Vec<Vec<u8>> = Vec::new();
    let mut k: usize = 0;
    proof {
        assert(tv.take(0) =~= Seq::<(Seq<u8>, nat)>::empty());
        assert(base + prunes(*idx, tv.take(0), tvar@).map_values(
            |i: int| crate::writers::def_del(content@, *idx, i),
        ) =~= base);
        assert(crate::writers::views(pruned@) =~= prunes(*idx, tv.take(0), tvar@).map_values(
            |i: int| crate::writers::def_name(*idx, i),
        ));
    }
    while k < t.len()
        invariant
            k <= t@.len(),
            tv == tally_view(t@),
            index_fits(*idx, content@.len()),
            edits_view(edits@) == base + prunes(*idx, tv.take(k as int), tvar@).map_values(
                |i: int| crate::writers::def_del(content@, *idx, i),
            ),
            crate::writers::views(pruned@) == prunes(*idx, tv.take(k as int), tvar@).map_values(
                |i: int| crate::writers::def_name(*idx, i),
            ),
            crate::text::edits_in_bounds(edits_view(edits@), content@.len()),
        decreases t.len() - k,
    {
        let ghost pk = prunes(*idx, tv.take(k as int), tvar@);
        proof {
            assert(tv.take(k + 1).drop_last() =~= tv.take(k as int));
            assert(tv.take(k + 1).last() == (t@[k as int].0@, t@[k as int].1 as nat));
        }
        match orphaned_def_exec(idx, t[k].0.as_slice(), t[k].1, tvar.as_slice()) {
            Some(dd) => {
                proof {
                    assert(crate::index::def_fits(idx.net_defs@[dd as int], content@.len()));
                }
                let de = delete_edit(content, idx.net_defs[dd].stmt_start, idx.net_defs[dd].stmt_end);
                let ghost before = edits@;
                let ghost before_p = pruned@;
                edits.push(de);
                let nm = copy(&idx.net_defs[dd].name);
                pruned.push(nm);
                proof {
                    assert(prunes(*idx, tv.take(k + 1), tvar@) == pk.push(dd as int));
                    crate::text::lemma_edits_view_push(before, de);
                    crate::text::lemma_in_bounds_push(edits_view(before), edit_view(de), content@.len());
                    crate::text::lemma_map_push(
                        pk,
                        dd as int,
                        |i: int| crate::writers::def_del(content@, *idx, i),
                    );
                    crate::text::lemma_map_push(
                        pk,
                        dd as int,
                        |i: int| crate::writers::def_name(*idx, i),
                    );
                    crate::text::lemma_append_push(
                        base,
                        pk.map_values(|i: int| crate::writers::def_del(content@, *idx, i)),
                        edit_view(de),
                    );
                    crate::text::lemma_map_push(before_p, nm, |x: Vec<u8>| x@);
                }
            },
            None => {
                assert(prunes(*idx, tv.take(k + 1), tvar@) == pk);
            },
        }
        k = k + 1;
    }
    proof {
        assert(tv.take(tv.len() as int) =~= tv);
        let p = prunes(*idx, tv, tvar@);
        assert(edits_view(edits@) =~= d + endpoint_edits(*site_a, ioa@, sa@, tvar@)
            + endpoint_edits(*site_b, iob@, sb@, tvar@) + p.map_values(
            |i: int| crate::writers::def_del(content@, *idx, i),
        ));
    }
    match apply_edits(content, edits) {
        Some(text) => Ok(
            (
                Some(text),
                ConnectOutcome::Applied {
                    net: tname,
                    variable: tvar,
                    created_def: created,
                    already: false,
                    merged_from: None,
                    moved_refs: 0,
                    pruned_defs: pruned,
                },
            ),
        ),
        None => Err(EditError::Overlap),
    }
}

// ---------------------------------------------------------------------------
// Port lookup and endpoint translation
// ---------------------------------------------------------------------------

/// The kwarg carries the net `net`: it reads a variable that some
/// definition of that name binds, or it is an inline placeholder of it.
pub open spec fn kwarg_carries(idx: FileIndex, kw: crate::index::Kwarg, net: Seq<u8>) -> bool {
    (kw.value_ident matches Some(v) && exists|d: int|
        0 <= d < idx.net_defs@.len() && (#[trigger] idx.net_defs@[d]).variable@ == v@
            && idx.net_defs@[d].name@ == net) || (kw.value_net_literal matches Some(l) && l@ == net)
}

/// The first kwarg, at or after `from`, that carries `net`.
pub open spec fn first_carrying(
    idx: FileIndex,
    kws: Seq<crate::index::Kwarg>,
    net: Seq<u8>,
    from: int,
) -> Option<int>
    decreases kws.len() - from,
{
    if from < 0 || from >= kws.len() {
        None
    } else if kwarg_carries(idx, kws[from], net) {
        Some(from)
    } else {
        first_carrying(idx, kws, net, from + 1)
    }
}

/// Which port of `instance`'s call carries `net`: `None` when there is no
/// unique call or no kwarg carries it.
pub open spec fn spec_port_for_net(idx: FileIndex, instance: Seq<u8>, net: Seq<u8>) -> Result<
    Option<Seq<u8>>,
    EditError,
> {
    if idx.error is Some {
        Err(EditError::Unparseable)
    } else {
        match spec_unique_call(idx, instance) {
            Err(_) => Ok(None),
            Ok(i) => match first_carrying(idx, idx.calls@[i].kwargs@, net, 0) {
                Some(k) => Ok(Some(idx.calls@[i].kwargs@[k].name@)),
                None => Ok(None),
            },
        }
    }
}

fn def_binds(idx: &FileIndex, var: &[u8], net: &[u8]) -> (r: bool)
    ensures
        r == exists|d: int|
            0 <= d < idx.net_defs@.len() && (#[trigger] idx.net_defs@[d]).variable@ == var@
                && idx.net_defs@[d].name@ == net@,
{
    let mut d: usize = 0;
    while d < idx.net_defs.len()
        invariant
            d <= idx.net_defs@.len(),
            forall|j: int|
                0 <= j < d ==> !((#[trigger] idx.net_defs@[j]).variable@ == var@
                    && idx.net_defs@[j].name@ == net@),
        decreases idx.net_defs.len() - d,
    {
        if bytes_eq(idx.net_defs[d].variable.as_slice(), var) && bytes_eq(
            idx.net_defs[d].name.as_slice(),
            net,
        ) {
            return true;
        }
        d = d + 1;
    }
    false
}

/// Which port of `instance`'s call (in this file) carries `net_name`? An
/// identifier resolves through the file's net definitions, an inline
/// `Net("…")` placeholder matches by its literal.
pub fn port_for_net(idx: &FileIndex, instance: &[u8], net_name: &[u8]) -> (r: Result<
    Option<Vec<u8>>,
    EditError,
>)
    ensures
        r matches Ok(o) ==> spec_port_for_net(*idx, instance@, net_name@) == Ok::<
            Option<Seq<u8>>,
            EditError,
        >(opt_view(o)),
        r matches Err(e) ==> spec_port_for_net(*idx, instance@, net_name@) == Err::<
            Option<Seq<u8>>,
            EditError,
        >(e),
{
    if idx.error.is_some() {
        return Err(EditError::Unparseable);
    }
    let i = match unique_call(idx, instance) {
        Ok(i) => i,
        Err(_) => return Ok(None),
    };
    let kws = &idx.calls[i].kwargs;
    let mut k: usize = 0;
    while k < kws.len()
        invariant
            k <= kws@.len(),
            i < idx.calls@.len(),
            idx.error is None,
            spec_unique_call(*idx, instance@) == Ok::<int, EditError>(i as int),
            kws@ == idx.calls@[i as int].kwargs@,
            first_carrying(*idx, kws@, net_name@, 0) == first_carrying(
                *idx,
                kws@,
                net_name@,
                k as int,
            ),
        decreases kws.len() - k,
    {
        let kw = &kws[k];
        let by_def = match &kw.value_ident {
            Some(v) => def_binds(idx, v.as_slice(), net_name),
            None => false,
        };
        let by_literal = match &kw.value_net_literal {
            Some(l) => bytes_eq(l.as_slice(), net_name),
            None => false,
        };
        if by_def || by_literal {
            assert(kwarg_carries(*idx, kws@[k as int], net_name@));
            assert(first_carrying(*idx, kws@, net_name@, k as int) == Some(k as int));
            return Ok(Some(copy(&kw.name)));
        }
        k = k + 1;
    }
    Ok(None)
}

/// The board-level instance of a dotted path: the segment after `root.`.
pub open spec fn top_segment(path: Seq<u8>) -> Option<Seq<u8>> {
    if crate::bytes::spec_starts_with(path, "root.".spec_bytes()) {
        let rest = path.subrange("root.".spec_bytes().len() as int, path.len() as int);
        match crate::bytes::spec_find(rest, seq![46u8]) {
            Some(j) => Some(rest.subrange(0, j)),
            None => Some(rest),
        }
    } else {
        None
    }
}

fn top_segment_exec(path: &[u8]) -> (r: Option<Vec<u8>>)
    ensures
        r matches Some(v) ==> top_segment(path@) == Some(v@),
        r is None ==> top_segment(path@) is None,
{
    let pre = lit("root.");
    if !crate::bytes::starts_with(path, pre.as_slice()) {
        return None;
    }
    let rest = slice_copy(path, pre.len(), path.len());
    let mut dot: Vec<u8> = Vec::new();
    dot.push(46u8);
    proof {
        assert(dot@ =~= seq![46u8]);
        crate::bytes::lemma_find_from(rest@, dot@, 0);
    }
    match crate::bytes::find(rest.as_slice(), dot.as_slice()) {
        Some(j) => Some(slice_copy(rest.as_slice(), 0, j)),
        None => Some(rest),
    }
}

/// The connected net of pin `pin` of the instance at `path`.
pub open spec fn pin_net(sch: crate::model::SchematicDoc, path: Seq<u8>, pin: Seq<u8>) -> Option<Seq<u8>> {
    match crate::model::instance_index(sch.instances@, path) {
        Some(i) => match first_pin(sch.instances@[i].pins@, pin, 0) {
            Some(p) => opt_view(sch.instances@[i].pins@[p].net),
            None => None,
        },
        None => None,
    }
}

/// The first pin at or after `from` named `name`.
pub open spec fn first_pin(pins: Seq<crate::model::PinDoc>, name: Seq<u8>, from: int) -> Option<int>
    decreases pins.len() - from,
{
    if from < 0 || from >= pins.len() {
        None
    } else if pins[from].name@ == name {
        Some(from)
    } else {
        first_pin(pins, name, from + 1)
    }
}

fn find_pin(pins: &Vec<crate::model::PinDoc>, name: &[u8]) -> (r: Option<usize>)
    ensures
        r matches Some(p) ==> first_pin(pins@, name@, 0) == Some(p as int) && p < pins@.len(),
        r is None ==> first_pin(pins@, name@, 0) is None,
{
    let mut p: usize = 0;
    while p < pins.len()
        invariant
            p <= pins@.len(),
            first_pin(pins@, name@, 0) == first_pin(pins@, name@, p as int),
        decreases pins.len() - p,
    {
        if bytes_eq(pins[p].name.as_slice(), name) {
            return Some(p);
        }
        p = p + 1;
    }
    None
}

/// What `translate_endpoint_via_port` answers: the (board instance, port)
/// endpoint through which the inner pin's net flows out, if any.
pub open spec fn spec_translate_endpoint(
    sch: crate::model::SchematicDoc,
    idx: FileIndex,
    path: Seq<u8>,
    pin: Seq<u8>,
) -> Result<Option<(Seq<u8>, Seq<u8>)>, EditError> {
    match pin_net(sch, path, pin) {
        None => Ok(None),
        Some(net) => match top_segment(path) {
            None => Ok(None),
            Some(top) => match spec_port_for_net(idx, top, net) {
                Err(e) => Err(e),
                Ok(None) => Ok(None),
                Ok(Some(port)) => Ok(Some((top, port))),
            },
        },
    }
}

/// Wire-to-inner-pin, resolved the way a person means it: a pin deep inside
/// a module sits on some net; when that net flows out through one of the
/// module's ports, the board-level endpoint is (module instance, port). `None`
/// means the net stays internal to the module. `idx` indexes the entry file.
pub fn translate_endpoint_via_port(
    sch: &crate::model::SchematicDoc,
    idx: &FileIndex,
    path: &[u8],
    pin: &[u8],
) -> (r: Result<Option<PinEndpoint>, EditError>)
    ensures
        r matches Ok(Some(ep)) ==> spec_translate_endpoint(*sch, *idx, path@, pin@) == Ok::<
            Option<(Seq<u8>, Seq<u8>)>,
            EditError,
        >(Some((ep.instance@, ep.pin@))),
        r matches Ok(None) ==> spec_translate_endpoint(*sch, *idx, path@, pin@) == Ok::<
            Option<(Seq<u8>, Seq<u8>)>,
            EditError,
        >(None),
        r matches Err(e) ==> spec_translate_endpoint(*sch, *idx, path@, pin@) == Err::<
            Option<(Seq<u8>, Seq<u8>)>,
            EditError,
        >(e),
{
    let i = match sch.instance(path) {
        Some(i) => i,
        None => return Ok(None),
    };
    let pins = &sch.instances[i].pins;
    let p = match find_pin(pins, pin) {
        Some(p) => p,
        None => return Ok(None),
    };
    let net = match &pins[p].net {
        Some(n) => n,
        None => return Ok(None),
    };
    let top = match top_segment_exec(path) {
        Some(t) => t,
        None => return Ok(None),
    };
    match port_for_net(idx, top.as_slice(), net.as_slice()) {
        Err(e) => Err(e),
        Ok(None) => Ok(None),
        Ok(Some(port)) => Ok(Some(PinEndpoint { instance: top, pin: port })),
    }
}

proof fn lemma_root_prefix()
    ensures
        "root.".spec_bytes() =~= seq![114u8, 111u8, 111u8, 116u8, 46u8],
{
    reveal_strlit("root.");
    broadcast use vstd::string::is_ascii_spec_bytes;

    assert(vstd::string::is_ascii("root."));
}

/// The board-level instance of `root.<s><tail>` is `s` itself, whenever `s`
/// holds no dot and `tail` is empty or opens a further segment: the instance
/// is the first segment after `root`, never a deeper one.
pub proof fn law_top_segment_is_first_segment(s: Seq<u8>, tail: Seq<u8>)
    requires
        !s.contains(46u8),
        tail.len() == 0 || tail[0] == 46u8,
    ensures
        top_segment("root.".spec_bytes() + s + tail) == Some(s),
{
    lemma_root_prefix();
    let r = "root.".spec_bytes();
    let path = r + s + tail;
    let dot: Seq<u8> = seq![46u8];
    assert(path.subrange(0, r.len() as int) =~= r);
    let rest = path.subrange(r.len() as int, path.len() as int);
    assert(rest =~= s + tail);
    crate::bytes::lemma_find_from(rest, dot, 0);
    assert forall|j: int| 0 <= j < s.len() implies !crate::bytes::occurs_at(rest, dot, j) by {
        assert(rest[j] == s[j]);
        if crate::bytes::occurs_at(rest, dot, j) {
            assert(rest.subrange(j, j + 1)[0] == dot[0]);
        }
    }
    if tail.len() == 0 {
        assert(rest =~= s);
        assert forall|j: int| 0 <= j implies !crate::bytes::occurs_at(rest, dot, j) by {
            if j >= s.len() {
            }
        }
    } else {
        assert(rest.subrange(s.len() as int, s.len() + 1int) =~= dot);
        assert(crate::bytes::occurs_at(rest, dot, s.len() as int));
        assert(rest.subrange(0, s.len() as int) =~= s);
    }
}

/// A path that does not start with `root.` has no board-level instance.
pub proof fn law_top_segment_needs_root(path: Seq<u8>)
    requires
        !crate::bytes::spec_starts_with(path, "root.".spec_bytes()),
    ensures
        top_segment(path) is None,
{
}

/// Whatever `translate_endpoint_via_port` answers with, its board instance is
/// the first segment of the inner pin's path after `root`: it holds no dot,
/// and the path is `root.` and that instance, then the end or a dot.
pub proof fn law_translated_instance_is_first_segment(
    sch: crate::model::SchematicDoc,
    idx: FileIndex,
    path: Seq<u8>,
    pin: Seq<u8>,
)
    ensures
        spec_translate_endpoint(sch, idx, path, pin) matches Ok(Some((inst, _port))) ==> {
            let head = "root.".spec_bytes() + inst;
            &&& !inst.contains(46u8)
            &&& crate::bytes::spec_starts_with(path, head)
            &&& (path.len() == head.len() || path[head.len() as int] == 46u8)
        },
{
    lemma_root_prefix();
    let r = "root.".spec_bytes();
    let dot: Seq<u8> = seq![46u8];
    if let Ok(Some((inst, _port))) = spec_translate_endpoint(sch, idx, path, pin) {
        assert(crate::bytes::spec_starts_with(path, r));
        let rest = path.subrange(r.len() as int, path.len() as int);
        crate::bytes::lemma_find_from(rest, dot, 0);
        let head = r + inst;
        match crate::bytes::spec_find(rest, dot) {
            Some(j) => {
                assert(inst =~= rest.subrange(0, j));
                assert forall|k: int| 0 <= k < inst.len() implies inst[k] != 46u8 by {
                    if inst[k] == 46u8 {
                        assert(rest.subrange(k, k + 1) =~= dot);
                        assert(crate::bytes::occurs_at(rest, dot, k));
                    }
                }
                assert(path.subrange(0, head.len() as int) =~= head);
                assert(rest.subrange(j, j + 1)[0] == 46u8);
                assert(path[head.len() as int] == rest[j]);
            },
            None => {
                assert(inst =~= rest);
                assert forall|k: int| 0 <= k < inst.len() implies inst[k] != 46u8 by {
                    if inst[k] == 46u8 {
                        assert(rest.subrange(k, k + 1) =~= dot);
                        assert(crate::bytes::occurs_at(rest, dot, k));
                    }
                }
                assert(path.subrange(0, head.len() as int) =~= head);
            },
        }
    }
}

/// `key` is a symbol position of the net `net`: `NET` itself or `NET.`
/// followed by digits only.
pub open spec fn net_symbol_key(key: Seq<u8>, net: Seq<u8>) -> bool {
    key == net || (key.len() > net.len() && key.subrange(0, net.len() as int) == net
        && key[net.len() as int] == 46u8 && forall|j: int|
        net.len() < j < key.len() ==> crate::names::is_ascii_digit(#[trigger] key[j]))
}

/// The `# pcb:sch` keys of a merged-away net's symbols, in input order.
pub open spec fn spec_net_symbol_keys(keys: Seq<Vec<u8>>, net: Seq<u8>) -> Seq<Seq<u8>>
    decreases keys.len(),
{
    if keys.len() == 0 {
        Seq::empty()
    } else {
        let r = spec_net_symbol_keys(keys.drop_last(), net);
        if net_symbol_key(keys.last()@, net) {
            r.push(keys.last()@)
        } else {
            r
        }
    }
}

fn net_symbol_key_exec(key: &[u8], net: &[u8]) -> (r: bool)
    ensures
        r == net_symbol_key(key@, net@),
{
    if bytes_eq(key, net) {
        return true;
    }
    if !(key.len() > net.len() && crate::bytes::starts_with(key, net) && key[net.len()] == 46u8) {
        return false;
    }
    let mut j: usize = net.len() + 1;
    while j < key.len()
        invariant
            net@.len() < j <= key@.len(),
            forall|t: int| net@.len() < t < j ==> crate::names::is_ascii_digit(#[trigger] key@[t]),
        decreases key.len() - j,
    {
        if !(48u8 <= key[j] && key[j] <= 57u8) {
            return false;
        }
        j = j + 1;
    }
    true
}

/// The position keys to drop when `net` merges away: its symbol keys.
pub fn net_symbol_keys(keys: &Vec<Vec<u8>>, net: &[u8]) -> (r: Vec<Vec<u8>>)
    ensures
        crate::writers::views(r@) == spec_net_symbol_keys(keys@, net@),
{
    let mut out: Vec<Vec<u8>> = Vec::new();
    let mut i: usize = 0;
    proof {
        assert(crate::writers::views(out@) =~= Seq::<Seq<u8>>::empty());
    }
    while i < keys.len()
        invariant
            i <= keys@.len(),
            crate::writers::views(out@) == spec_net_symbol_keys(keys@.take(i as int), net@),
        decreases keys.len() - i,
    {
        proof {
            assert(keys@.take(i + 1).drop_last() =~= keys@.take(i as int));
            assert(keys@.take(i + 1).last() == keys@[i as int]);
        }
        if net_symbol_key_exec(keys[i].as_slice(), net) {
            let ghost old_out = out@;
            let k = copy(&keys[i]);
            out.push(k);
            proof {
                crate::text::lemma_map_push(old_out, k, |x: Vec<u8>| x@);
            }
        }
        i = i + 1;
    }
    assert(keys@.take(keys@.len() as int) =~= keys@);
    out
}


/// Attach one pin to a net (see [`spec_attach_pin_net`]); the new text is
/// handed back only when it parses.
pub fn attach_pin_net(
    content: &[u8],
    idx: &FileIndex,
    facts: &ModuleFacts,
    req: &AttachPinRequest,
) -> (r: Result<(Vec<u8>, AttachPinResult), EditError>)
    ensures
        r matches Ok((t, res)) ==> spec_attach_pin_net(content@, *idx, *facts, *req) == Ok::<
            AttachView,
            EditError,
        >(attach_view(t@, res)) && crate::source::zen_parses(t@),
        r matches Err(e) ==> spec_attach_pin_net(content@, *idx, *facts, *req) == Err::<AttachView, EditError>(e)
            || (e == EditError::InvalidOutput && (spec_attach_pin_net(content@, *idx, *facts, *req) matches Ok(x)
            && !crate::source::zen_parses(x.text))),
        spec_attach_pin_net(content@, *idx, *facts, *req) matches Ok(x) && crate::source::zen_parses(x.text)
            ==> r is Ok,
{
    match attach_pin_net_unchecked(content, idx, facts, req) {
        Ok((t, res)) => if crate::source::parses(t.as_slice()) {
            Ok((t, res))
        } else {
            Err(EditError::InvalidOutput)
        },
        Err(e) => Err(e),
    }
}

/// Detach one pin from its net (see [`spec_disconnect_pin`]); the new text
/// is handed back only when it parses.
pub fn disconnect_pin(
    content: &[u8],
    idx: &FileIndex,
    facts: &ModuleFacts,
    instance: &[u8],
    pin: &[u8],
) -> (r: Result<(Vec<u8>, DisconnectResult), EditError>)
    ensures
        r matches Ok((t, res)) ==> spec_disconnect_pin(content@, *idx, *facts, instance@, pin@)
            == Ok::<DisconnectView, EditError>(disconnect_view(t@, res)) && crate::source::zen_parses(t@),
        r matches Err(e) ==> spec_disconnect_pin(content@, *idx, *facts, instance@, pin@) == Err::<
            DisconnectView,
            EditError,
        >(e) || (e == EditError::InvalidOutput && (spec_disconnect_pin(content@, *idx, *facts, instance@, pin@)
            matches Ok(x) && !crate::source::zen_parses(x.text))),
        spec_disconnect_pin(content@, *idx, *facts, instance@, pin@) matches Ok(x) && crate::source::zen_parses(
            x.text,
        ) ==> r is Ok,
{
    match disconnect_pin_unchecked(content, idx, facts, instance, pin) {
        Ok((t, res)) => if crate::source::parses(t.as_slice()) {
            Ok((t, res))
        } else {
            Err(EditError::InvalidOutput)
        },
        Err(e) => Err(e),
    }
}

/// Whether a connect's outcome writes text that parses (one that writes
/// nothing trivially does).
pub open spec fn output_parses(t: Option<Seq<u8>>) -> bool {
    match t {
        Some(s) => crate::source::zen_parses(s),
        None => true,
    }
}

/// The compound wiring edit (see [`spec_connect_pins`]); new text is
/// handed back only when it parses.
pub fn connect_pins(
    content: &[u8],
    idx: &FileIndex,
    facts_a: &ModuleFacts,
    facts_b: &ModuleFacts,
    sch: Option<&crate::model::SchematicDoc>,
    req: &ConnectPinsRequest,
) -> (r: Result<(Option<Vec<u8>>, ConnectOutcome), EditError>)
    ensures
        r matches Ok((t, o)) ==> spec_connect_pins(content@, *idx, *facts_a, *facts_b, sch, *req)
            == Ok::<(Option<Seq<u8>>, ConnectView), EditError>((opt_view(t), o@)) && output_parses(opt_view(t)),
        r matches Err(e) ==> spec_connect_pins(content@, *idx, *facts_a, *facts_b, sch, *req)
            == Err::<(Option<Seq<u8>>, ConnectView), EditError>(e) || (e == EditError::InvalidOutput
            && (spec_connect_pins(content@, *idx, *facts_a, *facts_b, sch, *req) matches Ok(x)
            && !output_parses(x.0))),
        spec_connect_pins(content@, *idx, *facts_a, *facts_b, sch, *req) matches Ok(x) && output_parses(x.0)
            ==> r is Ok,
{
    match connect_pins_unchecked(content, idx, facts_a, facts_b, sch, req) {
        Ok((t, o)) => {
            let ok = match &t {
                Some(s) => crate::source::parses(s.as_slice()),
                None => true,
            };
            if ok {
                Ok((t, o))
            } else {
                Err(EditError::InvalidOutput)
            }
        },
        Err(e) => Err(e),
    }
}

} // verus!
