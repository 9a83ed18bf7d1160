//! Structured writers: span surgery over an authored file's bytes, driven by
//! its [`FileIndex`]. Untouched bytes stay byte-identical and insertions land
//! at line boundaries. Each writer hands back new text only when that text
//! parses (see [`crate::source`]), so a writer that would produce
//! unparseable source fails the edit, never the board.
use vstd::prelude::*;
use vstd::string::StringSliceAdditionalSpecFns;
use crate::bytes::{bytes_eq, copy, lit, slice_copy};
use crate::index::{
    defs_named, find_defs_named, index_fits, index_fits_len, is_bound, lemma_defs_named, listed,
    FileIndex, ModuleBinding, NetDef,
};
use crate::names::{
    net_variable, quote, quoted, spec_net_variable, spec_valid_name, spec_valid_net_kind,
    valid_instance_name, valid_net_kind,
};
use crate::text::{
    line_boundary_after, push_all, push_range, separator, spec_line_boundary_after, spec_separator,
};

verus! {

/// Why a structured edit was refused.
#[derive(PartialEq, Eq, Structural, Debug, Clone, Copy)]
pub enum EditError {
    /// The index does not describe this text (a span lies past its end).
    IndexMismatch,
    /// The file does not parse; everything in it refuses with that error.
    Unparseable,
    /// Not a valid instance name.
    InvalidName,
    /// Not a valid net name.
    InvalidNetName,
    InvalidKind,
    InvalidAttrName,
    /// The value of attribute `index` failed its config type's check.
    InvalidAttrValue { index: usize },
    /// Required config `index` of the module has no attribute.
    MissingConfig { index: usize },
    /// A top-level call with this `name=` already exists.
    InstanceExists,
    /// The board already has a child of this name (possibly generated).
    ChildExists,
    /// No top-level call with the literal name.
    NoCall,
    /// Several top-level calls carry the name.
    AmbiguousCall { count: usize },
    /// A net with this name is already defined (at `line`).
    NetDefined { line: u32 },
    /// The variable is already bound at top level.
    NameBound,
    NoNetDef,
    AmbiguousNetDef { count: usize },
    NetExists,
    /// The variable is rebound in a nested scope.
    Shadowed,
    /// The call is not made through a `Module(...)` binding.
    NoModuleBinding,
    /// The pin names neither an io nor a pin of the module.
    PinUnresolved,
    /// The pin's kwarg is bound to a variable that is no top-level net.
    NotNetDef,
    /// The pin's kwarg is a computed expression.
    ComputedPin,
    SamePin,
    AlreadyUnconnected,
    /// Already unconnected: the kwarg holds a placeholder net.
    PlaceholderUnconnected,
    /// `name` is the instance's identity: use rename.
    NameIsIdentity,
    /// The key is a pin: use the wiring verbs.
    KeyIsPin,
    NothingToRemove,
    /// An optional pin kwarg with no argument before it.
    MissingPrecedingArg,
    /// Internal: the edits would overlap.
    Overlap,
    /// The rewritten text does not parse.
    InvalidOutput,
    /// The inserted statement was not found when the output was re-parsed.
    NotFoundOnReparse,
}

/// The text a refusal is reported with.
pub open spec fn spec_edit_message(e: EditError) -> Seq<u8> {
    match e {
            EditError::IndexMismatch => "the index does not describe this file".spec_bytes(),
            EditError::Unparseable => "the file does not parse".spec_bytes(),
            EditError::InvalidName => "invalid instance name (want [A-Za-z][A-Za-z0-9_-]*, max 64)".spec_bytes(),
            EditError::InvalidNetName => "invalid net name (want [A-Za-z][A-Za-z0-9_-]*, max 64)".spec_bytes(),
            EditError::InvalidKind => "invalid net kind (want Net, Power or Ground)".spec_bytes(),
            EditError::InvalidAttrName => "invalid attribute name".spec_bytes(),
            EditError::InvalidAttrValue { index } => "attribute ".spec_bytes() + crate::bytes::decimal(index as nat) + " has an invalid value for its type".spec_bytes(),
            EditError::MissingConfig { index } => "required config ".spec_bytes() + crate::bytes::decimal(index as nat) + " is missing".spec_bytes(),
            EditError::InstanceExists => "an instance of that name already exists".spec_bytes(),
            EditError::ChildExists => "the board already has a child of that name (possibly generated)".spec_bytes(),
            EditError::NoCall => "no top-level call with that literal name".spec_bytes(),
            EditError::AmbiguousCall { count } => "ambiguous: ".spec_bytes() + crate::bytes::decimal(count as nat) + " top-level calls carry that name".spec_bytes(),
            EditError::NetDefined { line } => "a net of that name is already defined at line ".spec_bytes() + crate::bytes::decimal(line as nat) + "".spec_bytes(),
            EditError::NameBound => "that name is already bound - pick another".spec_bytes(),
            EditError::NoNetDef => "no top-level net definition for that name".spec_bytes(),
            EditError::AmbiguousNetDef { count } => "ambiguous: ".spec_bytes() + crate::bytes::decimal(count as nat) + " definitions of that net".spec_bytes(),
            EditError::NetExists => "a net of that name already exists".spec_bytes(),
            EditError::Shadowed => "the variable is rebound in a nested scope - edit the source or ask the agent".spec_bytes(),
            EditError::NoModuleBinding => "the call is not made through a Module(...) binding".spec_bytes(),
            EditError::PinUnresolved => "the pin names neither an io nor a pin of the module".spec_bytes(),
            EditError::NotNetDef => "the pin is bound to a variable that is no top-level net".spec_bytes(),
            EditError::ComputedPin => "the pin is a computed expression - edit the source or ask the agent".spec_bytes(),
            EditError::SamePin => "both endpoints are the same pin".spec_bytes(),
            EditError::AlreadyUnconnected => "the pin is already unconnected".spec_bytes(),
            EditError::PlaceholderUnconnected => "the pin is already unconnected (it holds a placeholder net)".spec_bytes(),
            EditError::NameIsIdentity => "`name` is the instance's identity - use rename_instance".spec_bytes(),
            EditError::KeyIsPin => "that key is a pin - use connect_pins or attach_pin_net".spec_bytes(),
            EditError::NothingToRemove => "nothing to remove".spec_bytes(),
            EditError::MissingPrecedingArg => "an optional pin has no argument before it".spec_bytes(),
            EditError::Overlap => "the edits overlap".spec_bytes(),
            EditError::InvalidOutput => "writer produced invalid source - refusing to write".spec_bytes(),
            EditError::NotFoundOnReparse => "the inserted statement was not found on re-parse".spec_bytes(),
    }
}

/// The refusal as the editor reports it, about `name` in `file`.
pub open spec fn spec_edit_description(e: EditError, name: Seq<u8>, file: Seq<u8>) -> Seq<u8> {
    match e {
            EditError::InvalidName => "invalid instance name ".spec_bytes() + crate::quote::spec_debug_str(name) + " (want [A-Za-z][A-Za-z0-9_-]*, max 64)".spec_bytes(),
            EditError::InvalidNetName => "invalid net name ".spec_bytes() + crate::quote::spec_debug_str(name) + " (want [A-Za-z][A-Za-z0-9_-]*, max 64)".spec_bytes(),
            EditError::InstanceExists => "an instance named ".spec_bytes() + crate::quote::spec_debug_str(name) + " already exists in ".spec_bytes() + file,
            EditError::ChildExists => "the board already has a child named ".spec_bytes() + crate::quote::spec_debug_str(name) + " (possibly generated)".spec_bytes(),
            EditError::NoCall => "no top-level call with a literal name=".spec_bytes() + crate::quote::spec_debug_str(name) + " in ".spec_bytes() + file,
            EditError::AmbiguousCall { count } => "ambiguous: ".spec_bytes() + crate::bytes::decimal(count as nat) + " top-level calls in ".spec_bytes() + file + " carry name=".spec_bytes() + crate::quote::spec_debug_str(name),
            EditError::NetDefined { line } => "a net named ".spec_bytes() + crate::quote::spec_debug_str(name) + " is already defined at ".spec_bytes() + file + ":".spec_bytes() + crate::bytes::decimal(line as nat),
            EditError::NoNetDef => "no top-level net definition for ".spec_bytes() + crate::quote::spec_debug_str(name) + " in ".spec_bytes() + file,
            EditError::AmbiguousNetDef { count } => "ambiguous: ".spec_bytes() + crate::bytes::decimal(count as nat) + " definitions of ".spec_bytes() + crate::quote::spec_debug_str(name) + " in ".spec_bytes() + file,
            EditError::NetExists => "a net named ".spec_bytes() + crate::quote::spec_debug_str(name) + " already exists in ".spec_bytes() + file,
            EditError::Unparseable => file + " does not parse".spec_bytes(),
            _ => spec_edit_message(e),
    }
}

impl EditError {
    /// The refusal as the editor reports it, naming the instance or net
    /// `name` and the file `file` it concerns.
    pub fn describe(&self, name: &[u8], file: &[u8]) -> (r: Vec<u8>)
        ensures
            r@ == spec_edit_description(*self, name@, file@),
    {
        match *self {
            EditError::InvalidName => {
                let mut m = lit("invalid instance name ");
                push_all(&mut m, crate::quote::debug_quote(name).as_slice());
                push_all(&mut m, lit(" (want [A-Za-z][A-Za-z0-9_-]*, max 64)").as_slice());
                m
            },
            EditError::InvalidNetName => {
                let mut m = lit("invalid net name ");
                push_all(&mut m, crate::quote::debug_quote(name).as_slice());
                push_all(&mut m, lit(" (want [A-Za-z][A-Za-z0-9_-]*, max 64)").as_slice());
                m
            },
            EditError::InstanceExists => {
                let mut m = lit("an instance named ");
                push_all(&mut m, crate::quote::debug_quote(name).as_slice());
                push_all(&mut m, lit(" already exists in ").as_slice());
                push_all(&mut m, crate::bytes::slice_copy(file, 0, file.len()).as_slice());
                m
            },
            EditError::ChildExists => {
                let mut m = lit("the board already has a child named ");
                push_all(&mut m, crate::quote::debug_quote(name).as_slice());
                push_all(&mut m, lit(" (possibly generated)").as_slice());
                m
            },
            EditError::NoCall => {
                let mut m = lit("no top-level call with a literal name=");
                push_all(&mut m, crate::quote::debug_quote(name).as_slice());
                push_all(&mut m, lit(" in ").as_slice());
                push_all(&mut m, crate::bytes::slice_copy(file, 0, file.len()).as_slice());
                m
            },
            EditError::AmbiguousCall { count } => {
                let mut m = lit("ambiguous: ");
                push_all(&mut m, crate::bytes::decimal_text(count as u64).as_slice());
                push_all(&mut m, lit(" top-level calls in ").as_slice());
                push_all(&mut m, crate::bytes::slice_copy(file, 0, file.len()).as_slice());
                push_all(&mut m, lit(" carry name=").as_slice());
                push_all(&mut m, crate::quote::debug_quote(name).as_slice());
                m
            },
            EditError::NetDefined { line } => {
                let mut m = lit("a net named ");
                push_all(&mut m, crate::quote::debug_quote(name).as_slice());
                push_all(&mut m, lit(" is already defined at ").as_slice());
                push_all(&mut m, crate::bytes::slice_copy(file, 0, file.len()).as_slice());
                push_all(&mut m, lit(":").as_slice());
                push_all(&mut m, crate::bytes::decimal_text(line as u64).as_slice());
                m
            },
            EditError::NoNetDef => {
                let mut m = lit("no top-level net definition for ");
                push_all(&mut m, crate::quote::debug_quote(name).as_slice());
                push_all(&mut m, lit(" in ").as_slice());
                push_all(&mut m, crate::bytes::slice_copy(file, 0, file.len()).as_slice());
                m
            },
            EditError::AmbiguousNetDef { count } => {
                let mut m = lit("ambiguous: ");
                push_all(&mut m, crate::bytes::decimal_text(count as u64).as_slice());
                push_all(&mut m, lit(" definitions of ").as_slice());
                push_all(&mut m, crate::quote::debug_quote(name).as_slice());
                push_all(&mut m, lit(" in ").as_slice());
                push_all(&mut m, crate::bytes::slice_copy(file, 0, file.len()).as_slice());
                m
            },
            EditError::NetExists => {
                let mut m = lit("a net named ");
                push_all(&mut m, crate::quote::debug_quote(name).as_slice());
                push_all(&mut m, lit(" already exists in ").as_slice());
                push_all(&mut m, crate::bytes::slice_copy(file, 0, file.len()).as_slice());
                m
            },
            EditError::Unparseable => {
                let mut m = crate::bytes::slice_copy(file, 0, file.len());
                push_all(&mut m, lit(" does not parse").as_slice());
                m
            },
            _ => self.message(),
        }
    }

    /// The refusal as readable text.
    pub fn message(&self) -> (r: Vec<u8>)
        ensures
            r@ == spec_edit_message(*self),
    {
        match *self {
            EditError::IndexMismatch => lit("the index does not describe this file"),
            EditError::Unparseable => lit("the file does not parse"),
            EditError::InvalidName => lit("invalid instance name (want [A-Za-z][A-Za-z0-9_-]*, max 64)"),
            EditError::InvalidNetName => lit("invalid net name (want [A-Za-z][A-Za-z0-9_-]*, max 64)"),
            EditError::InvalidKind => lit("invalid net kind (want Net, Power or Ground)"),
            EditError::InvalidAttrName => lit("invalid attribute name"),
            EditError::InvalidAttrValue { index } => {
                let mut m = lit("attribute ");
                push_all(&mut m, crate::bytes::decimal_text(index as u64).as_slice());
                push_all(&mut m, lit(" has an invalid value for its type").as_slice());
                m
            },
            EditError::MissingConfig { index } => {
                let mut m = lit("required config ");
                push_all(&mut m, crate::bytes::decimal_text(index as u64).as_slice());
                push_all(&mut m, lit(" is missing").as_slice());
                m
            },
            EditError::InstanceExists => lit("an instance of that name already exists"),
            EditError::ChildExists => lit("the board already has a child of that name (possibly generated)"),
            EditError::NoCall => lit("no top-level call with that literal name"),
            EditError::AmbiguousCall { count } => {
                let mut m = lit("ambiguous: ");
                push_all(&mut m, crate::bytes::decimal_text(count as u64).as_slice());
                push_all(&mut m, lit(" top-level calls carry that name").as_slice());
                m
            },
            EditError::NetDefined { line } => {
                let mut m = lit("a net of that name is already defined at line ");
                push_all(&mut m, crate::bytes::decimal_text(line as u64).as_slice());
                push_all(&mut m, lit("").as_slice());
                m
            },
            EditError::NameBound => lit("that name is already bound - pick another"),
            EditError::NoNetDef => lit("no top-level net definition for that name"),
            EditError::AmbiguousNetDef { count } => {
                let mut m = lit("ambiguous: ");
                push_all(&mut m, crate::bytes::decimal_text(count as u64).as_slice());
                push_all(&mut m, lit(" definitions of that net").as_slice());
                m
            },
            EditError::NetExists => lit("a net of that name already exists"),
            EditError::Shadowed => lit("the variable is rebound in a nested scope - edit the source or ask the agent"),
            EditError::NoModuleBinding => lit("the call is not made through a Module(...) binding"),
            EditError::PinUnresolved => lit("the pin names neither an io nor a pin of the module"),
            EditError::NotNetDef => lit("the pin is bound to a variable that is no top-level net"),
            EditError::ComputedPin => lit("the pin is a computed expression - edit the source or ask the agent"),
            EditError::SamePin => lit("both endpoints are the same pin"),
            EditError::AlreadyUnconnected => lit("the pin is already unconnected"),
            EditError::PlaceholderUnconnected => lit("the pin is already unconnected (it holds a placeholder net)"),
            EditError::NameIsIdentity => lit("`name` is the instance's identity - use rename_instance"),
            EditError::KeyIsPin => lit("that key is a pin - use connect_pins or attach_pin_net"),
            EditError::NothingToRemove => lit("nothing to remove"),
            EditError::MissingPrecedingArg => lit("an optional pin has no argument before it"),
            EditError::Overlap => lit("the edits overlap"),
            EditError::InvalidOutput => lit("writer produced invalid source - refusing to write"),
            EditError::NotFoundOnReparse => lit("the inserted statement was not found on re-parse"),
        }
    }
}

/// `c` with `t` inserted at `at`.
pub open spec fn insert_at(c: Seq<u8>, at: int, t: Seq<u8>) -> Seq<u8> {
    c.subrange(0, at) + t + c.subrange(at, c.len() as int)
}

pub fn insert_text(c: &[u8], at: usize, t: &[u8]) -> (r: Vec<u8>)
    requires
        at <= c@.len(),
    ensures
        r@ == insert_at(c@, at as int, t@),
{
    let mut out: Vec<u8> = Vec::new();
    push_range(&mut out, c, 0, at);
    push_all(&mut out, t);
    push_range(&mut out, c, at, c.len());
    out
}

pub open spec fn max_usize(a: usize, b: usize) -> usize {
    if a >= b {
        a
    } else {
        b
    }
}

pub open spec fn or_else(a: Option<usize>, b: Option<usize>) -> Option<usize> {
    if a is Some {
        a
    } else {
        b
    }
}

/// Largest end offset of the net definitions.
pub open spec fn max_def_end(defs: Seq<NetDef>) -> Option<usize>
    decreases defs.len(),
{
    if defs.len() == 0 {
        None
    } else {
        match max_def_end(defs.drop_last()) {
            None => Some(defs.last().stmt_end),
            Some(m) => Some(max_usize(m, defs.last().stmt_end)),
        }
    }
}

/// Largest end offset of the module bindings.
pub open spec fn max_binding_end(bs: Seq<ModuleBinding>) -> Option<usize>
    decreases bs.len(),
{
    if bs.len() == 0 {
        None
    } else {
        match max_binding_end(bs.drop_last()) {
            None => Some(bs.last().stmt_end),
            Some(m) => Some(max_usize(m, bs.last().stmt_end)),
        }
    }
}

proof fn lemma_max_def_end_bound(defs: Seq<NetDef>, len: nat)
    requires
        forall|i: int| 0 <= i < defs.len() ==> (#[trigger] defs[i]).stmt_end <= len,
    ensures
        max_def_end(defs) matches Some(m) ==> m <= len,
    decreases defs.len(),
{
    if defs.len() > 0 {
        lemma_max_def_end_bound(defs.drop_last(), len);
        assert(defs.last() == defs[defs.len() - 1]);
    }
}

proof fn lemma_max_binding_end_bound(bs: Seq<ModuleBinding>, len: nat)
    requires
        forall|i: int| 0 <= i < bs.len() ==> (#[trigger] bs[i]).stmt_end <= len,
    ensures
        max_binding_end(bs) matches Some(m) ==> m <= len,
    decreases bs.len(),
{
    if bs.len() > 0 {
        lemma_max_binding_end_bound(bs.drop_last(), len);
        assert(bs.last() == bs[bs.len() - 1]);
    }
}

pub fn last_def_end(idx: &FileIndex) -> (r: Option<usize>)
    ensures
        r == max_def_end(idx.net_defs@),
{
    let mut m: Option<usize> = None;
    let mut i: usize = 0;
    while i < idx.net_defs.len()
        invariant
            i <= idx.net_defs@.len(),
            m == max_def_end(idx.net_defs@.take(i as int)),
        decreases idx.net_defs.len() - i,
    {
        assert(idx.net_defs@.take(i + 1).drop_last() == idx.net_defs@.take(i as int));
        let e = idx.net_defs[i].stmt_end;
        m = match m {
            None => Some(e),
            Some(x) => Some(if x >= e { x } else { e }),
        };
        i = i + 1;
    }
    assert(idx.net_defs@.take(idx.net_defs@.len() as int) == idx.net_defs@);
    m
}

pub fn last_binding_end(idx: &FileIndex) -> (r: Option<usize>)
    ensures
        r == max_binding_end(idx.module_bindings@),
{
    let mut m: Option<usize> = None;
    let mut i: usize = 0;
    while i < idx.module_bindings.len()
        invariant
            i <= idx.module_bindings@.len(),
            m == max_binding_end(idx.module_bindings@.take(i as int)),
        decreases idx.module_bindings.len() - i,
    {
        assert(idx.module_bindings@.take(i + 1).drop_last() == idx.module_bindings@.take(i as int));
        let e = idx.module_bindings[i].stmt_end;
        m = match m {
            None => Some(e),
            Some(x) => Some(if x >= e { x } else { e }),
        };
        i = i + 1;
    }
    assert(idx.module_bindings@.take(idx.module_bindings@.len() as int) == idx.module_bindings@);
    m
}

/// Where a new net definition goes: after the last one, else below the
/// module bindings, the loads, or the docstring.
pub open spec fn spec_net_def_anchor(idx: FileIndex) -> Option<usize> {
    or_else(
        max_def_end(idx.net_defs@),
        or_else(max_binding_end(idx.module_bindings@), or_else(idx.last_load_end, idx.docstring_end)),
    )
}

pub proof fn lemma_anchor_bound(idx: FileIndex, len: nat)
    requires
        index_fits(idx, len),
    ensures
        spec_net_def_anchor(idx) matches Some(a) ==> a <= len,
{
    assert forall|i: int| 0 <= i < idx.net_defs@.len() implies (#[trigger] idx.net_defs@[i]).stmt_end
        <= len by {
        assert(crate::index::def_fits(idx.net_defs@[i], len));
    }
    lemma_max_def_end_bound(idx.net_defs@, len);
    assert forall|i: int| 0 <= i < idx.module_bindings@.len() implies (
    #[trigger] idx.module_bindings@[i]).stmt_end <= len by {
        assert(crate::index::span_ok(
            idx.module_bindings@[i].stmt_start,
            idx.module_bindings@[i].stmt_end,
            len,
        ));
    }
    lemma_max_binding_end_bound(idx.module_bindings@, len);
}

pub fn net_def_anchor(idx: &FileIndex) -> (r: Option<usize>)
    ensures
        r == spec_net_def_anchor(*idx),
{
    match last_def_end(idx) {
        Some(e) => Some(e),
        None => match last_binding_end(idx) {
            Some(e) => Some(e),
            None => match idx.last_load_end {
                Some(e) => Some(e),
                None => idx.docstring_end,
            },
        },
    }
}

/// The line boundary after the anchor, or the start of the file.
pub open spec fn spec_anchor_at(c: Seq<u8>, a: Option<usize>) -> int {
    match a {
        Some(o) => spec_line_boundary_after(c, o as int),
        None => 0,
    }
}

pub fn anchor_at(c: &[u8], a: Option<usize>) -> (r: usize)
    ensures
        r == spec_anchor_at(c@, a),
        r <= c@.len(),
{
    match a {
        Some(o) => line_boundary_after(c, o),
        None => 0,
    }
}

// ---------------------------------------------------------------------------
// create_net
// ---------------------------------------------------------------------------

/// `VAR = Kind("NAME")` followed by a newline.
pub open spec fn net_def_stmt(var: Seq<u8>, kind: Seq<u8>, name: Seq<u8>) -> Seq<u8> {
    var + " = ".spec_bytes() + kind + "(".spec_bytes() + quoted(name) + ")\n".spec_bytes()
}

pub fn net_def_stmt_exec(var: &[u8], kind: &[u8], name: &[u8]) -> (r: Vec<u8>)
    ensures
        r@ == net_def_stmt(var@, kind@, name@),
{
    let mut out = slice_copy(var, 0, var.len());
    push_all(&mut out, lit(" = ").as_slice());
    push_all(&mut out, kind);
    push_all(&mut out, lit("(").as_slice());
    push_all(&mut out, quote(name).as_slice());
    push_all(&mut out, lit(")\n").as_slice());
    out
}

/// What `create_net` does: the new text and the net's variable, or why it
/// refuses.
pub open spec fn spec_create_net(c: Seq<u8>, idx: FileIndex, name: Seq<u8>, kind: Seq<u8>) -> Result<
    (Seq<u8>, Seq<u8>),
    EditError,
> {
    if !index_fits(idx, c.len()) {
        Err(EditError::IndexMismatch)
    } else if !spec_valid_net_kind(kind) {
        Err(EditError::InvalidKind)
    } else if !spec_valid_name(name) {
        Err(EditError::InvalidNetName)
    } else if idx.error is Some {
        Err(EditError::Unparseable)
    } else if defs_named(idx.net_defs@, name).len() > 0 {
        Err(EditError::NetDefined { line: idx.net_defs@[defs_named(idx.net_defs@, name)[0] as int].line })
    } else if listed(idx.bound_idents@, spec_net_variable(name)) {
        Err(EditError::NameBound)
    } else {
        let var = spec_net_variable(name);
        let at = spec_anchor_at(c, spec_net_def_anchor(idx));
        Ok((insert_at(c, at, spec_separator(c, at) + net_def_stmt(var, kind, name)), var))
    }
}

/// Insert `VAR = Kind("NAME")` after the last net definition (else below the
/// module bindings, loads or docstring). Returns the new text and the
/// net's variable.
fn create_net_unchecked(content: &[u8], idx: &FileIndex, name: &[u8], kind: &[u8]) -> (r: Result<
    (Vec<u8>, Vec<u8>),
    EditError,
>)
    ensures
        r matches Ok((t, v)) ==> spec_create_net(content@, *idx, name@, kind@) == Ok::<
            (Seq<u8>, Seq<u8>),
            EditError,
        >((t@, v@)),
        r matches Err(e) ==> spec_create_net(content@, *idx, name@, kind@) == Err::<
            (Seq<u8>, Seq<u8>),
            EditError,
        >(e),
{
    if !index_fits_len(idx, content.len()) {
        return Err(EditError::IndexMismatch);
    }
    if !valid_net_kind(kind) {
        return Err(EditError::InvalidKind);
    }
    if !valid_instance_name(name) {
        return Err(EditError::InvalidNetName);
    }
    if idx.error.is_some() {
        return Err(EditError::Unparseable);
    }
    let defs = find_defs_named(idx, name);
    let nd: usize = idx.net_defs.len();
    if defs.len() > 0 {
        proof {
            lemma_defs_named(idx.net_defs@, name@);
        }
        return Err(EditError::NetDefined { line: idx.net_defs[defs[0]].line });
    }
    let variable = net_variable(name);
    if is_bound(idx, variable.as_slice()) {
        return Err(EditError::NameBound);
    }
    let anchor = net_def_anchor(idx);
    proof {
        lemma_anchor_bound(*idx, content@.len());
    }
    let at = anchor_at(content, anchor);
    let mut stmt = separator(content, at);
    push_all(&mut stmt, net_def_stmt_exec(variable.as_slice(), kind, name).as_slice());
    let text = insert_text(content, at, stmt.as_slice());
    Ok((text, variable))
}

/// Result of a net definition insertion, completed from the re-parse.
pub struct CreateNetResult {
    pub variable: Vec<u8>,
    /// 1-based line of the inserted definition.
    pub line: u32,
}

/// Complete a `create_net` from the index of the rewritten text: the
/// inserted definition's line, or the refusal when the output does not
/// parse or the definition is missing from it.
pub fn finish_create_net(variable: Vec<u8>, reparsed: &FileIndex, name: &[u8]) -> (r: Result<
    CreateNetResult,
    EditError,
>)
    ensures
        reparsed.error is Some ==> r == Err::<CreateNetResult, EditError>(EditError::InvalidOutput),
        reparsed.error is None && defs_named(reparsed.net_defs@, name@).len() == 0 ==> r == Err::<
            CreateNetResult,
            EditError,
        >(EditError::NotFoundOnReparse),
        reparsed.error is None && defs_named(reparsed.net_defs@, name@).len() > 0 ==> (r matches Ok(
            res,
        ) && res.variable@ == variable@ && res.line == reparsed.net_defs@[defs_named(
            reparsed.net_defs@,
            name@,
        )[0] as int].line),
{
    if reparsed.error.is_some() {
        return Err(EditError::InvalidOutput);
    }
    let defs = find_defs_named(reparsed, name);
    if defs.len() == 0 {
        return Err(EditError::NotFoundOnReparse);
    }
    let nd: usize = reparsed.net_defs.len();
    proof {
        lemma_defs_named(reparsed.net_defs@, name@);
    }
    Ok(CreateNetResult { variable, line: reparsed.net_defs[defs[0]].line })
}


/// Insert `VAR = Kind("NAME")` after the last net definition; the new text
/// is handed back only when it parses.
pub fn create_net(content: &[u8], idx: &FileIndex, name: &[u8], kind: &[u8]) -> (r: Result<
    (Vec<u8>, Vec<u8>),
    EditError,
>)
    ensures
        r matches Ok((t, v)) ==> spec_create_net(content@, *idx, name@, kind@) == Ok::<
            (Seq<u8>, Seq<u8>),
            EditError,
        >((t@, v@)) && crate::source::zen_parses(t@),
        r matches Err(e) ==> spec_create_net(content@, *idx, name@, kind@) == Err::<
            (Seq<u8>, Seq<u8>),
            EditError,
        >(e) || (e == EditError::InvalidOutput && (spec_create_net(content@, *idx, name@, kind@) matches Ok(x)
            && !crate::source::zen_parses(x.0))),
        spec_create_net(content@, *idx, name@, kind@) matches Ok(x) && crate::source::zen_parses(x.0) ==> r is Ok,
{
    match create_net_unchecked(content, idx, name, kind) {
        Ok((t, v)) => if crate::source::parses(t.as_slice()) {
            Ok((t, v))
        } else {
            Err(EditError::InvalidOutput)
        },
        Err(e) => Err(e),
    }
}

} // verus!
