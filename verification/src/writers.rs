//! Attribute, rename and removal writers.
use vstd::prelude::*;
use vstd::string::StringSliceAdditionalSpecFns;
use crate::bytes::{bytes_eq, copy, lit, slice_copy};
use crate::edit::{insert_at, insert_text, EditError};
use crate::facts::{find_value, has_value, ModuleFacts};
use crate::index::{
    calls_named, defs_named, find_binding_ident, find_calls_named, find_defs_named, find_refs,
    first_binding_ident, index_fits, index_fits_len, is_bound, is_shadowed, lemma_calls_named,
    lemma_defs_named, lemma_refs_of, listed, refs_of, FileIndex, Kwarg,
};
use crate::names::{
    net_variable, quote, quoted, spec_net_variable, spec_valid_attr_key, spec_valid_name,
    valid_attr_key, valid_instance_name,
};
use crate::quote::{debug_quote, spec_debug_str};
use crate::text::{apply_edits, edit_view, edits_view, push_all, push_range, spec_apply_edits, EditV, TextEdit};

verus! {

/// `c` with `c[s..e)` replaced by `t`.
pub open spec fn splice(c: Seq<u8>, s: int, e: int, t: Seq<u8>) -> Seq<u8> {
    c.subrange(0, s) + t + c.subrange(e, c.len() as int)
}

pub fn splice_text(c: &[u8], s: usize, e: usize, t: &[u8]) -> (r: Vec<u8>)
    requires
        s <= e <= c@.len(),
    ensures
        r@ == splice(c@, s as int, e as int, t@),
{
    let mut out: Vec<u8> = Vec::new();
    push_range(&mut out, c, 0, s);
    push_all(&mut out, t);
    push_range(&mut out, c, e, c.len());
    out
}

/// The unique top-level call named `name`, or why there is none.
pub open spec fn spec_unique_call(idx: FileIndex, name: Seq<u8>) -> Result<int, EditError> {
    let v = calls_named(idx.calls@, name);
    if v.len() == 1 {
        Ok(v[0] as int)
    } else if v.len() == 0 {
        Err(EditError::NoCall)
    } else {
        Err(EditError::AmbiguousCall { count: v.len() as usize })
    }
}

pub fn unique_call(idx: &FileIndex, name: &[u8]) -> (r: Result<usize, EditError>)
    ensures
        r matches Ok(i) ==> spec_unique_call(*idx, name@) == Ok::<int, EditError>(i as int) && i
            < idx.calls@.len() && idx.calls@[i as int].name@ == name@,
        r matches Err(e) ==> spec_unique_call(*idx, name@) == Err::<int, EditError>(e),
{
    let v = find_calls_named(idx, name);
    let n: usize = idx.calls.len();
    proof {
        lemma_calls_named(idx.calls@, name@);
    }
    if v.len() == 1 {
        assert(v@[0] == calls_named(idx.calls@, name@)[0]);
        Ok(v[0])
    } else if v.len() == 0 {
        Err(EditError::NoCall)
    } else {
        Err(EditError::AmbiguousCall { count: v.len() })
    }
}

/// First kwarg, at or after `from`, named `name`.
pub open spec fn first_kwarg_from(kws: Seq<Kwarg>, name: Seq<u8>, from: int) -> Option<int>
    decreases kws.len() - from,
{
    if from < 0 || from >= kws.len() {
        None
    } else if kws[from].name@ == name {
        Some(from)
    } else {
        first_kwarg_from(kws, name, from + 1)
    }
}

pub open spec fn first_kwarg(kws: Seq<Kwarg>, name: Seq<u8>) -> Option<int> {
    first_kwarg_from(kws, name, 0)
}

pub proof fn lemma_first_kwarg_from(kws: Seq<Kwarg>, name: Seq<u8>, from: int)
    requires
        from >= 0,
    ensures
        first_kwarg_from(kws, name, from) matches Some(i) ==> from <= i < kws.len()
            && kws[i].name@ == name,
        first_kwarg_from(kws, name, from) is None ==> forall|j: int|
            from <= j < kws.len() ==> kws[j].name@ != name,
    decreases kws.len() - from,
{
    if from < kws.len() && kws[from].name@ != name {
        lemma_first_kwarg_from(kws, name, from + 1);
    }
}

pub fn find_kwarg(kws: &Vec<Kwarg>, name: &[u8]) -> (r: Option<usize>)
    ensures
        r matches Some(i) ==> first_kwarg(kws@, name@) == Some(i as int) && i < kws@.len(),
        r is None ==> first_kwarg(kws@, name@) is None,
{
    proof {
        lemma_first_kwarg_from(kws@, name@, 0);
    }
    let mut i: usize = 0;
    while i < kws.len()
        invariant
            i <= kws@.len(),
            first_kwarg(kws@, name@) == first_kwarg_from(kws@, name@, i as int),
        decreases kws.len() - i,
    {
        if bytes_eq(kws[i].name.as_slice(), name) {
            return Some(i);
        }
        i = i + 1;
    }
    None
}

/// Is `key` one of the module's pins (a required io or a pin-map target)?
pub open spec fn spec_is_pin(facts: ModuleFacts, key: Seq<u8>) -> bool {
    listed(facts.required_ios@, key) || has_value(facts.pin_map@, key)
}

pub fn is_pin(facts: &ModuleFacts, key: &[u8]) -> (r: bool)
    ensures
        r == spec_is_pin(*facts, key@),
{
    crate::bytes::contains_bytes(&facts.required_ios, key) || find_value(&facts.pin_map, key)
}

/// The module spec behind the unique call named `instance` — the file whose
/// [`ModuleFacts`] the pin-aware writers need.
pub open spec fn spec_call_module_spec(idx: FileIndex, instance: Seq<u8>) -> Option<Seq<u8>> {
    match spec_unique_call(idx, instance) {
        Ok(i) => match first_binding_ident(idx.module_bindings@, idx.calls@[i].callee@) {
            Some(b) => Some(idx.module_bindings@[b].spec@),
            None => None,
        },
        Err(_) => None,
    }
}

pub fn call_module_spec(idx: &FileIndex, instance: &[u8]) -> (r: Option<Vec<u8>>)
    ensures
        r matches Some(s) ==> spec_call_module_spec(*idx, instance@) == Some(s@),
        r is None ==> spec_call_module_spec(*idx, instance@) is None,
{
    match unique_call(idx, instance) {
        Ok(i) => {
            proof {
                crate::index::lemma_first_binding_from(
                    idx.module_bindings@,
                    idx.calls@[i as int].callee@,
                    0,
                );
            }
            match find_binding_ident(idx, idx.calls[i].callee.as_slice()) {
                Some(b) => Some(copy(&idx.module_bindings[b].spec)),
                None => None,
            }
        },
        Err(_) => None,
    }
}

// ---------------------------------------------------------------------------
// set_attribute
// ---------------------------------------------------------------------------

/// What `set_attribute` does given the value's literal form `vq`: the new
/// text and whether an existing kwarg was replaced, or why it refuses.
pub open spec fn spec_set_attribute(
    c: Seq<u8>,
    idx: FileIndex,
    facts: ModuleFacts,
    instance: Seq<u8>,
    key: Seq<u8>,
    vq: Seq<u8>,
) -> Result<(Seq<u8>, bool), EditError> {
    if !index_fits(idx, c.len()) {
        Err(EditError::IndexMismatch)
    } else if key == "name".spec_bytes() {
        Err(EditError::NameIsIdentity)
    } else if !spec_valid_attr_key(key) {
        Err(EditError::InvalidAttrName)
    } else if idx.error is Some {
        Err(EditError::Unparseable)
    } else {
        match spec_unique_call(idx, instance) {
            Err(e) => Err(e),
            Ok(i) => {
                let site = idx.calls@[i];
                if first_binding_ident(idx.module_bindings@, site.callee@) is Some && spec_is_pin(
                    facts,
                    key,
                ) {
                    Err(EditError::KeyIsPin)
                } else {
                    match first_kwarg(site.kwargs@, key) {
                        Some(k) => Ok(
                            (
                                splice(
                                    c,
                                    site.kwargs@[k].value_start as int,
                                    site.kwargs@[k].value_end as int,
                                    vq,
                                ),
                                true,
                            ),
                        ),
                        None => Ok(
                            (
                                insert_at(
                                    c,
                                    site.last_arg_end as int,
                                    ", ".spec_bytes() + key + "=".spec_bytes() + vq,
                                ),
                                false,
                            ),
                        ),
                    }
                }
            },
        }
    }
}

pub struct SetAttributeResult {
    /// The kwarg existed and its value was replaced (vs newly added).
    pub replaced: bool,
}

/// Replace (or add) one attribute kwarg's value as a string literal. Pins
/// are refused toward the wiring verbs; `name` toward rename. `facts`
/// describe the module the call instantiates (see [`call_module_spec`]).
fn set_attribute_unchecked(
    content: &[u8],
    idx: &FileIndex,
    facts: &ModuleFacts,
    instance: &[u8],
    key: &[u8],
    value: &[u8],
) -> (r: Result<(Vec<u8>, SetAttributeResult), EditError>)
    ensures
        r matches Ok((t, res)) ==> spec_set_attribute(
            content@,
            *idx,
            *facts,
            instance@,
            key@,
            spec_debug_str(value@),
        ) == Ok::<(Seq<u8>, bool), EditError>((t@, res.replaced)),
        r matches Err(e) ==> spec_set_attribute(
            content@,
            *idx,
            *facts,
            instance@,
            key@,
            spec_debug_str(value@),
        ) == Err::<(Seq<u8>, bool), EditError>(e),
{
    if !index_fits_len(idx, content.len()) {
        return Err(EditError::IndexMismatch);
    }
    if bytes_eq(key, lit("name").as_slice()) {
        return Err(EditError::NameIsIdentity);
    }
    if !valid_attr_key(key) {
        return Err(EditError::InvalidAttrName);
    }
    if idx.error.is_some() {
        return Err(EditError::Unparseable);
    }
    let i = match unique_call(idx, instance) {
        Ok(i) => i,
        Err(e) => return Err(e),
    };
    let site = &idx.calls[i];
    if find_binding_ident(idx, site.callee.as_slice()).is_some() && is_pin(facts, key) {
        return Err(EditError::KeyIsPin);
    }
    let vq = debug_quote(value);
    proof {
        assert(crate::index::call_fits(idx.calls@[i as int], content@.len()));
    }
    match find_kwarg(&site.kwargs, key) {
        Some(k) => {
            proof {
                assert(crate::index::kwarg_fits(site.kwargs@[k as int], content@.len()));
            }
            let t = splice_text(
                content,
                site.kwargs[k].value_start,
                site.kwargs[k].value_end,
                vq.as_slice(),
            );
            Ok((t, SetAttributeResult { replaced: true }))
        },
        None => {
            let mut ins = lit(", ");
            push_all(&mut ins, key);
            push_all(&mut ins, lit("=").as_slice());
            push_all(&mut ins, vq.as_slice());
            let t = insert_text(content, site.last_arg_end, ins.as_slice());
            Ok((t, SetAttributeResult { replaced: false }))
        },
    }
}

// ---------------------------------------------------------------------------
// rename_instance
// ---------------------------------------------------------------------------

/// What `rename_instance` does to the text, or why it refuses.
pub open spec fn spec_rename_instance(c: Seq<u8>, idx: FileIndex, old: Seq<u8>, new: Seq<u8>) -> Result<
    Seq<u8>,
    EditError,
> {
    if !index_fits(idx, c.len()) {
        Err(EditError::IndexMismatch)
    } else if !spec_valid_name(new) {
        Err(EditError::InvalidName)
    } else if idx.error is Some {
        Err(EditError::Unparseable)
    } else {
        match spec_unique_call(idx, old) {
            Err(e) => Err(e),
            Ok(i) => if calls_named(idx.calls@, new).len() > 0 {
                Err(EditError::InstanceExists)
            } else {
                Ok(
                    splice(
                        c,
                        idx.calls@[i].name_start as int,
                        idx.calls@[i].name_end as int,
                        quoted(new),
                    ),
                )
            },
        }
    }
}

/// Rename the `name="…"` literal of the unique top-level call named `old`.
fn rename_instance_unchecked(content: &[u8], idx: &FileIndex, old: &[u8], new: &[u8]) -> (r: Result<
    Vec<u8>,
    EditError,
>)
    ensures
        r matches Ok(t) ==> spec_rename_instance(content@, *idx, old@, new@) == Ok::<
            Seq<u8>,
            EditError,
        >(t@),
        r matches Err(e) ==> spec_rename_instance(content@, *idx, old@, new@) == Err::<
            Seq<u8>,
            EditError,
        >(e),
{
    if !index_fits_len(idx, content.len()) {
        return Err(EditError::IndexMismatch);
    }
    if !valid_instance_name(new) {
        return Err(EditError::InvalidName);
    }
    if idx.error.is_some() {
        return Err(EditError::Unparseable);
    }
    let i = match unique_call(idx, old) {
        Ok(i) => i,
        Err(e) => return Err(e),
    };
    if find_calls_named(idx, new).len() > 0 {
        return Err(EditError::InstanceExists);
    }
    proof {
        assert(crate::index::call_fits(idx.calls@[i as int], content@.len()));
    }
    let q = quote(new);
    Ok(splice_text(content, idx.calls[i].name_start, idx.calls[i].name_end, q.as_slice()))
}

/// The position key `key` re-addressed from instance `old` to `new`: `OLD`
/// itself or `OLD.…` move; other keys stay put (`None`).
pub open spec fn spec_migrate_key(key: Seq<u8>, old: Seq<u8>, new: Seq<u8>) -> Option<Seq<u8>> {
    if key == old {
        Some(new)
    } else if key.len() > old.len() && key.subrange(0, old.len() as int) == old && key[old.len() as int]
        == 46u8 {
        Some(new + key.subrange(old.len() as int, key.len() as int))
    } else {
        None
    }
}

/// Migrate `# pcb:sch` keys of a renamed instance: every key that is `old`
/// or starts with `old.` pairs with its re-addressed form, in input order.
pub open spec fn spec_migrate_keys(keys: Seq<Vec<u8>>, old: Seq<u8>, new: Seq<u8>) -> Seq<(Seq<u8>, Seq<u8>)>
    decreases keys.len(),
{
    if keys.len() == 0 {
        Seq::empty()
    } else {
        let r = spec_migrate_keys(keys.drop_last(), old, new);
        match spec_migrate_key(keys.last()@, old, new) {
            Some(n) => r.push((keys.last()@, n)),
            None => r,
        }
    }
}

pub open spec fn pairs_view(v: Seq<(Vec<u8>, Vec<u8>)>) -> Seq<(Seq<u8>, Seq<u8>)> {
    v.map_values(|p: (Vec<u8>, Vec<u8>)| (p.0@, p.1@))
}

fn migrate_key(key: &[u8], old: &[u8], new: &[u8]) -> (r: Option<Vec<u8>>)
    ensures
        r matches Some(v) ==> spec_migrate_key(key@, old@, new@) == Some(v@),
        r is None ==> spec_migrate_key(key@, old@, new@) is None,
{
    if bytes_eq(key, old) {
        return Some(slice_copy(new, 0, new.len()));
    }
    if key.len() > old.len() && crate::bytes::starts_with(key, old) && key[old.len()] == 46u8 {
        let mut out = slice_copy(new, 0, new.len());
        push_range(&mut out, key, old.len(), key.len());
        return Some(out);
    }
    None
}

/// What a rename of an instance moved along with it.
pub struct RenameInstanceResult {
    /// `# pcb:sch` keys migrated to the new name.
    pub migrated_positions: Vec<Vec<u8>>,
}

/// What a rename of a net did.
pub struct RenameNetResult {
    pub variable: Vec<u8>,
    /// Reference sites rewritten (kwargs etc.), the definition excluded.
    pub references: usize,
    pub migrated_positions: Vec<Vec<u8>>,
}

/// Whether every byte of `s` from `from` on is an ASCII digit.
pub open spec fn digits_from(s: Seq<u8>, from: int) -> bool {
    forall|j: int| from <= j < s.len() ==> 48u8 <= #[trigger] s[j] <= 57u8
}

/// The net-symbol position key `key` re-addressed from net `old` to `new`:
/// `OLD` itself or `OLD.<digits>` move (dotted component keys such as
/// `R1.R` never match); other keys stay put (`None`).
pub open spec fn spec_migrate_net_key(key: Seq<u8>, old: Seq<u8>, new: Seq<u8>) -> Option<Seq<u8>> {
    if key == old {
        Some(new)
    } else if key.len() > old.len() && key.subrange(0, old.len() as int) == old && key[old.len() as int]
        == 46u8 && digits_from(key, old.len() + 1int) {
        Some(new + key.subrange(old.len() as int, key.len() as int))
    } else {
        None
    }
}

/// Migrate the net-symbol keys of a renamed net, in input order.
pub open spec fn spec_migrate_net_keys(keys: Seq<Vec<u8>>, old: Seq<u8>, new: Seq<u8>) -> Seq<(Seq<u8>, Seq<u8>)>
    decreases keys.len(),
{
    if keys.len() == 0 {
        Seq::empty()
    } else {
        let r = spec_migrate_net_keys(keys.drop_last(), old, new);
        match spec_migrate_net_key(keys.last()@, old, new) {
            Some(n) => r.push((keys.last()@, n)),
            None => r,
        }
    }
}

fn all_digits_from(s: &[u8], from: usize) -> (r: bool)
    requires
        from <= s@.len(),
    ensures
        r == digits_from(s@, from as int),
{
    let mut j = from;
    while j < s.len()
        invariant
            from <= j <= s@.len(),
            forall|k: int| from <= k < j ==> 48u8 <= #[trigger] s@[k] <= 57u8,
        decreases s.len() - j,
    {
        if s[j] < 48u8 || s[j] > 57u8 {
            return false;
        }
        j = j + 1;
    }
    true
}

fn migrate_net_key(key: &[u8], old: &[u8], new: &[u8]) -> (r: Option<Vec<u8>>)
    ensures
        r matches Some(v) ==> spec_migrate_net_key(key@, old@, new@) == Some(v@),
        r is None ==> spec_migrate_net_key(key@, old@, new@) is None,
{
    if bytes_eq(key, old) {
        return Some(slice_copy(new, 0, new.len()));
    }
    if key.len() > old.len() && crate::bytes::starts_with(key, old) && key[old.len()] == 46u8
        && all_digits_from(key, old.len() + 1) {
        let mut out = slice_copy(new, 0, new.len());
        push_range(&mut out, key, old.len(), key.len());
        return Some(out);
    }
    None
}

/// Position keys to migrate when net `old` becomes `new`: (old key, new
/// key) pairs.
pub fn migrate_net_position_keys(keys: &Vec<Vec<u8>>, old: &[u8], new: &[u8]) -> (r: Vec<
    (Vec<u8>, Vec<u8>),
>)
    ensures
        pairs_view(r@) == spec_migrate_net_keys(keys@, old@, new@),
{
    let mut out: Vec<(Vec<u8>, Vec<u8>)> = Vec::new();
    let mut i: usize = 0;
    while i < keys.len()
        invariant
            i <= keys@.len(),
            pairs_view(out@) == spec_migrate_net_keys(keys@.take(i as int), old@, new@),
        decreases keys.len() - i,
    {
        assert(keys@.take(i + 1).drop_last() == keys@.take(i as int));
        assert(keys@.take(i + 1).last() == keys@[i as int]);
        match migrate_net_key(keys[i].as_slice(), old, new) {
            Some(n) => {
                let k = copy(&keys[i]);
                out.push((k, n));
                assert(pairs_view(out@) == pairs_view(out@.drop_last()).push(
                    (keys@[i as int]@, n@),
                ));
            },
            None => {},
        }
        i = i + 1;
    }
    assert(keys@.take(keys@.len() as int) == keys@);
    out
}

/// Position keys to migrate when instance `old` becomes `new`: (old key,
/// new key) pairs.
pub fn migrate_position_keys(keys: &Vec<Vec<u8>>, old: &[u8], new: &[u8]) -> (r: Vec<
    (Vec<u8>, Vec<u8>),
>)
    ensures
        pairs_view(r@) == spec_migrate_keys(keys@, old@, new@),
{
    let mut out: Vec<(Vec<u8>, Vec<u8>)> = Vec::new();
    let mut i: usize = 0;
    while i < keys.len()
        invariant
            i <= keys@.len(),
            pairs_view(out@) == spec_migrate_keys(keys@.take(i as int), old@, new@),
        decreases keys.len() - i,
    {
        assert(keys@.take(i + 1).drop_last() == keys@.take(i as int));
        assert(keys@.take(i + 1).last() == keys@[i as int]);
        match migrate_key(keys[i].as_slice(), old, new) {
            Some(n) => {
                let k = copy(&keys[i]);
                out.push((k, n));
                assert(pairs_view(out@) == pairs_view(out@.drop_last()).push(
                    (keys@[i as int]@, n@),
                ));
            },
            None => {},
        }
        i = i + 1;
    }
    assert(keys@.take(keys@.len() as int) == keys@);
    out
}

} // verus!

verus! {

// ---------------------------------------------------------------------------
// rename_net
// ---------------------------------------------------------------------------

/// Replacement edits over the identifier reads `ix` of `refs`.
pub open spec fn ref_edits(refs: Seq<crate::index::IdentRef>, ix: Seq<usize>, t: Seq<u8>) -> Seq<EditV> {
    ix.map_values(|k: usize| (refs[k as int].start as int, refs[k as int].end as int, t))
}

/// What goes in the definition's name slot on a rename to `new` (bound to
/// `nv`): a named definition's literal is replaced; an unnamed one stays
/// unnamed while the variable can carry the name, and otherwise gets the
/// literal inserted (before any arguments that follow).
pub open spec fn name_text(d: crate::index::NetDef, new: Seq<u8>, nv: Seq<u8>) -> Seq<u8> {
    if d.named {
        quoted(new)
    } else if nv == new {
        Seq::empty()
    } else if d.args_follow {
        quoted(new) + ", ".spec_bytes()
    } else {
        quoted(new)
    }
}

/// The edits of a net rename: the definition's name slot always; the
/// variable and every read of it when the variable changes.
pub open spec fn rename_net_edits(
    idx: FileIndex,
    d: crate::index::NetDef,
    new: Seq<u8>,
    new_var: Seq<u8>,
) -> Seq<EditV> {
    let first = seq![(d.string_start as int, d.string_end as int, name_text(d, new, new_var))];
    if new_var != d.variable@ {
        first + seq![(d.ident_start as int, d.ident_end as int, new_var)] + ref_edits(
            idx.ident_refs@,
            refs_of(idx.ident_refs@, d.variable@),
            new_var,
        )
    } else {
        first
    }
}

/// What `rename_net` does: the new text, the new variable and the number of
/// reads of the old variable, or why it refuses.
pub open spec fn spec_rename_net(c: Seq<u8>, idx: FileIndex, old: Seq<u8>, new: Seq<u8>) -> Result<
    (Seq<u8>, Seq<u8>, nat),
    EditError,
> {
    if !index_fits(idx, c.len()) {
        Err(EditError::IndexMismatch)
    } else if !spec_valid_name(new) {
        Err(EditError::InvalidNetName)
    } else if idx.error is Some {
        Err(EditError::Unparseable)
    } else {
        let ds = defs_named(idx.net_defs@, old);
        if ds.len() == 0 {
            Err(EditError::NoNetDef)
        } else if ds.len() > 1 {
            Err(EditError::AmbiguousNetDef { count: ds.len() as usize })
        } else if defs_named(idx.net_defs@, new).len() > 0 {
            Err(EditError::NetExists)
        } else {
            let d = idx.net_defs@[ds[0] as int];
            let nv = spec_net_variable(new);
            if nv != d.variable@ && listed(idx.bound_idents@, nv) {
                Err(EditError::NameBound)
            } else if listed(idx.nested_bindings@, d.variable@) {
                Err(EditError::Shadowed)
            } else {
                match spec_apply_edits(c, rename_net_edits(idx, d, new, nv)) {
                    None => Err(EditError::Overlap),
                    Some(t) => Ok((t, nv, refs_of(idx.ident_refs@, d.variable@).len())),
                }
            }
        }
    }
}

/// Rename a net: the defining assignment's variable and string literal,
/// plus every read of the variable — variable and net name are one
/// identity. Returns the new text, the new variable and how many reads were
/// rewritten.
fn rename_net_unchecked(content: &[u8], idx: &FileIndex, old: &[u8], new: &[u8]) -> (r: Result<
    (Vec<u8>, Vec<u8>, usize),
    EditError,
>)
    ensures
        r matches Ok((t, v, n)) ==> spec_rename_net(content@, *idx, old@, new@) == Ok::<
            (Seq<u8>, Seq<u8>, nat),
            EditError,
        >((t@, v@, n as nat)),
        r matches Err(e) ==> spec_rename_net(content@, *idx, old@, new@) == Err::<
            (Seq<u8>, Seq<u8>, nat),
            EditError,
        >(e),
{
    if !index_fits_len(idx, content.len()) {
        return Err(EditError::IndexMismatch);
    }
    if !valid_instance_name(new) {
        return Err(EditError::InvalidNetName);
    }
    if idx.error.is_some() {
        return Err(EditError::Unparseable);
    }
    let nd: usize = idx.net_defs.len();
    let nr: usize = idx.ident_refs.len();
    proof {
        lemma_defs_named(idx.net_defs@, old@);
    }
    let ds = find_defs_named(idx, old);
    if ds.len() == 0 {
        return Err(EditError::NoNetDef);
    }
    if ds.len() > 1 {
        return Err(EditError::AmbiguousNetDef { count: ds.len() });
    }
    if find_defs_named(idx, new).len() > 0 {
        return Err(EditError::NetExists);
    }
    let d = &idx.net_defs[ds[0]];
    let new_var = net_variable(new);
    let same = bytes_eq(new_var.as_slice(), d.variable.as_slice());
    if !same && is_bound(idx, new_var.as_slice()) {
        return Err(EditError::NameBound);
    }
    if is_shadowed(idx, d.variable.as_slice()) {
        return Err(EditError::Shadowed);
    }
    proof {
        assert(crate::index::def_fits(*d, content@.len()));
        lemma_refs_of(idx.ident_refs@, d.variable@);
    }
    let refs = find_refs(idx, d.variable.as_slice());
    let ghost want = rename_net_edits(*idx, *d, new@, new_var@);
    let mut edits: Vec<TextEdit> = Vec::new();
    let slot_text = if d.named {
        quote(new)
    } else if bytes_eq(new_var.as_slice(), new) {
        Vec::new()
    } else if d.args_follow {
        let mut t = quote(new);
        push_all(&mut t, lit(", ").as_slice());
        t
    } else {
        quote(new)
    };
    edits.push(TextEdit { start: d.string_start, end: d.string_end, text: slot_text });
    if !same {
        edits.push(TextEdit { start: d.ident_start, end: d.ident_end, text: copy(&new_var) });
        let ghost base = edits_view(edits@);
        let mut k: usize = 0;
        while k < refs.len()
            invariant
                k <= refs@.len(),
                refs@ == refs_of(idx.ident_refs@, d.variable@),
                forall|j: int| 0 <= j < refs@.len() ==> (#[trigger] refs@[j]) < idx.ident_refs@.len(),
                edits_view(edits@) == base + ref_edits(idx.ident_refs@, refs@.take(k as int), new_var@),
            decreases refs.len() - k,
        {
            let rk = refs[k];
            edits.push(TextEdit {
                start: idx.ident_refs[rk].start,
                end: idx.ident_refs[rk].end,
                text: copy(&new_var),
            });
            proof {
                assert(refs@.take(k + 1) == refs@.take(k as int).push(rk));
                assert(ref_edits(idx.ident_refs@, refs@.take(k + 1), new_var@) == ref_edits(
                    idx.ident_refs@,
                    refs@.take(k as int),
                    new_var@,
                ).push((idx.ident_refs@[rk as int].start as int, idx.ident_refs@[rk as int].end as int, new_var@)));
                assert(edits_view(edits@) == edits_view(edits@.drop_last()).push(edit_view(edits@.last())));
                let x = ref_edits(idx.ident_refs@, refs@.take(k as int), new_var@);
                let y = (idx.ident_refs@[rk as int].start as int, idx.ident_refs@[rk as int].end as int, new_var@);
                assert((base + x).push(y) == base + x.push(y));
            }
            k = k + 1;
        }
        assert(refs@.take(refs@.len() as int) == refs@);
    }
    assert(edits_view(edits@) == want);
    proof {
        assert forall|i: int| 0 <= i < want.len() implies 0 <= (#[trigger] want[i]).0 <= want[i].1
            <= content@.len() by {
            if i >= 2 {
                let rk = refs@[i - 2];
                assert(crate::index::span_ok(
                    idx.ident_refs@[rk as int].start,
                    idx.ident_refs@[rk as int].end,
                    content@.len(),
                ));
            }
        }
    }
    match apply_edits(content, edits) {
        Some(t) => Ok((t, new_var, refs.len())),
        None => Err(EditError::Overlap),
    }
}

} // verus!

verus! {

// ---------------------------------------------------------------------------
// Statement deletion and remove_instances
// ---------------------------------------------------------------------------

/// Start of a statement deletion: the start of the statement's line, pulled
/// back over one preceding blank line so the deletion never leaves a double
/// blank behind.
pub open spec fn del_start(c: Seq<u8>, s: int) -> int {
    let b = crate::text::spec_line_boundary_before(c, s);
    if b >= 2 && c[b - 1] == 10u8 && c[b - 2] == 10u8 {
        b - 1
    } else {
        b
    }
}

/// The edit deleting the whole lines of the statement spanning `s..e`.
pub open spec fn del_edit(c: Seq<u8>, s: int, e: int) -> EditV {
    (del_start(c, s), crate::text::spec_line_boundary_after(c, e), Seq::empty())
}

pub proof fn lemma_del_edit_bounds(c: Seq<u8>, s: int, e: int)
    requires
        0 <= s <= e <= c.len(),
    ensures
        0 <= del_edit(c, s, e).0 <= del_edit(c, s, e).1 <= c.len(),
{
    crate::text::lemma_line_boundary_before(c, s);
    crate::text::lemma_line_boundary_after(c, e);
}

pub fn delete_edit(c: &[u8], s: usize, e: usize) -> (r: TextEdit)
    requires
        s <= e <= c@.len(),
    ensures
        edit_view(r) == del_edit(c@, s as int, e as int),
        r.start <= r.end <= c@.len(),
{
    proof {
        lemma_del_edit_bounds(c@, s as int, e as int);
    }
    let mut start = crate::text::line_boundary_before(c, s);
    if start >= 2 && c[start - 1] == 10u8 && c[start - 2] == 10u8 {
        start = start - 1;
    }
    let end = crate::text::line_boundary_after(c, e);
    TextEdit { start, end, text: Vec::new() }
}

/// The call indices for `names`, in order, or the first refusal.
pub open spec fn spec_sites_for(idx: FileIndex, names: Seq<Vec<u8>>) -> Result<Seq<int>, EditError>
    decreases names.len(),
{
    if names.len() == 0 {
        Ok(Seq::empty())
    } else {
        match spec_sites_for(idx, names.drop_last()) {
            Err(e) => Err(e),
            Ok(r) => match spec_unique_call(idx, names.last()@) {
                Err(e) => Err(e),
                Ok(i) => Ok(r.push(i)),
            },
        }
    }
}

/// A span lies inside the statement of one of the removed calls.
pub open spec fn inside_sites(idx: FileIndex, sites: Seq<int>, s: int, e: int) -> bool {
    exists|k: int|
        0 <= k < sites.len() && s >= idx.calls@[sites[k]].stmt_start && e
            <= idx.calls@[sites[k]].stmt_end
}

/// Every read of `var` sat inside a removed statement (and there was one).
pub open spec fn orphaned(idx: FileIndex, sites: Seq<int>, var: Seq<u8>) -> bool {
    let rs = refs_of(idx.ident_refs@, var);
    rs.len() > 0 && forall|k: int|
        0 <= k < rs.len() ==> inside_sites(
            idx,
            sites,
            idx.ident_refs@[rs[k] as int].start as int,
            idx.ident_refs@[rs[k] as int].end as int,
        )
}

/// The callee of some removed call is `ident`.
pub open spec fn is_callee(idx: FileIndex, sites: Seq<int>, ident: Seq<u8>) -> bool {
    exists|k: int| 0 <= k < sites.len() && idx.calls@[sites[k]].callee@ == ident
}

/// Indices (in order) of the net definitions the removal orphans.
pub open spec fn orphan_defs(idx: FileIndex, sites: Seq<int>, n: int) -> Seq<int>
    decreases n,
{
    if n <= 0 {
        Seq::empty()
    } else {
        let r = orphan_defs(idx, sites, n - 1);
        if orphaned(idx, sites, idx.net_defs@[n - 1].variable@) {
            r.push(n - 1)
        } else {
            r
        }
    }
}

/// Indices (in order) of the module bindings the removal orphans.
pub open spec fn orphan_bindings(idx: FileIndex, sites: Seq<int>, n: int) -> Seq<int>
    decreases n,
{
    if n <= 0 {
        Seq::empty()
    } else {
        let r = orphan_bindings(idx, sites, n - 1);
        let id = idx.module_bindings@[n - 1].ident@;
        if is_callee(idx, sites, id) && orphaned(idx, sites, id) {
            r.push(n - 1)
        } else {
            r
        }
    }
}

/// Deleting the statement of call `i`.
pub open spec fn call_del(c: Seq<u8>, idx: FileIndex, i: int) -> EditV {
    del_edit(c, idx.calls@[i].stmt_start as int, idx.calls@[i].stmt_end as int)
}

/// Deleting the statement of net definition `i`.
pub open spec fn def_del(c: Seq<u8>, idx: FileIndex, i: int) -> EditV {
    del_edit(c, idx.net_defs@[i].stmt_start as int, idx.net_defs@[i].stmt_end as int)
}

/// Deleting the statement of module binding `i`.
pub open spec fn binding_del(c: Seq<u8>, idx: FileIndex, i: int) -> EditV {
    del_edit(c, idx.module_bindings@[i].stmt_start as int, idx.module_bindings@[i].stmt_end as int)
}

pub open spec fn def_name(idx: FileIndex, i: int) -> Seq<u8> {
    idx.net_defs@[i].name@
}

pub open spec fn binding_ident(idx: FileIndex, i: int) -> Seq<u8> {
    idx.module_bindings@[i].ident@
}

/// The deletions of one removal: the calls, then the orphaned definitions,
/// then the orphaned bindings.
pub open spec fn removal_edits(c: Seq<u8>, idx: FileIndex, sites: Seq<int>) -> Seq<EditV> {
    let od = orphan_defs(idx, sites, idx.net_defs@.len() as int);
    let ob = orphan_bindings(idx, sites, idx.module_bindings@.len() as int);
    sites.map_values(|i: int| call_del(c, idx, i)) + od.map_values(|i: int| def_del(c, idx, i))
        + ob.map_values(|i: int| binding_del(c, idx, i))
}

/// What `remove_instances` does: the new text, the pruned net names and the
/// pruned binding identifiers, or why it refuses.
pub open spec fn spec_remove_instances(c: Seq<u8>, idx: FileIndex, names: Seq<Vec<u8>>) -> Result<
    (Seq<u8>, Seq<Seq<u8>>, Seq<Seq<u8>>),
    EditError,
> {
    if !index_fits(idx, c.len()) {
        Err(EditError::IndexMismatch)
    } else if names.len() == 0 {
        Err(EditError::NothingToRemove)
    } else if idx.error is Some {
        Err(EditError::Unparseable)
    } else {
        match spec_sites_for(idx, names) {
            Err(e) => Err(e),
            Ok(sites) => match spec_apply_edits(c, removal_edits(c, idx, sites)) {
                None => Err(EditError::Overlap),
                Some(t) => Ok(
                    (
                        t,
                        orphan_defs(idx, sites, idx.net_defs@.len() as int).map_values(
                            |i: int| def_name(idx, i),
                        ),
                        orphan_bindings(idx, sites, idx.module_bindings@.len() as int).map_values(
                            |i: int| binding_ident(idx, i),
                        ),
                    ),
                ),
            },
        }
    }
}

pub open spec fn views(v: Seq<Vec<u8>>) -> Seq<Seq<u8>> {
    v.map_values(|x: Vec<u8>| x@)
}

fn inside_exec(idx: &FileIndex, sites: &Vec<usize>, s: usize, e: usize) -> (r: bool)
    requires
        forall|k: int| 0 <= k < sites@.len() ==> (#[trigger] sites@[k]) < idx.calls@.len(),
    ensures
        r == inside_sites(*idx, sites@.map_values(|x: usize| x as int), s as int, e as int),
{
    let ghost sv = sites@.map_values(|x: usize| x as int);
    let mut k: usize = 0;
    while k < sites.len()
        invariant
            k <= sites@.len(),
            sv == sites@.map_values(|x: usize| x as int),
            forall|j: int| 0 <= j < sites@.len() ==> (#[trigger] sites@[j]) < idx.calls@.len(),
            forall|j: int|
                0 <= j < k ==> !(s >= idx.calls@[sv[j]].stmt_start && e
                    <= idx.calls@[sv[j]].stmt_end),
        decreases sites.len() - k,
    {
        let c = &idx.calls[sites[k]];
        if s >= c.stmt_start && e <= c.stmt_end {
            assert(sv[k as int] == sites@[k as int] as int);
            return true;
        }
        k = k + 1;
    }
    false
}

fn orphaned_exec(idx: &FileIndex, sites: &Vec<usize>, var: &[u8]) -> (r: bool)
    requires
        forall|k: int| 0 <= k < sites@.len() ==> (#[trigger] sites@[k]) < idx.calls@.len(),
    ensures
        r == orphaned(*idx, sites@.map_values(|x: usize| x as int), var@),
{
    let nr: usize = idx.ident_refs.len();
    proof {
        lemma_refs_of(idx.ident_refs@, var@);
    }
    let rs = find_refs(idx, var);
    if rs.len() == 0 {
        return false;
    }
    let ghost sv = sites@.map_values(|x: usize| x as int);
    let mut k: usize = 0;
    while k < rs.len()
        invariant
            k <= rs@.len(),
            rs@ == refs_of(idx.ident_refs@, var@),
            forall|j: int| 0 <= j < rs@.len() ==> (#[trigger] rs@[j]) < idx.ident_refs@.len(),
            sv == sites@.map_values(|x: usize| x as int),
            forall|j: int| 0 <= j < sites@.len() ==> (#[trigger] sites@[j]) < idx.calls@.len(),
            forall|j: int|
                0 <= j < k ==> inside_sites(
                    *idx,
                    sv,
                    idx.ident_refs@[rs@[j] as int].start as int,
                    idx.ident_refs@[rs@[j] as int].end as int,
                ),
        decreases rs.len() - k,
    {
        let rr = &idx.ident_refs[rs[k]];
        if !inside_exec(idx, sites, rr.start, rr.end) {
            return false;
        }
        k = k + 1;
    }
    true
}

fn is_callee_exec(idx: &FileIndex, sites: &Vec<usize>, ident: &[u8]) -> (r: bool)
    requires
        forall|k: int| 0 <= k < sites@.len() ==> (#[trigger] sites@[k]) < idx.calls@.len(),
    ensures
        r == is_callee(*idx, sites@.map_values(|x: usize| x as int), ident@),
{
    let ghost sv = sites@.map_values(|x: usize| x as int);
    let mut k: usize = 0;
    while k < sites.len()
        invariant
            k <= sites@.len(),
            sv == sites@.map_values(|x: usize| x as int),
            forall|j: int| 0 <= j < sites@.len() ==> (#[trigger] sites@[j]) < idx.calls@.len(),
            forall|j: int| 0 <= j < k ==> idx.calls@[sv[j]].callee@ != ident@,
        decreases sites.len() - k,
    {
        if bytes_eq(idx.calls[sites[k]].callee.as_slice(), ident) {
            assert(sv[k as int] == sites@[k as int] as int);
            return true;
        }
        k = k + 1;
    }
    false
}

pub struct RemoveInstancesResult {
    pub removed: Vec<Vec<u8>>,
    /// Net definitions orphaned by the removal, pruned in the same write.
    pub pruned_nets: Vec<Vec<u8>>,
    /// Module bindings no longer used by anything, pruned too.
    pub pruned_bindings: Vec<Vec<u8>>,
}

/// `key` addresses instance `n` or something inside it: it is `n` itself or
/// `n.` followed by more.
pub open spec fn key_of(key: Seq<u8>, n: Seq<u8>) -> bool {
    key == n || (key.len() > n.len() && key.subrange(0, n.len() as int) == n && key[n.len() as int]
        == 46u8)
}

pub open spec fn key_of_any(key: Seq<u8>, names: Seq<Vec<u8>>) -> bool {
    exists|j: int| 0 <= j < names.len() && key_of(key, #[trigger] names[j]@)
}

/// The position keys that go with removed instances, in input order.
pub open spec fn spec_removed_keys(keys: Seq<Vec<u8>>, names: Seq<Vec<u8>>) -> Seq<Seq<u8>>
    decreases keys.len(),
{
    if keys.len() == 0 {
        Seq::empty()
    } else {
        let r = spec_removed_keys(keys.drop_last(), names);
        if key_of_any(keys.last()@, names) {
            r.push(keys.last()@)
        } else {
            r
        }
    }
}

fn key_of_exec(key: &[u8], n: &[u8]) -> (r: bool)
    ensures
        r == key_of(key@, n@),
{
    bytes_eq(key, n) || (key.len() > n.len() && crate::bytes::starts_with(key, n) && key[n.len()]
        == 46u8)
}

fn key_of_any_exec(key: &[u8], names: &Vec<Vec<u8>>) -> (r: bool)
    ensures
        r == key_of_any(key@, names@),
{
    let mut j: usize = 0;
    while j < names.len()
        invariant
            j <= names@.len(),
            forall|i: int| 0 <= i < j ==> !key_of(key@, #[trigger] names@[i]@),
        decreases names.len() - j,
    {
        if key_of_exec(key, names[j].as_slice()) {
            return true;
        }
        j = j + 1;
    }
    false
}

/// The `# pcb:sch` keys to drop when `names` are removed: each key that is
/// a removed name or starts with one and a dot.
pub fn removed_position_keys(keys: &Vec<Vec<u8>>, names: &Vec<Vec<u8>>) -> (r: Vec<Vec<u8>>)
    ensures
        views(r@) == spec_removed_keys(keys@, names@),
{
    let mut out: Vec<Vec<u8>> = Vec::new();
    let mut i: usize = 0;
    proof {
        assert(views(out@) =~= Seq::<Seq<u8>>::empty());
    }
    while i < keys.len()
        invariant
            i <= keys@.len(),
            views(out@) == spec_removed_keys(keys@.take(i as int), names@),
        decreases keys.len() - i,
    {
        proof {
            assert(keys@.take(i + 1).drop_last() =~= keys@.take(i as int));
            assert(keys@.take(i + 1).last() == keys@[i as int]);
        }
        if key_of_any_exec(keys[i].as_slice(), names) {
            let ghost old_out = out@;
            let k = copy(&keys[i]);
            out.push(k);
            proof {
                crate::text::lemma_map_push(old_out, k, |x: Vec<u8>| x@);
            }
        }
        i = i + 1;
    }
    assert(keys@.take(keys@.len() as int) =~= keys@);
    out
}

/// Delete instances in one batch: the call statements go, and net
/// definitions and `Module` bindings that nothing else reads are pruned.
fn remove_instances_unchecked(content: &[u8], idx: &FileIndex, names: &Vec<Vec<u8>>) -> (r: Result<
    (Vec<u8>, RemoveInstancesResult),
    EditError,
>)
    ensures
        r matches Ok((t, res)) ==> spec_remove_instances(content@, *idx, names@) == Ok::<
            (Seq<u8>, Seq<Seq<u8>>, Seq<Seq<u8>>),
            EditError,
        >((t@, views(res.pruned_nets@), views(res.pruned_bindings@))) && views(res.removed@)
            == views(names@),
        r matches Err(e) ==> spec_remove_instances(content@, *idx, names@) == Err::<
            (Seq<u8>, Seq<Seq<u8>>, Seq<Seq<u8>>),
            EditError,
        >(e),
{
    if !index_fits_len(idx, content.len()) {
        return Err(EditError::IndexMismatch);
    }
    if names.len() == 0 {
        return Err(EditError::NothingToRemove);
    }
    if idx.error.is_some() {
        return Err(EditError::Unparseable);
    }
    let sites = match sites_for(idx, names) {
        Ok(v) => v,
        Err(e) => {
            return Err(e);
        },
    };
    let ghost sv = sites@.map_values(|x: usize| x as int);
    let mut edits: Vec<TextEdit> = Vec::new();
    let mut k: usize = 0;
    proof {
        assert(sv.take(0) =~= Seq::<int>::empty());
        assert(edits_view(edits@) =~= Seq::<EditV>::empty());
    }
    while k < sites.len()
        invariant
            k <= sites@.len(),
            sv == sites@.map_values(|x: usize| x as int),
            forall|j: int| 0 <= j < sites@.len() ==> (#[trigger] sites@[j]) < idx.calls@.len(),
            index_fits(*idx, content@.len()),
            edits_view(edits@) == sv.take(k as int).map_values(|i: int| call_del(content@, *idx, i)),
            crate::text::edits_in_bounds(edits_view(edits@), content@.len()),
        decreases sites.len() - k,
    {
        let c = &idx.calls[sites[k]];
        proof {
            assert(crate::index::call_fits(idx.calls@[sites@[k as int] as int], content@.len()));
        }
        let e = delete_edit(content, c.stmt_start, c.stmt_end);
        let ghost old_edits = edits@;
        edits.push(e);
        proof {
            assert(sv.take(k + 1) =~= sv.take(k as int).push(sv[k as int]));
            crate::text::lemma_map_push(sv.take(k as int), sv[k as int], |i: int| call_del(content@, *idx, i));
            crate::text::lemma_edits_view_push(old_edits, e);
            crate::text::lemma_in_bounds_push(edits_view(old_edits), edit_view(e), content@.len());
        }
        k = k + 1;
    }
    assert(sv.take(sv.len() as int) =~= sv);
    let ghost e1 = edits_view(edits@);
    let mut pruned_nets: Vec<Vec<u8>> = Vec::new();
    let mut d: usize = 0;
    proof {
        assert(e1 + orphan_defs(*idx, sv, 0).map_values(|i: int| def_del(content@, *idx, i)) =~= e1);
        assert(views(pruned_nets@) =~= orphan_defs(*idx, sv, 0).map_values(|i: int| def_name(*idx, i)));
    }
    while d < idx.net_defs.len()
        invariant
            d <= idx.net_defs@.len(),
            sv == sites@.map_values(|x: usize| x as int),
            forall|j: int| 0 <= j < sites@.len() ==> (#[trigger] sites@[j]) < idx.calls@.len(),
            index_fits(*idx, content@.len()),
            edits_view(edits@) == e1 + orphan_defs(*idx, sv, d as int).map_values(
                |i: int| def_del(content@, *idx, i),
            ),
            views(pruned_nets@) == orphan_defs(*idx, sv, d as int).map_values(|i: int| def_name(*idx, i)),
            crate::text::edits_in_bounds(edits_view(edits@), content@.len()),
        decreases idx.net_defs.len() - d,
    {
        let def = &idx.net_defs[d];
        let ghost od = orphan_defs(*idx, sv, d as int);
        if orphaned_exec(idx, &sites, def.variable.as_slice()) {
            proof {
                assert(crate::index::def_fits(idx.net_defs@[d as int], content@.len()));
            }
            let e = delete_edit(content, def.stmt_start, def.stmt_end);
            let ghost old_edits = edits@;
            let ghost old_pruned = pruned_nets@;
            edits.push(e);
            let nm = copy(&def.name);
            pruned_nets.push(nm);
            proof {
                assert(orphan_defs(*idx, sv, d + 1) == od.push(d as int));
                crate::text::lemma_map_push(od, d as int, |i: int| def_del(content@, *idx, i));
                crate::text::lemma_map_push(od, d as int, |i: int| def_name(*idx, i));
                crate::text::lemma_append_push(
                    e1,
                    od.map_values(|i: int| def_del(content@, *idx, i)),
                    edit_view(e),
                );
                crate::text::lemma_edits_view_push(old_edits, e);
                crate::text::lemma_map_push(old_pruned, nm, |x: Vec<u8>| x@);
                crate::text::lemma_in_bounds_push(edits_view(old_edits), edit_view(e), content@.len());
            }
        } else {
            assert(orphan_defs(*idx, sv, d + 1) == od);
        }
        d = d + 1;
    }
    let ghost e2 = edits_view(edits@);
    let mut pruned_bindings: Vec<Vec<u8>> = Vec::new();
    let mut b: usize = 0;
    proof {
        assert(e2 + orphan_bindings(*idx, sv, 0).map_values(|i: int| binding_del(content@, *idx, i)) =~= e2);
        assert(views(pruned_bindings@) =~= orphan_bindings(*idx, sv, 0).map_values(
            |i: int| binding_ident(*idx, i),
        ));
    }
    while b < idx.module_bindings.len()
        invariant
            b <= idx.module_bindings@.len(),
            sv == sites@.map_values(|x: usize| x as int),
            forall|j: int| 0 <= j < sites@.len() ==> (#[trigger] sites@[j]) < idx.calls@.len(),
            index_fits(*idx, content@.len()),
            edits_view(edits@) == e2 + orphan_bindings(*idx, sv, b as int).map_values(
                |i: int| binding_del(content@, *idx, i),
            ),
            views(pruned_bindings@) == orphan_bindings(*idx, sv, b as int).map_values(
                |i: int| binding_ident(*idx, i),
            ),
            crate::text::edits_in_bounds(edits_view(edits@), content@.len()),
        decreases idx.module_bindings.len() - b,
    {
        let mb = &idx.module_bindings[b];
        let ghost ob = orphan_bindings(*idx, sv, b as int);
        if is_callee_exec(idx, &sites, mb.ident.as_slice()) && orphaned_exec(
            idx,
            &sites,
            mb.ident.as_slice(),
        ) {
            proof {
                assert(crate::index::span_ok(
                    idx.module_bindings@[b as int].stmt_start,
                    idx.module_bindings@[b as int].stmt_end,
                    content@.len(),
                ));
            }
            let e = delete_edit(content, mb.stmt_start, mb.stmt_end);
            let ghost old_edits = edits@;
            let ghost old_pruned = pruned_bindings@;
            edits.push(e);
            let nm = copy(&mb.ident);
            pruned_bindings.push(nm);
            proof {
                assert(orphan_bindings(*idx, sv, b + 1) == ob.push(b as int));
                crate::text::lemma_map_push(ob, b as int, |i: int| binding_del(content@, *idx, i));
                crate::text::lemma_map_push(ob, b as int, |i: int| binding_ident(*idx, i));
                crate::text::lemma_append_push(
                    e2,
                    ob.map_values(|i: int| binding_del(content@, *idx, i)),
                    edit_view(e),
                );
                crate::text::lemma_edits_view_push(old_edits, e);
                crate::text::lemma_map_push(old_pruned, nm, |x: Vec<u8>| x@);
                crate::text::lemma_in_bounds_push(edits_view(old_edits), edit_view(e), content@.len());
            }
        } else {
            assert(orphan_bindings(*idx, sv, b + 1) == ob);
        }
        b = b + 1;
    }
    proof {
        let od = orphan_defs(*idx, sv, idx.net_defs@.len() as int);
        let ob = orphan_bindings(*idx, sv, idx.module_bindings@.len() as int);
        assert(edits_view(edits@) =~= removal_edits(content@, *idx, sv));
    }
    let removed = copy_all(names);
    match apply_edits(content, edits) {
        Some(t) => Ok((t, RemoveInstancesResult { removed, pruned_nets, pruned_bindings })),
        None => Err(EditError::Overlap),
    }
}

/// Each name copied.
pub fn copy_all(names: &Vec<Vec<u8>>) -> (r: Vec<Vec<u8>>)
    ensures
        views(r@) == views(names@),
{
    let mut out: Vec<Vec<u8>> = Vec::new();
    let mut i: usize = 0;
    proof {
        assert(views(out@) =~= views(names@.take(0)));
    }
    while i < names.len()
        invariant
            i <= names@.len(),
            views(out@) == views(names@.take(i as int)),
        decreases names.len() - i,
    {
        let ghost old_out = out@;
        let c = copy(&names[i]);
        out.push(c);
        proof {
            assert(names@.take(i + 1) =~= names@.take(i as int).push(names@[i as int]));
            crate::text::lemma_map_push(old_out, c, |x: Vec<u8>| x@);
            crate::text::lemma_map_push(names@.take(i as int), names@[i as int], |x: Vec<u8>| x@);
        }
        i = i + 1;
    }
    assert(names@.take(names@.len() as int) =~= names@);
    out
}

/// The call index of every name, in order, or the first refusal.
pub fn sites_for(idx: &FileIndex, names: &Vec<Vec<u8>>) -> (r: Result<Vec<usize>, EditError>)
    ensures
        r matches Ok(v) ==> spec_sites_for(*idx, names@) == Ok::<Seq<int>, EditError>(
            v@.map_values(|x: usize| x as int),
        ) && forall|k: int| 0 <= k < v@.len() ==> (#[trigger] v@[k]) < idx.calls@.len(),
        r matches Err(e) ==> spec_sites_for(*idx, names@) == Err::<Seq<int>, EditError>(e),
{
    let mut sites: Vec<usize> = Vec::new();
    let mut n: usize = 0;
    proof {
        assert(names@.take(0) =~= Seq::<Vec<u8>>::empty());
        assert(sites@.map_values(|x: usize| x as int) =~= Seq::<int>::empty());
    }
    while n < names.len()
        invariant
            n <= names@.len(),
            spec_sites_for(*idx, names@.take(n as int)) == Ok::<Seq<int>, EditError>(
                sites@.map_values(|x: usize| x as int),
            ),
            forall|k: int| 0 <= k < sites@.len() ==> (#[trigger] sites@[k]) < idx.calls@.len(),
        decreases names.len() - n,
    {
        let ghost t = names@.take(n + 1);
        let ghost old_sites = sites@;
        proof {
            assert(t.drop_last() =~= names@.take(n as int));
            assert(t.last() == names@[n as int]);
        }
        match unique_call(idx, names[n].as_slice()) {
            Ok(i) => {
                sites.push(i);
                proof {
                    crate::text::lemma_map_push(old_sites, i, |x: usize| x as int);
                    assert(spec_sites_for(*idx, t) == Ok::<Seq<int>, EditError>(
                        old_sites.map_values(|x: usize| x as int).push(i as int),
                    ));
                }
            },
            Err(e) => {
                proof {
                    assert(spec_sites_for(*idx, t) == Err::<Seq<int>, EditError>(e));
                    lemma_sites_err_prefix(*idx, names@, n + 1, e);
                }
                return Err(e);
            },
        }
        n = n + 1;
    }
    assert(names@.take(names@.len() as int) =~= names@);
    Ok(sites)
}

/// Once a prefix of the names refuses, the whole list refuses the same way.
proof fn lemma_sites_err_prefix(idx: FileIndex, names: Seq<Vec<u8>>, n: int, e: EditError)
    requires
        0 < n <= names.len(),
        spec_sites_for(idx, names.take(n)) == Err::<Seq<int>, EditError>(e),
    ensures
        spec_sites_for(idx, names) == Err::<Seq<int>, EditError>(e),
    decreases names.len() - n,
{
    if n < names.len() {
        assert(names.take(n + 1).drop_last() == names.take(n));
        lemma_sites_err_prefix(idx, names, n + 1, e);
    } else {
        assert(names.take(n) == names);
    }
}


/// Renaming an instance back undoes the key migration: a key moved from
/// `old` to `new` moves back from `new` to exactly the key it was.
pub proof fn law_migrate_round_trip(key: Seq<u8>, old: Seq<u8>, new: Seq<u8>)
    ensures
        spec_migrate_key(key, old, new) matches Some(k2) ==> spec_migrate_key(k2, new, old) == Some(key),
{
    if key != old && key.len() > old.len() && key.subrange(0, old.len() as int) == old
        && key[old.len() as int] == 46u8 {
        let rest = key.subrange(old.len() as int, key.len() as int);
        let k2 = new + rest;
        assert(k2.subrange(0, new.len() as int) =~= new);
        assert(k2[new.len() as int] == rest[0]);
        assert(k2 != new);
        assert(k2.subrange(new.len() as int, k2.len() as int) =~= rest);
        assert(old + rest =~= key);
    }
}


/// Rename the `name="…"` literal of the unique top-level call named `old`.
/// The new text is handed back only when it parses.
pub fn rename_instance(content: &[u8], idx: &FileIndex, old: &[u8], new: &[u8]) -> (r: Result<
    Vec<u8>,
    EditError,
>)
    ensures
        r matches Ok(t) ==> spec_rename_instance(content@, *idx, old@, new@) == Ok::<Seq<u8>, EditError>(t@)
            && crate::source::zen_parses(t@),
        r matches Err(e) ==> spec_rename_instance(content@, *idx, old@, new@) == Err::<Seq<u8>, EditError>(e)
            || (e == EditError::InvalidOutput && (spec_rename_instance(content@, *idx, old@, new@) matches Ok(t)
            && !crate::source::zen_parses(t))),
        spec_rename_instance(content@, *idx, old@, new@) matches Ok(t) && crate::source::zen_parses(t) ==> r is Ok,
{
    match rename_instance_unchecked(content, idx, old, new) {
        Ok(t) => if crate::source::parses(t.as_slice()) {
            Ok(t)
        } else {
            Err(EditError::InvalidOutput)
        },
        Err(e) => Err(e),
    }
}

/// Rename a net: the definition's name slot and variable, plus every read
/// of the variable. The new text is handed back only when it parses.
pub fn rename_net(content: &[u8], idx: &FileIndex, old: &[u8], new: &[u8]) -> (r: Result<
    (Vec<u8>, Vec<u8>, usize),
    EditError,
>)
    ensures
        r matches Ok((t, v, n)) ==> spec_rename_net(content@, *idx, old@, new@) == Ok::<
            (Seq<u8>, Seq<u8>, nat),
            EditError,
        >((t@, v@, n as nat)) && crate::source::zen_parses(t@),
        r matches Err(e) ==> spec_rename_net(content@, *idx, old@, new@) == Err::<
            (Seq<u8>, Seq<u8>, nat),
            EditError,
        >(e) || (e == EditError::InvalidOutput && (spec_rename_net(content@, *idx, old@, new@) matches Ok(x)
            && !crate::source::zen_parses(x.0))),
        spec_rename_net(content@, *idx, old@, new@) matches Ok(x) && crate::source::zen_parses(x.0) ==> r is Ok,
{
    match rename_net_unchecked(content, idx, old, new) {
        Ok((t, v, n)) => if crate::source::parses(t.as_slice()) {
            Ok((t, v, n))
        } else {
            Err(EditError::InvalidOutput)
        },
        Err(e) => Err(e),
    }
}

/// Replace (or add) one attribute kwarg's value as a string literal; the
/// new text is handed back only when it parses.
pub fn set_attribute(
    content: &[u8],
    idx: &FileIndex,
    facts: &ModuleFacts,
    instance: &[u8],
    key: &[u8],
    value: &[u8],
) -> (r: Result<(Vec<u8>, SetAttributeResult), EditError>)
    ensures
        r matches Ok((t, res)) ==> spec_set_attribute(content@, *idx, *facts, instance@, key@, spec_debug_str(value@))
            == Ok::<(Seq<u8>, bool), EditError>((t@, res.replaced)) && crate::source::zen_parses(t@),
        r matches Err(e) ==> spec_set_attribute(content@, *idx, *facts, instance@, key@, spec_debug_str(value@))
            == Err::<(Seq<u8>, bool), EditError>(e) || (e == EditError::InvalidOutput && (spec_set_attribute(
            content@, *idx, *facts, instance@, key@, spec_debug_str(value@)) matches Ok(x)
            && !crate::source::zen_parses(x.0))),
        spec_set_attribute(content@, *idx, *facts, instance@, key@, spec_debug_str(value@)) matches Ok(x)
            && crate::source::zen_parses(x.0) ==> r is Ok,
{
    match set_attribute_unchecked(content, idx, facts, instance, key, value) {
        Ok((t, res)) => if crate::source::parses(t.as_slice()) {
            Ok((t, res))
        } else {
            Err(EditError::InvalidOutput)
        },
        Err(e) => Err(e),
    }
}

/// Delete instances in one batch, pruning what only they read; the new
/// text is handed back only when it parses.
pub fn remove_instances(content: &[u8], idx: &FileIndex, names: &Vec<Vec<u8>>) -> (r: Result<
    (Vec<u8>, RemoveInstancesResult),
    EditError,
>)
    ensures
        r matches Ok((t, res)) ==> spec_remove_instances(content@, *idx, names@) == Ok::<
            (Seq<u8>, Seq<Seq<u8>>, Seq<Seq<u8>>),
            EditError,
        >((t@, views(res.pruned_nets@), views(res.pruned_bindings@))) && views(res.removed@)
            == views(names@) && crate::source::zen_parses(t@),
        r matches Err(e) ==> spec_remove_instances(content@, *idx, names@) == Err::<
            (Seq<u8>, Seq<Seq<u8>>, Seq<Seq<u8>>),
            EditError,
        >(e) || (e == EditError::InvalidOutput && (spec_remove_instances(content@, *idx, names@) matches Ok(x)
            && !crate::source::zen_parses(x.0))),
        spec_remove_instances(content@, *idx, names@) matches Ok(x) && crate::source::zen_parses(x.0) ==> r is Ok,
{
    match remove_instances_unchecked(content, idx, names) {
        Ok((t, res)) => if crate::source::parses(t.as_slice()) {
            Ok((t, res))
        } else {
            Err(EditError::InvalidOutput)
        },
        Err(e) => Err(e),
    }
}


/// A rename happens only to a valid name not yet taken, of the one
/// top-level call carrying the old name, in a file that parses.
pub proof fn law_rename_instance_refusals(c: Seq<u8>, idx: FileIndex, old: Seq<u8>, new: Seq<u8>)
    ensures
        spec_rename_instance(c, idx, old, new) is Ok ==> spec_valid_name(new) && idx.error is None
            && calls_named(idx.calls@, old).len() == 1 && calls_named(idx.calls@, new).len() == 0,
{
}

/// `name` is never set as an attribute (it is the instance's identity):
/// asking to is refused, and an attribute edit that goes through names a
/// valid key other than `name`.
pub proof fn law_set_attribute_refusals(
    c: Seq<u8>,
    idx: FileIndex,
    facts: ModuleFacts,
    instance: Seq<u8>,
    key: Seq<u8>,
    vq: Seq<u8>,
)
    ensures
        index_fits(idx, c.len()) && key == "name".spec_bytes() ==> spec_set_attribute(
            c,
            idx,
            facts,
            instance,
            key,
            vq,
        ) == Err::<(Seq<u8>, bool), EditError>(EditError::NameIsIdentity),
        spec_set_attribute(c, idx, facts, instance, key, vq) is Ok ==> key != "name".spec_bytes()
            && spec_valid_attr_key(key) && idx.error is None,
{
}

} // verus!
