//! What a module file declares about itself, statically, from literals.
use vstd::prelude::*;
use crate::bytes::{bytes_eq, copy, lit, slice_copy, spec_rfind_byte};
use crate::text::push_all;
use crate::writers::views;
use crate::probe::{assoc_insert, map_insert, Assoc};
use crate::placement::plan_view;
use crate::syntax::{
    arg_named, arg_named_exec, args_exec, args_of, callee_exec, callee_of, has_named, has_named_exec,
    ident_exec, ident_of, named_str, named_str_from, str_exec, str_of, Arg, ArgKind, Expr, Spanned,
    Stmt, Target, TopStmt,
};
use vstd::string::StringSliceAdditionalSpecFns;

verus! {

/// A module's parameter surface. Everything is optional: a module that
/// computes these stays usable, it just loses position write-through or
/// name suggestions.
pub struct ModuleFacts {
    /// The single top-level `Component(name="X")` literal.
    pub component_child: Option<Vec<u8>>,
    /// `Component(…, prefix="R")`.
    pub prefix: Option<Vec<u8>>,
    /// Top-level `IDENT = io(…)` declarations without `optional=…`, in
    /// order: these must be bound at instantiation.
    pub required_ios: Vec<Vec<u8>>,
    /// The Component call's literal `pins={"1": P1, …}` dict: component pin
    /// name -> io identifier, keys unique.
    pub pin_map: Vec<(Vec<u8>, Vec<u8>)>,
    /// `IDENT = config(Type, …)` declarations: parameter -> type name, keys
    /// unique.
    pub config_types: Vec<(Vec<u8>, Vec<u8>)>,
    /// Configs with neither `default=` nor `optional=`.
    pub config_required: Vec<Vec<u8>>,
    /// `IDENT = enum("a", "b", …)` declarations: enum type -> variants.
    pub enums: Vec<(Vec<u8>, Vec<Vec<u8>>)>,
    /// Loaded symbols: symbol -> load module string (board form).
    pub type_loads: Vec<(Vec<u8>, Vec<u8>)>,
}

pub open spec fn has_key<V>(m: Seq<(Vec<u8>, V)>, k: Seq<u8>) -> bool {
    exists|i: int| 0 <= i < m.len() && m[i].0@ == k
}

pub open spec fn has_value<K>(m: Seq<(K, Vec<u8>)>, v: Seq<u8>) -> bool {
    exists|i: int| 0 <= i < m.len() && m[i].1@ == v
}

/// The value stored under the first entry with key `k`.
pub open spec fn lookup_from<V>(m: Seq<(Vec<u8>, V)>, k: Seq<u8>, from: int) -> Option<V>
    decreases m.len() - from,
{
    if from < 0 || from >= m.len() {
        None
    } else if m[from].0@ == k {
        Some(m[from].1)
    } else {
        lookup_from(m, k, from + 1)
    }
}

pub open spec fn lookup<V>(m: Seq<(Vec<u8>, V)>, k: Seq<u8>) -> Option<V> {
    lookup_from(m, k, 0)
}

pub proof fn lemma_lookup_from<V>(m: Seq<(Vec<u8>, V)>, k: Seq<u8>, from: int)
    requires
        from >= 0,
    ensures
        lookup_from(m, k, from) is None <==> forall|j: int| from <= j < m.len() ==> m[j].0@ != k,
        lookup_from(m, k, from) matches Some(v) ==> exists|j: int|
            from <= j < m.len() && m[j].0@ == k && m[j].1 == v,
    decreases m.len() - from,
{
    if from < m.len() && m[from].0@ != k {
        lemma_lookup_from(m, k, from + 1);
    }
}

/// Index of the first entry with key `k`.
pub fn find_key<V>(m: &Vec<(Vec<u8>, V)>, k: &[u8]) -> (r: Option<usize>)
    ensures
        r matches Some(i) ==> i < m@.len() && m@[i as int].0@ == k@ && lookup(m@, k@) == Some(
            m@[i as int].1,
        ),
        r is None ==> lookup(m@, k@) is None,
        r is None <==> !has_key(m@, k@),
{
    proof {
        lemma_lookup_from(m@, k@, 0);
    }
    let mut i: usize = 0;
    while i < m.len()
        invariant
            i <= m@.len(),
            lookup(m@, k@) == lookup_from(m@, k@, i as int),
            forall|j: int| 0 <= j < i ==> m@[j].0@ != k@,
        decreases m.len() - i,
    {
        if crate::bytes::bytes_eq(m[i].0.as_slice(), k) {
            return Some(i);
        }
        i = i + 1;
    }
    None
}

/// Does any entry carry value `v`?
pub fn find_value<K>(m: &Vec<(K, Vec<u8>)>, v: &[u8]) -> (r: bool)
    ensures
        r == has_value(m@, v@),
{
    let mut i: usize = 0;
    while i < m.len()
        invariant
            i <= m@.len(),
            forall|j: int| 0 <= j < i ==> m@[j].1@ != v@,
        decreases m.len() - i,
    {
        if crate::bytes::bytes_eq(m[i].1.as_slice(), v) {
            return true;
        }
        i = i + 1;
    }
    false
}

// ---------------------------------------------------------------------------
// Load paths
// ---------------------------------------------------------------------------

/// `str::split('/')`: the pieces between slashes, at least one.
pub open spec fn split_slash(s: Seq<u8>) -> Seq<Seq<u8>>
    decreases s.len(),
{
    match spec_rfind_byte(s, 47u8) {
        Some(i) => {
            proof {
                crate::bytes::lemma_rfind_byte(s, 47u8);
            }
            split_slash(s.subrange(0, i)).push(s.subrange(i + 1, s.len() as int))
        },
        None => seq![s],
    }
}

proof fn lemma_split_push(s: Seq<u8>, b: u8)
    ensures
        b == 47u8 ==> split_slash(s.push(b)) == split_slash(s).push(Seq::<u8>::empty()),
        b != 47u8 ==> split_slash(s.push(b)) == split_slash(s).drop_last().push(
            split_slash(s).last().push(b),
        ),
        split_slash(s).len() > 0,
    decreases s.len(),
{
    let t = s.push(b);
    crate::bytes::lemma_rfind_byte(s, 47u8);
    crate::bytes::lemma_rfind_byte(t, 47u8);
    assert(t.drop_last() =~= s);
    if b == 47u8 {
        assert(t.subrange(0, s.len() as int) =~= s);
        assert(t.subrange(s.len() + 1 as int, t.len() as int) =~= Seq::<u8>::empty());
        match spec_rfind_byte(s, 47u8) {
            Some(i) => {
                lemma_split_push(s.subrange(0, i), s[i]);
            },
            None => {},
        }
    } else {
        assert(spec_rfind_byte(t, 47u8) == spec_rfind_byte(s, 47u8));
        match spec_rfind_byte(s, 47u8) {
            Some(i) => {
                assert(t.subrange(0, i) =~= s.subrange(0, i));
                assert(t.subrange(i + 1, t.len() as int) =~= s.subrange(i + 1, s.len() as int).push(
                    b,
                ));
                lemma_split_push(s.subrange(0, i), s[i]);
            },
            None => {
                assert(split_slash(t) =~= seq![t]);
            },
        }
    }
}

pub fn split_slash_exec(s: &[u8]) -> (r: Vec<Vec<u8>>)
    ensures
        views(r@) == split_slash(s@),
{
    let mut segs: Vec<Vec<u8>> = Vec::new();
    let mut cur: Vec<u8> = Vec::new();
    let mut i: usize = 0;
    assert(s@.take(0) =~= Seq::<u8>::empty());
    assert(split_slash(Seq::<u8>::empty()) =~= seq![Seq::<u8>::empty()]);
    assert(views(segs@).push(cur@) =~= seq![Seq::<u8>::empty()]);
    while i < s.len()
        invariant
            i <= s@.len(),
            split_slash(s@.take(i as int)) == views(segs@).push(cur@),
        decreases s.len() - i,
    {
        proof {
            assert(s@.take(i + 1) =~= s@.take(i as int).push(s@[i as int]));
            lemma_split_push(s@.take(i as int), s@[i as int]);
        }
        if s[i] == 47u8 {
            let ghost old = segs@;
            let ghost old_cur = cur@;
            let done = cur;
            segs.push(done);
            cur = Vec::new();
            proof {
                crate::text::lemma_map_push(old, done, |x: Vec<u8>| x@);
                assert(segs@ == old.push(done));
                assert(cur@ =~= Seq::<u8>::empty());
                assert(views(segs@) == views(old).push(old_cur));
            }
        } else {
            let ghost oc = cur@;
            cur.push(s[i]);
            proof {
                let w = views(segs@);
                assert(w.push(oc).drop_last() =~= w);
                assert(w.push(oc).last() == oc);
                assert(cur@ == oc.push(s@[i as int]));
            }
        }
        i = i + 1;
    }
    assert(s@.take(s@.len() as int) =~= s@);
    let ghost old = segs@;
    segs.push(cur);
    proof {
        crate::text::lemma_map_push(old, cur, |x: Vec<u8>| x@);
    }
    segs
}

pub open spec fn keep_part(p: Seq<u8>) -> bool {
    p.len() > 0 && p != seq![46u8]
}

/// The non-empty pieces other than `.`.
pub open spec fn kept(parts: Seq<Seq<u8>>) -> Seq<Seq<u8>>
    decreases parts.len(),
{
    if parts.len() == 0 {
        Seq::empty()
    } else if keep_part(parts.last()) {
        kept(parts.drop_last()).push(parts.last())
    } else {
        kept(parts.drop_last())
    }
}

/// The path pieces after walking `segs`: empty pieces and `.` stay, `..`
/// pops one (when there is one), anything else is pushed.
pub open spec fn walk_segs(parts: Seq<Seq<u8>>, segs: Seq<Seq<u8>>) -> Seq<Seq<u8>>
    decreases segs.len(),
{
    if segs.len() == 0 {
        parts
    } else {
        let p = walk_segs(parts, segs.drop_last());
        let sg = segs.last();
        if !keep_part(sg) {
            p
        } else if sg == seq![46u8, 46u8] {
            if p.len() > 0 {
                p.drop_last()
            } else {
                p
            }
        } else {
            p.push(sg)
        }
    }
}

/// The pieces joined with `/`.
pub open spec fn join_slash(parts: Seq<Seq<u8>>) -> Seq<u8>
    decreases parts.len(),
{
    if parts.len() == 0 {
        Seq::empty()
    } else if parts.len() == 1 {
        parts[0]
    } else {
        join_slash(parts.drop_last()).push(47u8) + parts.last()
    }
}

/// The directory part of a module spec (before its last `/`).
pub open spec fn spec_dir(spec: Seq<u8>) -> Seq<u8> {
    match spec_rfind_byte(spec, 47u8) {
        Some(i) => spec.subrange(0, i),
        None => Seq::empty(),
    }
}

/// A load module string as seen from the board file: package refs (`@…`)
/// pass through; anything else resolves against the loading module's own
/// directory, keeping the spec's own addressing style.
pub open spec fn spec_normalize_load(spec: Seq<u8>, load: Seq<u8>) -> Seq<u8> {
    if load.len() > 0 && load[0] == 64u8 {
        load
    } else {
        let joined = join_slash(walk_segs(kept(split_slash(spec_dir(spec))), split_slash(load)));
        if spec.len() > 0 && spec[0] == 64u8 {
            joined
        } else if spec.len() >= 2 && spec[0] == 46u8 && spec[1] == 47u8 {
            seq![46u8, 47u8] + joined
        } else {
            joined
        }
    }
}

fn is_dot(p: &Vec<u8>) -> (r: bool)
    ensures
        r == (p@ == seq![46u8]),
{
    if p.len() == 1 && p[0] == 46u8 {
        assert(p@ =~= seq![46u8]);
        true
    } else {
        false
    }
}

fn is_dot_dot(p: &Vec<u8>) -> (r: bool)
    ensures
        r == (p@ == seq![46u8, 46u8]),
{
    if p.len() == 2 && p[0] == 46u8 && p[1] == 46u8 {
        assert(p@ =~= seq![46u8, 46u8]);
        true
    } else {
        false
    }
}

/// Resolve a load module string as seen from the board file (see
/// [`spec_normalize_load`]).
pub fn normalize_load(spec: &[u8], load: &[u8]) -> (r: Vec<u8>)
    ensures
        r@ == spec_normalize_load(spec@, load@),
{
    if load.len() > 0 && load[0] == 64u8 {
        return crate::bytes::owned(load);
    }
    let n: usize = spec.len();
    proof {
        crate::bytes::lemma_rfind_byte(spec@, 47u8);
    }
    let dir = match crate::bytes::rfind_byte(spec, 47u8) {
        Some(i) => slice_copy(spec, 0, i),
        None => Vec::new(),
    };
    assert(dir@ =~= spec_dir(spec@));
    let pieces = split_slash_exec(dir.as_slice());
    let ghost pv = views(pieces@);
    let mut parts: Vec<Vec<u8>> = Vec::new();
    let mut i: usize = 0;
    assert(views(parts@) =~= kept(pv.take(0)));
    while i < pieces.len()
        invariant
            i <= pieces@.len(),
            pv == views(pieces@),
            views(parts@) == kept(pv.take(i as int)),
        decreases pieces.len() - i,
    {
        proof {
            assert(pv.take(i + 1).drop_last() =~= pv.take(i as int));
            assert(pv.take(i + 1).last() == pieces@[i as int]@);
        }
        if pieces[i].len() > 0 && !is_dot(&pieces[i]) {
            let ghost old = parts@;
            let c = copy(&pieces[i]);
            parts.push(c);
            proof {
                crate::text::lemma_map_push(old, c, |x: Vec<u8>| x@);
            }
        }
        i = i + 1;
    }
    assert(pv.take(pv.len() as int) =~= pv);
    let ghost start = views(parts@);
    let segs = split_slash_exec(load);
    let ghost sv = views(segs@);
    let mut k: usize = 0;
    assert(sv.take(0) =~= Seq::<Seq<u8>>::empty());
    while k < segs.len()
        invariant
            k <= segs@.len(),
            sv == views(segs@),
            views(parts@) == walk_segs(start, sv.take(k as int)),
        decreases segs.len() - k,
    {
        proof {
            assert(sv.take(k + 1).drop_last() =~= sv.take(k as int));
            assert(sv.take(k + 1).last() == segs@[k as int]@);
        }
        let sg = &segs[k];
        if sg.len() == 0 || is_dot(sg) {
        } else if is_dot_dot(sg) {
            if parts.len() > 0 {
                let ghost old = parts@;
                parts.pop();
                proof {
                    assert(parts@ =~= old.drop_last());
                    assert(views(parts@) =~= views(old).drop_last());
                }
            }
        } else {
            let ghost old = parts@;
            let c = copy(sg);
            parts.push(c);
            proof {
                crate::text::lemma_map_push(old, c, |x: Vec<u8>| x@);
            }
        }
        k = k + 1;
    }
    assert(sv.take(sv.len() as int) =~= sv);
    let ghost wv = views(parts@);
    let mut joined: Vec<u8> = Vec::new();
    let mut j: usize = 0;
    assert(join_slash(wv.take(0)) =~= Seq::<u8>::empty());
    while j < parts.len()
        invariant
            j <= parts@.len(),
            wv == views(parts@),
            joined@ == join_slash(wv.take(j as int)),
        decreases parts.len() - j,
    {
        proof {
            assert(wv.take(j + 1).drop_last() =~= wv.take(j as int));
            assert(wv.take(j + 1).last() == parts@[j as int]@);
            if j == 0 {
                assert(wv.take(1) =~= seq![parts@[0]@]);
            }
        }
        if j > 0 {
            joined.push(47u8);
        }
        push_all(&mut joined, parts[j].as_slice());
        j = j + 1;
    }
    assert(wv.take(wv.len() as int) =~= wv);
    if spec.len() > 0 && spec[0] == 64u8 {
        joined
    } else if spec.len() >= 2 && spec[0] == 46u8 && spec[1] == 47u8 {
        let mut out: Vec<u8> = Vec::new();
        out.push(46u8);
        out.push(47u8);
        push_all(&mut out, joined.as_slice());
        assert(out@ =~= seq![46u8, 47u8] + joined@);
        out
    } else {
        joined
    }
}

// ---------------------------------------------------------------------------
// Reading a module's facts from its top-level statements
// ---------------------------------------------------------------------------

/// [`ModuleFacts`] as values.
#[verifier::ext_equal]
pub struct FactsV {
    pub component_child: Option<Seq<u8>>,
    pub prefix: Option<Seq<u8>>,
    pub required_ios: Seq<Seq<u8>>,
    pub pin_map: Assoc,
    pub config_types: Assoc,
    pub config_required: Seq<Seq<u8>>,
    pub enums: Seq<(Seq<u8>, Seq<Seq<u8>>)>,
    pub type_loads: Assoc,
}

pub open spec fn opt_v(o: Option<Vec<u8>>) -> Option<Seq<u8>> {
    match o {
        Some(v) => Some(v@),
        None => None,
    }
}

pub open spec fn enums_v(m: Seq<(Vec<u8>, Vec<Vec<u8>>)>) -> Seq<(Seq<u8>, Seq<Seq<u8>>)> {
    m.map_values(|e: (Vec<u8>, Vec<Vec<u8>>)| (e.0@, views(e.1@)))
}

pub open spec fn facts_v(f: ModuleFacts) -> FactsV {
    FactsV {
        component_child: opt_v(f.component_child),
        prefix: opt_v(f.prefix),
        required_ios: views(f.required_ios@),
        pin_map: plan_view(f.pin_map@),
        config_types: plan_view(f.config_types@),
        config_required: views(f.config_required@),
        enums: enums_v(f.enums@),
        type_loads: plan_view(f.type_loads@),
    }
}

pub open spec fn no_facts() -> FactsV {
    FactsV {
        component_child: None,
        prefix: None,
        required_ios: Seq::empty(),
        pin_map: Seq::empty(),
        config_types: Seq::empty(),
        config_required: Seq::empty(),
        enums: Seq::empty(),
        type_loads: Seq::empty(),
    }
}

/// Each name mapped to `m`.
pub open spec fn insert_all(map: Assoc, names: Seq<Seq<u8>>, m: Seq<u8>) -> Assoc
    decreases names.len(),
{
    if names.len() == 0 {
        map
    } else {
        assoc_insert(insert_all(map, names.drop_last(), m), names.last(), m)
    }
}

/// The positional string literals among the arguments, in order.
pub open spec fn string_args(args: Seq<Arg>) -> Seq<Seq<u8>>
    decreases args.len(),
{
    if args.len() == 0 {
        Seq::empty()
    } else {
        let r = string_args(args.drop_last());
        if args.last().kind is Positional && str_of(args.last().value) is Some {
            r.push(str_of(args.last().value)->0)
        } else {
            r
        }
    }
}

/// The first argument at or after `from` named `key`.
pub open spec fn named_from(args: Seq<Arg>, key: Seq<u8>, from: int) -> Option<int>
    decreases args.len() - from,
{
    if from < 0 || from >= args.len() {
        None
    } else if arg_named(args[from], key) {
        Some(from)
    } else {
        named_from(args, key, from + 1)
    }
}

/// `pins={"1": P1, …}`: literal keys to identifier values, other entries
/// skipped.
pub open spec fn pin_entries(map: Assoc, entries: Seq<(Spanned, Spanned)>) -> Assoc
    decreases entries.len(),
{
    if entries.len() == 0 {
        map
    } else {
        let r = pin_entries(map, entries.drop_last());
        let (k, v) = entries.last();
        if str_of(k) is Some && ident_of(v) is Some {
            assoc_insert(r, str_of(k)->0, ident_of(v)->0)
        } else {
            r
        }
    }
}

pub open spec fn dict_entries(e: Spanned) -> Option<Seq<(Spanned, Spanned)>> {
    match e.expr {
        Expr::Dict { entries } => Some(entries@),
        _ => None,
    }
}

/// The value of the first argument named `key` that is a string literal.
pub open spec fn named_string(args: Seq<Arg>, key: Seq<u8>) -> Option<Seq<u8>> {
    match named_str_from(args, key, 0) {
        Some(i) => str_of(args[i].value),
        None => None,
    }
}

/// What one top-level statement adds to the facts; `None` when a second
/// `Component(...)` makes the component child ambiguous (the facts are then
/// dropped).
pub open spec fn facts_step(acc: FactsV, t: TopStmt, spec: Seq<u8>) -> Option<FactsV> {
    match t.stmt {
        Stmt::Load { module, locals } => Some(
            FactsV {
                type_loads: insert_all(
                    acc.type_loads,
                    views(locals@),
                    spec_normalize_load(spec, module@),
                ),
                ..acc
            },
        ),
        Stmt::Assign { target, value } => match target {
            Target::Ident { name, .. } => {
                let args = args_of(value);
                match callee_of(value) {
                    Some(c) => if c == "io".spec_bytes() && !has_named(
                        args,
                        "optional".spec_bytes(),
                    ) {
                        Some(FactsV { required_ios: acc.required_ios.push(name@), ..acc })
                    } else if c == "config".spec_bytes() {
                        if args.len() > 0 && args[0].kind is Positional && ident_of(
                            args[0].value,
                        ) is Some {
                            let ty = ident_of(args[0].value)->0;
                            let types = assoc_insert(acc.config_types, name@, ty);
                            if !has_named(args, "default".spec_bytes()) && !has_named(
                                args,
                                "optional".spec_bytes(),
                            ) {
                                Some(
                                    FactsV {
                                        config_types: types,
                                        config_required: acc.config_required.push(name@),
                                        ..acc
                                    },
                                )
                            } else {
                                Some(FactsV { config_types: types, ..acc })
                            }
                        } else {
                            Some(acc)
                        }
                    } else if c == "enum".spec_bytes() {
                        let vs = string_args(args);
                        if vs.len() > 0 {
                            Some(FactsV { enums: assoc_insert(acc.enums, name@, vs), ..acc })
                        } else {
                            Some(acc)
                        }
                    } else {
                        Some(acc)
                    },
                    None => Some(acc),
                }
            },
            Target::Other => Some(acc),
        },
        Stmt::Expression { expr } => if callee_of(expr) == Some("Component".spec_bytes()) {
            if acc.component_child is Some {
                None
            } else {
                let args = args_of(expr);
                let pm = match named_from(args, "pins".spec_bytes(), 0) {
                    Some(i) => match dict_entries(args[i].value) {
                        Some(es) => pin_entries(acc.pin_map, es),
                        None => acc.pin_map,
                    },
                    None => acc.pin_map,
                };
                Some(
                    FactsV {
                        component_child: named_string(args, "name".spec_bytes()),
                        prefix: named_string(args, "prefix".spec_bytes()),
                        pin_map: pm,
                        ..acc
                    },
                )
            }
        } else {
            Some(acc)
        },
        _ => Some(acc),
    }
}

/// The facts of the first `n` statements (`None` once dropped).
pub open spec fn facts_upto(stmts: Seq<TopStmt>, n: int, spec: Seq<u8>) -> Option<FactsV>
    decreases n,
{
    if n <= 0 {
        Some(no_facts())
    } else {
        match facts_upto(stmts, n - 1, spec) {
            None => None,
            Some(acc) => facts_step(acc, stmts[n - 1], spec),
        }
    }
}

pub open spec fn spec_module_facts(stmts: Seq<TopStmt>, spec: Seq<u8>) -> FactsV {
    match facts_upto(stmts, stmts.len() as int, spec) {
        Some(f) => f,
        None => no_facts(),
    }
}

pub fn facts_default() -> (r: ModuleFacts)
    ensures
        facts_v(r) == no_facts(),
{
    let r = ModuleFacts {
        component_child: None,
        prefix: None,
        required_ios: Vec::new(),
        pin_map: Vec::new(),
        config_types: Vec::new(),
        config_required: Vec::new(),
        enums: Vec::new(),
        type_loads: Vec::new(),
    };
    assert(facts_v(r) =~= no_facts());
    r
}

fn enums_insert(m: Vec<(Vec<u8>, Vec<Vec<u8>>)>, k: Vec<u8>, v: Vec<Vec<u8>>) -> (r: Vec<
    (Vec<u8>, Vec<Vec<u8>>),
>)
    ensures
        enums_v(r@) == assoc_insert(enums_v(m@), k@, views(v@)),
{
    let ghost mv = enums_v(m@);
    let mut m = m;
    let mut j: usize = 0;
    while j < m.len()
        invariant
            j <= m@.len(),
            mv == enums_v(m@),
            forall|i: int| 0 <= i < j ==> (#[trigger] mv[i]).0 != k@ && !crate::bytes::bytes_lt(
                k@,
                mv[i].0,
            ),
        ensures
            j <= m@.len(),
            mv == enums_v(m@),
            forall|i: int| 0 <= i < j ==> (#[trigger] mv[i]).0 != k@ && !crate::bytes::bytes_lt(
                k@,
                mv[i].0,
            ),
            j == m@.len() || mv[j as int].0 == k@ || crate::bytes::bytes_lt(k@, mv[j as int].0),
        decreases m.len() - j,
    {
        if bytes_eq(m[j].0.as_slice(), k.as_slice()) || crate::bytes::lt_bytes(
            k.as_slice(),
            m[j].0.as_slice(),
        ) {
            break;
        }
        j = j + 1;
    }
    let replace = j < m.len() && bytes_eq(m[j].0.as_slice(), k.as_slice());
    proof {
        crate::probe::lemma_assoc_insert(mv, k@, views(v@), j as int);
    }
    let ghost e = (k@, views(v@));
    if replace {
        let ghost before = m@;
        m.remove(j);
        m.insert(j, (k, v));
        proof {
            assert(enums_v(m@) =~= mv.take(j as int) + seq![e] + mv.skip(j + 1));
        }
    } else {
        m.insert(j, (k, v));
        proof {
            assert(enums_v(m@) =~= mv.take(j as int) + seq![e] + mv.skip(j as int));
        }
    }
    m
}

fn string_args_exec(args: &[Arg]) -> (r: Vec<Vec<u8>>)
    ensures
        views(r@) == string_args(args@),
{
    let mut out: Vec<Vec<u8>> = Vec::new();
    let mut i: usize = 0;
    assert(views(out@) =~= string_args(args@.take(0)));
    while i < args.len()
        invariant
            i <= args@.len(),
            views(out@) == string_args(args@.take(i as int)),
        decreases args.len() - i,
    {
        proof {
            assert(args@.take(i + 1).drop_last() =~= args@.take(i as int));
            assert(args@.take(i + 1).last() == args@[i as int]);
        }
        let positional = match &args[i].kind {
            ArgKind::Positional => true,
            _ => false,
        };
        if positional {
            match str_exec(&args[i].value) {
                Some(sv) => {
                    let ghost old = out@;
                    let c = copy(sv);
                    out.push(c);
                    proof {
                        crate::text::lemma_map_push(old, c, |x: Vec<u8>| x@);
                    }
                },
                None => {},
            }
        }
        i = i + 1;
    }
    assert(args@.take(args@.len() as int) =~= args@);
    out
}

fn named_from_exec(args: &[Arg], key: &[u8]) -> (r: Option<usize>)
    ensures
        r matches Some(i) ==> named_from(args@, key@, 0) == Some(i as int) && i < args@.len(),
        r is None ==> named_from(args@, key@, 0) is None,
{
    let mut i: usize = 0;
    while i < args.len()
        invariant
            i <= args@.len(),
            named_from(args@, key@, 0) == named_from(args@, key@, i as int),
        decreases args.len() - i,
    {
        if arg_named_exec(&args[i], key) {
            return Some(i);
        }
        i = i + 1;
    }
    None
}

fn named_string_exec(args: &[Arg], key: &[u8]) -> (r: Option<Vec<u8>>)
    ensures
        opt_v(r) == named_string(args@, key@),
{
    match named_str(args, key) {
        Some(i) => match str_exec(&args[i].value) {
            Some(v) => Some(copy(v)),
            None => None,
        },
        None => None,
    }
}

fn pin_entries_exec(map: Vec<(Vec<u8>, Vec<u8>)>, entries: &Vec<(Spanned, Spanned)>) -> (r: Vec<
    (Vec<u8>, Vec<u8>),
>)
    ensures
        plan_view(r@) == pin_entries(plan_view(map@), entries@),
{
    let ghost m0 = plan_view(map@);
    let mut m = map;
    let mut i: usize = 0;
    assert(entries@.take(0) =~= Seq::<(Spanned, Spanned)>::empty());
    while i < entries.len()
        invariant
            i <= entries@.len(),
            plan_view(m@) == pin_entries(m0, entries@.take(i as int)),
        decreases entries.len() - i,
    {
        proof {
            assert(entries@.take(i + 1).drop_last() =~= entries@.take(i as int));
            assert(entries@.take(i + 1).last() == entries@[i as int]);
        }
        match (str_exec(&entries[i].0), ident_exec(&entries[i].1)) {
            (Some(pin), Some(io)) => {
                m = map_insert(&m, pin.as_slice(), io.as_slice());
            },
            _ => {},
        }
        i = i + 1;
    }
    assert(entries@.take(entries@.len() as int) =~= entries@);
    m
}

/// Read a module's [`ModuleFacts`] from its top-level statements; `spec` is
/// the module spec the file was loaded by (load paths resolve against it).
/// Two top-level `Component(...)` calls make the child ambiguous: the facts
/// are then all empty.
pub fn module_facts(stmts: &Vec<TopStmt>, spec: &[u8]) -> (r: ModuleFacts)
    ensures
        facts_v(r) == spec_module_facts(stmts@, spec@),
{
    let mut f = facts_default();
    let mut i: usize = 0;
    while i < stmts.len()
        invariant
            i <= stmts@.len(),
            facts_upto(stmts@, i as int, spec@) == Some(facts_v(f)),
        decreases stmts.len() - i,
    {
        let t = &stmts[i];
        let ghost acc = facts_v(f);
        match &t.stmt {
            Stmt::Load { module, locals } => {
                let m = normalize_load(spec, module.as_slice());
                let mut k: usize = 0;
                let ghost tl0 = acc.type_loads;
                assert(views(locals@).take(0) =~= Seq::<Seq<u8>>::empty());
                while k < locals.len()
                    invariant
                        k <= locals@.len(),
                        plan_view(f.type_loads@) == insert_all(tl0, views(locals@).take(k as int), m@),
                        facts_v(f) == (FactsV { type_loads: plan_view(f.type_loads@), ..acc }),
                    decreases locals.len() - k,
                {
                    proof {
                        assert(views(locals@).take(k + 1).drop_last() =~= views(locals@).take(k as int));
                        assert(views(locals@).take(k + 1).last() == locals@[k as int]@);
                    }
                    f.type_loads = map_insert(&f.type_loads, locals[k].as_slice(), m.as_slice());
                    k = k + 1;
                }
                assert(views(locals@).take(locals@.len() as int) =~= views(locals@));
            },
            Stmt::Assign { target, value } => match target {
                Target::Ident { name, .. } => {
                    let args = args_exec(value);
                    match callee_exec(value) {
                        Some(c) => {
                            if bytes_eq(c.as_slice(), lit("io").as_slice()) && !has_named_exec(
                                args,
                                lit("optional").as_slice(),
                            ) {
                                let ghost old = f.required_ios@;
                                let n = copy(name);
                                f.required_ios.push(n);
                                proof {
                                    crate::text::lemma_map_push(old, n, |x: Vec<u8>| x@);
                                }
                            } else if bytes_eq(c.as_slice(), lit("config").as_slice()) {
                                let ty = if args.len() > 0 {
                                    match &args[0].kind {
                                        ArgKind::Positional => ident_exec(&args[0].value),
                                        _ => None,
                                    }
                                } else {
                                    None
                                };
                                match ty {
                                    Some(ty) => {
                                        f.config_types = map_insert(
                                            &f.config_types,
                                            name.as_slice(),
                                            ty.as_slice(),
                                        );
                                        if !has_named_exec(args, lit("default").as_slice())
                                            && !has_named_exec(args, lit("optional").as_slice()) {
                                            let ghost old = f.config_required@;
                                            let n = copy(name);
                                            f.config_required.push(n);
                                            proof {
                                                crate::text::lemma_map_push(old, n, |x: Vec<u8>| x@);
                                            }
                                        }
                                    },
                                    None => {},
                                }
                            } else if bytes_eq(c.as_slice(), lit("enum").as_slice()) {
                                let vs = string_args_exec(args);
                                if vs.len() > 0 {
                                    let mut e: Vec<(Vec<u8>, Vec<Vec<u8>>)> = Vec::new();
                                    std::mem::swap(&mut e, &mut f.enums);
                                    f.enums = enums_insert(e, copy(name), vs);
                                }
                            }
                        },
                        None => {},
                    }
                },
                Target::Other => {},
            },
            Stmt::Expression { expr } => {
                let is_component = match callee_exec(expr) {
                    Some(c) => bytes_eq(c.as_slice(), lit("Component").as_slice()),
                    None => false,
                };
                if is_component {
                    if f.component_child.is_some() {
                        proof {
                            lemma_facts_dropped(stmts@, (i + 1) as int, spec@);
                        }
                        return facts_default();
                    }
                    let args = args_exec(expr);
                    match named_from_exec(args, lit("pins").as_slice()) {
                        Some(pi) => match &args[pi].value.expr {
                            Expr::Dict { entries } => {
                                let mut pm: Vec<(Vec<u8>, Vec<u8>)> = Vec::new();
                                std::mem::swap(&mut pm, &mut f.pin_map);
                                f.pin_map = pin_entries_exec(pm, entries);
                            },
                            _ => {},
                        },
                        None => {},
                    }
                    f.component_child = named_string_exec(args, lit("name").as_slice());
                    f.prefix = named_string_exec(args, lit("prefix").as_slice());
                }
            },
            _ => {},
        }
        proof {
            assert(facts_upto(stmts@, i + 1, spec@) == facts_step(acc, stmts@[i as int], spec@));
            assert(facts_step(acc, stmts@[i as int], spec@) =~= Some(facts_v(f)));
        }
        i = i + 1;
    }
    f
}

proof fn lemma_facts_dropped(stmts: Seq<TopStmt>, n: int, spec: Seq<u8>)
    requires
        0 < n <= stmts.len(),
        facts_upto(stmts, n, spec) is None,
    ensures
        spec_module_facts(stmts, spec) == no_facts(),
    decreases stmts.len() - n,
{
    if n < stmts.len() {
        lemma_facts_dropped(stmts, n + 1, spec);
    }
}


/// The parameter surface of the module file with text `content`, reached
/// by `spec`: read from the evaluator's parse of it, and the empty surface
/// when it does not parse.
pub fn module_facts_of(content: &[u8], spec: &[u8]) -> (r: ModuleFacts)
    ensures
        facts_v(r) == match crate::source::zen_syntax(spec@, content@) {
            Ok(p) => spec_module_facts(p.stmts@, spec@),
            Err(_) => no_facts(),
        },
{
    match crate::source::parse_zen(spec, content) {
        Ok(p) => module_facts(&p.stmts, spec),
        Err(_) => facts_default(),
    }
}

} // verus!
