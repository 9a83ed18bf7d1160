//! Position write-back: the content hash that guards a write against a
//! file changed in between, and the checks on requested moves before the
//! full position map is composed. Writing the `# pcb:sch` block and the
//! geometry of the composition are the caller's.
use vstd::prelude::*;
use vstd::string::StringSliceAdditionalSpecFns;
use sha2::Digest;
use crate::bytes::{copy, lit, slice_copy, spec_starts_with, starts_with};
use crate::model::{instance_index, InstanceKind, SchematicDoc};
use crate::text::push_all;
use crate::writers::views;

verus! {

/// SHA-256 of the bytes (32 bytes).
pub uninterp spec fn sha256_of(data: Seq<u8>) -> Seq<u8>;

/// Calls `sha2::Sha256::digest` on the bytes. Trusted: the result is the
/// named `sha256_of` of its input, 32 bytes long (SHA-256's output size).
#[verifier::external_body]
fn sha256(data: &[u8]) -> (r: Vec<u8>)
    ensures
        r@ == sha256_of(data@),
        r@.len() == 32,
{
    sha2::Sha256::digest(data).as_slice().to_vec()
}

/// The lowercase hex digit of a value below 16.
pub open spec fn hex_digit(v: u8) -> u8 {
    if v < 10 {
        (48 + v) as u8
    } else {
        (87 + v) as u8
    }
}

/// Each byte as two lowercase hex digits, high nibble first.
pub open spec fn hex_lower(data: Seq<u8>) -> Seq<u8>
    decreases data.len(),
{
    if data.len() == 0 {
        Seq::empty()
    } else {
        hex_lower(data.drop_last()) + seq![hex_digit(data.last() / 16), hex_digit(data.last() % 16)]
    }
}

pub proof fn lemma_hex_len(data: Seq<u8>)
    ensures
        hex_lower(data).len() == 2 * data.len(),
    decreases data.len(),
{
    if data.len() > 0 {
        lemma_hex_len(data.drop_last());
    }
}

/// Calls `hex::encode` on the bytes. Trusted: as its source shows, each
/// byte becomes two characters of `0123456789abcdef`, high nibble first.
#[verifier::external_body]
fn hex_encode(data: &[u8]) -> (r: Vec<u8>)
    ensures
        r@ == hex_lower(data@),
{
    hex::encode(data).into_bytes()
}

/// A digest as lowercase hex text.
pub fn digest_hex(digest: &[u8]) -> (r: Vec<u8>)
    ensures
        r@ == hex_lower(digest@),
        r@.len() == 2 * digest@.len(),
{
    proof {
        lemma_hex_len(digest@);
    }
    hex_encode(digest)
}

/// Hex-encoded SHA-256 of a file's exact bytes: the optimistic-concurrency
/// token for position writes.
pub fn content_hash_of(bytes: &[u8]) -> (r: Vec<u8>)
    ensures
        r@ == hex_lower(sha256_of(bytes@)),
        r@.len() == 64,
{
    let d = sha256(bytes);
    digest_hex(d.as_slice())
}

// ---------------------------------------------------------------------------
// Moves
// ---------------------------------------------------------------------------

pub open spec fn kind_name(k: InstanceKind) -> Seq<u8> {
    match k {
        InstanceKind::Module => "Module".spec_bytes(),
        InstanceKind::Component => "Component".spec_bytes(),
        InstanceKind::Interface => "Interface".spec_bytes(),
        InstanceKind::Port => "Port".spec_bytes(),
        InstanceKind::Pin => "Pin".spec_bytes(),
    }
}

fn kind_name_exec(k: InstanceKind) -> (r: Vec<u8>)
    ensures
        r@ == kind_name(k),
{
    match k {
        InstanceKind::Module => lit("Module"),
        InstanceKind::Component => lit("Component"),
        InstanceKind::Interface => lit("Interface"),
        InstanceKind::Port => lit("Port"),
        InstanceKind::Pin => lit("Pin"),
    }
}

/// Why a move of the instance at `path` is refused: positions are per
/// component.
pub open spec fn move_problem(insts: Seq<crate::model::InstanceDoc>, path: Seq<u8>) -> Option<Seq<u8>> {
    match instance_index(insts, path) {
        None => Some("no such instance: ".spec_bytes() + path),
        Some(i) => if insts[i].kind == InstanceKind::Component {
            None
        } else {
            Some(
                path + " is a ".spec_bytes() + kind_name(insts[i].kind)
                    + ", not a component — positions are per component; move its component descendants instead".spec_bytes(),
            )
        },
    }
}

/// The first refused move, in the order given.
pub open spec fn first_move_problem(insts: Seq<crate::model::InstanceDoc>, paths: Seq<Seq<u8>>) -> Option<
    Seq<u8>,
>
    decreases paths.len(),
{
    if paths.len() == 0 {
        None
    } else {
        match move_problem(insts, paths[0]) {
            Some(m) => Some(m),
            None => first_move_problem(insts, paths.drop_first()),
        }
    }
}

/// Check every requested move before anything is composed.
pub fn check_moves(sch: &SchematicDoc, paths: &Vec<Vec<u8>>) -> (r: Result<(), Vec<u8>>)
    ensures
        match r {
            Ok(()) => first_move_problem(sch.instances@, views(paths@)) is None,
            Err(m) => first_move_problem(sch.instances@, views(paths@)) == Some(m@),
        },
{
    let ghost pv = views(paths@);
    let mut i: usize = 0;
    assert(pv.skip(0) =~= pv);
    while i < paths.len()
        invariant
            i <= paths@.len(),
            pv == views(paths@),
            first_move_problem(sch.instances@, pv) == first_move_problem(sch.instances@, pv.skip(i as int)),
        decreases paths.len() - i,
    {
        proof {
            assert(pv.skip(i as int).drop_first() =~= pv.skip(i + 1));
            assert(pv.skip(i as int)[0] == paths@[i as int]@);
        }
        let path = paths[i].as_slice();
        match sch.instance(path) {
            None => {
                let mut m = lit("no such instance: ");
                push_all(&mut m, path);
                return Err(m);
            },
            Some(j) => {
                if sch.instances[j].kind != InstanceKind::Component {
                    let mut m: Vec<u8> = Vec::new();
                    push_all(&mut m, path);
                    push_all(&mut m, lit(" is a ").as_slice());
                    push_all(&mut m, kind_name_exec(sch.instances[j].kind).as_slice());
                    push_all(
                        &mut m,
                        lit(
                            ", not a component — positions are per component; move its component descendants instead",
                        ).as_slice(),
                    );
                    return Err(m);
                }
            },
        }
        i = i + 1;
    }
    assert(pv.skip(i as int).len() == 0);
    Ok(())
}

/// The `# pcb:sch` keys of the components: each component's path without
/// its `root.` prefix, in instance order; `Err` names the first component
/// outside the root.
pub open spec fn spec_position_keys(insts: Seq<crate::model::InstanceDoc>) -> Result<
    Seq<(Seq<u8>, Seq<u8>)>,
    Seq<u8>,
>
    decreases insts.len(),
{
    if insts.len() == 0 {
        Ok(Seq::empty())
    } else {
        match spec_position_keys(insts.drop_last()) {
            Err(m) => Err(m),
            Ok(keys) => {
                let last = insts.last();
                let p = last.path@;
                let root = "root.".spec_bytes();
                if last.kind != InstanceKind::Component {
                    Ok(keys)
                } else if spec_starts_with(p, root) {
                    Ok(keys.push((p, p.subrange(root.len() as int, p.len() as int))))
                } else {
                    Err("component path outside root: ".spec_bytes() + p)
                }
            },
        }
    }
}

pub fn position_keys(sch: &SchematicDoc) -> (r: Result<Vec<(Vec<u8>, Vec<u8>)>, Vec<u8>>)
    ensures
        match r {
            Ok(k) => spec_position_keys(sch.instances@) == Ok::<Seq<(Seq<u8>, Seq<u8>)>, Seq<u8>>(
                crate::placement::plan_view(k@),
            ),
            Err(m) => spec_position_keys(sch.instances@) == Err::<Seq<(Seq<u8>, Seq<u8>)>, Seq<u8>>(m@),
        },
{
    let insts = &sch.instances;
    let root = lit("root.");
    let mut keys: Vec<(Vec<u8>, Vec<u8>)> = Vec::new();
    let mut i: usize = 0;
    assert(insts@.take(0) =~= Seq::<crate::model::InstanceDoc>::empty());
    assert(crate::placement::plan_view(keys@) =~= Seq::<(Seq<u8>, Seq<u8>)>::empty());
    while i < insts.len()
        invariant
            i <= insts@.len(),
            insts == &sch.instances,
            root@ == "root.".spec_bytes(),
            spec_position_keys(insts@.take(i as int)) == Ok::<Seq<(Seq<u8>, Seq<u8>)>, Seq<u8>>(
                crate::placement::plan_view(keys@),
            ),
        decreases insts.len() - i,
    {
        proof {
            assert(insts@.take(i + 1).drop_last() =~= insts@.take(i as int));
            assert(insts@.take(i + 1).last() == insts@[i as int]);
        }
        let inst = &insts[i];
        if inst.kind == InstanceKind::Component {
            let p = inst.path.as_slice();
            if !starts_with(p, root.as_slice()) {
                let mut m = lit("component path outside root: ");
                push_all(&mut m, p);
                proof {
                    assert(spec_position_keys(insts@.take(i + 1)) == Err::<Seq<(Seq<u8>, Seq<u8>)>, Seq<u8>>(m@));
                    lemma_keys_err_stays(insts@, (i + 1) as int, m@);
                    assert(insts@.take(insts@.len() as int) =~= insts@);
                }
                return Err(m);
            }
            let e = (copy(&inst.path), slice_copy(p, root.len(), p.len()));
            let ghost before = keys@;
            keys.push(e);
            proof {
                crate::text::lemma_map_push(before, e, |e: (Vec<u8>, Vec<u8>)| (e.0@, e.1@));
            }
        }
        i = i + 1;
    }
    assert(insts@.take(insts@.len() as int) =~= insts@);
    Ok(keys)
}

proof fn lemma_keys_err_stays(insts: Seq<crate::model::InstanceDoc>, k: int, m: Seq<u8>)
    requires
        0 <= k <= insts.len(),
        spec_position_keys(insts.take(k)) == Err::<Seq<(Seq<u8>, Seq<u8>)>, Seq<u8>>(m),
    ensures
        spec_position_keys(insts) == Err::<Seq<(Seq<u8>, Seq<u8>)>, Seq<u8>>(m),
    decreases insts.len() - k,
{
    if k < insts.len() {
        assert(insts.take(k + 1).drop_last() =~= insts.take(k));
        lemma_keys_err_stays(insts, k + 1, m);
    } else {
        assert(insts.take(k) =~= insts);
    }
}

} // verus!
