//! Key-ordered maps with byte-string keys, held as vectors of entries: the
//! lookups and inserts a sorted map performs, stated over
//! `crate::probe::assoc_insert`.
use vstd::prelude::*;
use crate::bytes::{bytes_eq, bytes_lt, lt_bytes};
use crate::probe::{assoc_insert, insert_stop, lemma_assoc_insert};

verus! {

/// The entries of a map, keys and values each taken by their view.
pub open spec fn kv_view<V: View>(m: Seq<(Vec<u8>, V)>) -> Seq<(Seq<u8>, V::V)> {
    m.map_values(|e: (Vec<u8>, V)| (e.0@, e.1@))
}

/// Where a lookup of `k` stops: the first entry whose key is `k` or
/// larger than `k`.
pub open spec fn stop_at<V>(m: Seq<(Seq<u8>, V)>, k: Seq<u8>) -> int
    decreases m.len(),
{
    if m.len() == 0 {
        0
    } else if m[0].0 == k || bytes_lt(k, m[0].0) {
        0
    } else {
        1 + stop_at(m.drop_first(), k)
    }
}

/// The value a sorted map holds for `k`.
pub open spec fn assoc_get<V>(m: Seq<(Seq<u8>, V)>, k: Seq<u8>) -> Option<V> {
    let j = stop_at(m, k);
    if 0 <= j < m.len() && m[j].0 == k {
        Some(m[j].1)
    } else {
        None
    }
}

pub proof fn lemma_stop_at<V>(m: Seq<(Seq<u8>, V)>, k: Seq<u8>)
    ensures
        insert_stop(m, k, stop_at(m, k)),
    decreases m.len(),
{
    if m.len() > 0 && !(m[0].0 == k || bytes_lt(k, m[0].0)) {
        let d = m.drop_first();
        lemma_stop_at(d, k);
        let j = stop_at(d, k);
        assert forall|i: int| 0 <= i < j + 1 implies (#[trigger] m[i]).0 != k && !bytes_lt(
            k,
            m[i].0,
        ) by {
            if i > 0 {
                assert(m[i] == d[i - 1]);
            }
        }
        if j < d.len() {
            assert(m[j + 1] == d[j]);
        }
    }
}

pub proof fn lemma_stop_unique<V>(m: Seq<(Seq<u8>, V)>, k: Seq<u8>, j: int)
    requires
        insert_stop(m, k, j),
    ensures
        j == stop_at(m, k),
{
    lemma_stop_at(m, k);
    let s = stop_at(m, k);
    if j < s {
        assert(m[j].0 != k && !bytes_lt(k, m[j].0));
    } else if s < j {
        assert(m[s].0 != k && !bytes_lt(k, m[s].0));
    }
}

/// Mapping the values commutes with a lookup's stop.
pub proof fn lemma_stop_map<A, B>(m: Seq<(Seq<u8>, A)>, k: Seq<u8>, f: spec_fn(A) -> B)
    ensures
        stop_at(m.map_values(|e: (Seq<u8>, A)| (e.0, f(e.1))), k) == stop_at(m, k),
    decreases m.len(),
{
    let g = |e: (Seq<u8>, A)| (e.0, f(e.1));
    if m.len() > 0 {
        assert(m.map_values(g).drop_first() =~= m.drop_first().map_values(g));
        lemma_stop_map(m.drop_first(), k, f);
    }
}

/// The slot of `k` in `m`, and whether an entry there has key `k`.
pub fn key_slot<V: View>(m: &Vec<(Vec<u8>, V)>, k: &[u8]) -> (r: (usize, bool))
    ensures
        r.0 as int == stop_at(kv_view(m@), k@),
        r.0 <= m@.len(),
        r.1 == (r.0 < m@.len() && m@[r.0 as int].0@ == k@),
{
    let ghost mv = kv_view(m@);
    let mut j: usize = 0;
    while j < m.len()
        invariant
            j <= m@.len(),
            mv == kv_view(m@),
            forall|i: int| 0 <= i < j ==> (#[trigger] mv[i]).0 != k@ && !bytes_lt(k@, mv[i].0),
        ensures
            j <= m@.len(),
            mv == kv_view(m@),
            forall|i: int| 0 <= i < j ==> (#[trigger] mv[i]).0 != k@ && !bytes_lt(k@, mv[i].0),
            j == m@.len() || mv[j as int].0 == k@ || bytes_lt(k@, mv[j as int].0),
        decreases m.len() - j,
    {
        if bytes_eq(m[j].0.as_slice(), k) || lt_bytes(k, m[j].0.as_slice()) {
            break;
        }
        j = j + 1;
    }
    proof {
        lemma_stop_unique(mv, k@, j as int);
    }
    let found = j < m.len() && bytes_eq(m[j].0.as_slice(), k);
    (j, found)
}

/// Set `k` to `v`: a sorted map's insert.
pub fn kv_insert<V: View>(m: &mut Vec<(Vec<u8>, V)>, k: Vec<u8>, v: V)
    ensures
        kv_view(final(m)@) == assoc_insert(kv_view(old(m)@), k@, v@),
{
    let ghost mv = kv_view(m@);
    let (j, found) = key_slot(m, k.as_slice());
    proof {
        lemma_stop_at(mv, k@);
        lemma_assoc_insert(mv, k@, v@, j as int);
    }
    let ghost e = (k@, v@);
    if found {
        m.remove(j);
        m.insert(j, (k, v));
        proof {
            assert(kv_view(m@) =~= mv.take(j as int) + seq![e] + mv.skip(j + 1));
        }
    } else {
        m.insert(j, (k, v));
        proof {
            assert(kv_view(m@) =~= mv.take(j as int) + seq![e] + mv.skip(j as int));
        }
    }
}

/// Take the value at `k` out of `m` for an update; `kv_restore` puts the
/// updated value back in the same slot.
pub fn kv_take<V: View>(m: &mut Vec<(Vec<u8>, V)>, k: &[u8]) -> (r: (usize, Option<V>))
    ensures
        r.0 as int == stop_at(kv_view(old(m)@), k@),
        r.1 is Some <==> assoc_get(kv_view(old(m)@), k@) is Some,
        r.1 matches Some(v) ==> assoc_get(kv_view(old(m)@), k@) == Some(v@) && final(m)@
            == old(m)@.remove(r.0 as int),
        r.1 is None ==> final(m)@ == old(m)@ && r.0 <= old(m)@.len(),
{
    let ghost mv = kv_view(m@);
    let (j, found) = key_slot(m, k);
    if found {
        let e = m.remove(j);
        assert(mv[j as int] == (e.0@, e.1@));
        (j, Some(e.1))
    } else {
        (j, None)
    }
}

pub fn kv_restore<V: View>(m: &mut Vec<(Vec<u8>, V)>, j: usize, k: Vec<u8>, v: V)
    requires
        j <= old(m)@.len(),
    ensures
        final(m)@ == old(m)@.insert(j as int, (k, v)),
{
    m.insert(j, (k, v));
}

/// A take followed by a restore of `v` is the insert of `v`.
pub proof fn lemma_take_restore<V: View>(
    before: Seq<(Vec<u8>, V)>,
    middle: Seq<(Vec<u8>, V)>,
    after: Seq<(Vec<u8>, V)>,
    k: Vec<u8>,
    v: V,
    j: int,
    found: bool,
)
    requires
        j == stop_at(kv_view(before), k@),
        found == (assoc_get(kv_view(before), k@) is Some),
        found ==> middle == before.remove(j),
        !found ==> middle == before && j <= before.len(),
        after == middle.insert(j, (k, v)),
    ensures
        kv_view(after) == assoc_insert(kv_view(before), k@, v@),
{
    let mv = kv_view(before);
    lemma_stop_at(mv, k@);
    lemma_assoc_insert(mv, k@, v@, j);
    if found {
        assert(kv_view(after) =~= mv.take(j) + seq![(k@, v@)] + mv.skip(j + 1));
    } else {
        assert(kv_view(after) =~= mv.take(j) + seq![(k@, v@)] + mv.skip(j));
    }
}


// ---------------------------------------------------------------------------
// The byte order
// ---------------------------------------------------------------------------

pub proof fn lemma_lt_irreflexive(a: Seq<u8>)
    ensures
        !bytes_lt(a, a),
    decreases a.len(),
{
    if a.len() > 0 {
        lemma_lt_irreflexive(a.drop_first());
    }
}

pub proof fn lemma_lt_asymmetric(a: Seq<u8>, b: Seq<u8>)
    requires
        bytes_lt(a, b),
    ensures
        !bytes_lt(b, a),
    decreases a.len(),
{
    if a.len() > 0 && b.len() > 0 && a[0] == b[0] {
        lemma_lt_asymmetric(a.drop_first(), b.drop_first());
    }
}

pub proof fn lemma_lt_transitive(a: Seq<u8>, b: Seq<u8>, c: Seq<u8>)
    requires
        bytes_lt(a, b),
        bytes_lt(b, c),
    ensures
        bytes_lt(a, c),
    decreases a.len(),
{
    if a.len() > 0 && b.len() > 0 && c.len() > 0 && a[0] == b[0] && b[0] == c[0] {
        lemma_lt_transitive(a.drop_first(), b.drop_first(), c.drop_first());
    }
}

pub proof fn lemma_lt_total(a: Seq<u8>, b: Seq<u8>)
    requires
        a != b,
    ensures
        bytes_lt(a, b) || bytes_lt(b, a),
    decreases a.len(),
{
    if a.len() > 0 && b.len() > 0 && a[0] == b[0] {
        if a.drop_first() == b.drop_first() {
            assert(a =~= seq![a[0]] + a.drop_first());
            assert(b =~= seq![b[0]] + b.drop_first());
        }
        lemma_lt_total(a.drop_first(), b.drop_first());
    } else if a.len() == 0 && b.len() == 0 {
        assert(a =~= b);
    }
}

// ---------------------------------------------------------------------------
// Sorted maps
// ---------------------------------------------------------------------------

/// Keys strictly increase: a sorted map, each key held once.
pub open spec fn sorted_keys<V>(m: Seq<(Seq<u8>, V)>) -> bool {
    forall|i: int, j: int| 0 <= i < j < m.len() ==> bytes_lt(#[trigger] m[i].0, #[trigger] m[j].0)
}

/// In a sorted map a lookup finds the entry with the key, if there is one.
pub proof fn lemma_sorted_get<V>(m: Seq<(Seq<u8>, V)>, k: Seq<u8>)
    requires
        sorted_keys(m),
    ensures
        forall|i: int| 0 <= i < m.len() && #[trigger] m[i].0 == k ==> assoc_get(m, k) == Some(m[i].1),
        (forall|i: int| 0 <= i < m.len() ==> #[trigger] m[i].0 != k) ==> assoc_get(m, k) is None,
{
    lemma_stop_at(m, k);
    let s = stop_at(m, k);
    assert forall|i: int| 0 <= i < m.len() && #[trigger] m[i].0 == k implies assoc_get(m, k) == Some(m[i].1) by {
        if s < i {
            if m[s].0 == k {
                assert(bytes_lt(m[s].0, m[i].0));
                lemma_lt_irreflexive(k);
            } else {
                assert(bytes_lt(k, m[s].0));
                assert(bytes_lt(m[s].0, m[i].0));
                lemma_lt_asymmetric(k, m[s].0);
            }
        } else if i < s {
            assert(m[i].0 != k);
        }
    }
}

/// The insert of `k` into a sorted map, spelled out: the entries before
/// the insert point have smaller keys, those after it larger.
pub proof fn lemma_sorted_insert_shape<V>(m: Seq<(Seq<u8>, V)>, k: Seq<u8>, v: V)
    requires
        sorted_keys(m),
    ensures
        ({
            let j = stop_at(m, k);
            let r = assoc_insert(m, k, v);
            &&& 0 <= j <= m.len()
            &&& forall|i: int| 0 <= i < j ==> bytes_lt(#[trigger] m[i].0, k)
            &&& (j < m.len() && m[j].0 == k) ==> r == m.take(j) + seq![(k, v)] + m.skip(j + 1)
            &&& !(j < m.len() && m[j].0 == k) ==> r == m.take(j) + seq![(k, v)] + m.skip(j)
            &&& forall|i: int| j <= i < m.len() && m[i].0 != k ==> bytes_lt(k, #[trigger] m[i].0)
        }),
{
    lemma_stop_at(m, k);
    let j = stop_at(m, k);
    lemma_assoc_insert(m, k, v, j);
    assert forall|i: int| 0 <= i < j implies bytes_lt(#[trigger] m[i].0, k) by {
        lemma_lt_total(m[i].0, k);
    }
    assert forall|i: int| j <= i < m.len() && m[i].0 != k implies bytes_lt(k, #[trigger] m[i].0) by {
        if i > j {
            assert(bytes_lt(m[j].0, m[i].0));
            if m[j].0 != k {
                lemma_lt_transitive(k, m[j].0, m[i].0);
            }
        }
    }
}

/// In a sorted map, the entries past the one a lookup stops at (or from it,
/// when its key is not the one looked up) have larger keys.
proof fn lemma_after_stop<V>(m: Seq<(Seq<u8>, V)>, k: Seq<u8>, i: int)
    requires
        sorted_keys(m),
        stop_at(m, k) <= i < m.len(),
        i == stop_at(m, k) ==> m[i].0 != k,
    ensures
        bytes_lt(k, m[i].0),
        m[i].0 != k,
{
    lemma_stop_at(m, k);
    let j = stop_at(m, k);
    if i == j {
        assert(bytes_lt(k, m[j].0));
    } else {
        assert(bytes_lt(m[j].0, m[i].0));
        if m[j].0 != k {
            assert(bytes_lt(k, m[j].0));
            lemma_lt_transitive(k, m[j].0, m[i].0);
        }
    }
    lemma_lt_irreflexive(k);
}

/// Setting a key in a sorted map keeps it sorted; a read of the key gives
/// back what was written, and a read of any other key what it gave
/// before.
pub proof fn law_sorted_insert<V>(m: Seq<(Seq<u8>, V)>, k: Seq<u8>, v: V)
    requires
        sorted_keys(m),
    ensures
        sorted_keys(assoc_insert(m, k, v)),
        assoc_get(assoc_insert(m, k, v), k) == Some(v),
        forall|k2: Seq<u8>| k2 != k ==> assoc_get(#[trigger] assoc_insert(m, k, v), k2) == assoc_get(m, k2),
{
    lemma_sorted_insert_shape(m, k, v);
    let j = stop_at(m, k);
    let r = assoc_insert(m, k, v);
    let found = j < m.len() && m[j].0 == k;
    let skip_from = if found { j + 1 } else { j };
    assert(r == m.take(j) + seq![(k, v)] + m.skip(skip_from));
    // Entry `i` of the result, as an entry of `m` (or the new one).
    assert forall|i: int| 0 <= i < r.len() implies (#[trigger] r[i]) == (if i < j {
        m[i]
    } else if i == j {
        (k, v)
    } else {
        m[i - j - 1 + skip_from]
    }) by {}
    assert(sorted_keys(r)) by {
        assert forall|a: int, b: int| 0 <= a < b < r.len() implies bytes_lt(#[trigger] r[a].0, #[trigger] r[b].0) by {
            if b < j {
            } else if b == j {
            } else if a < j {
                let mb = b - j - 1 + skip_from;
                lemma_after_stop(m, k, mb);
                lemma_lt_transitive(r[a].0, k, m[mb].0);
            } else if a == j {
                let mb = b - j - 1 + skip_from;
                lemma_after_stop(m, k, mb);
            } else {
            }
        }
    }
    lemma_sorted_get(r, k);
    assert(r[j] == (k, v));
    assert(r[j].0 == k);
    assert forall|k2: Seq<u8>| k2 != k implies assoc_get(#[trigger] assoc_insert(m, k, v), k2) == assoc_get(m, k2) by {
        lemma_sorted_get(r, k2);
        lemma_sorted_get(m, k2);
        if exists|i: int| 0 <= i < m.len() && m[i].0 == k2 {
            let i = choose|i: int| 0 <= i < m.len() && m[i].0 == k2;
            if i < j {
                assert(r[i] == m[i]);
            } else {
                assert(i != j || !found);
                let ri = i - skip_from + j + 1;
                assert(r[ri] == m[i]);
            }
        } else {
            assert forall|i: int| 0 <= i < r.len() implies #[trigger] r[i].0 != k2 by {
                if i < j {
                } else if i == j {
                } else {
                    assert(r[i] == m[i - j - 1 + skip_from]);
                }
            }
        }
    }
}

/// An empty map is sorted.
pub proof fn lemma_empty_sorted<V>()
    ensures
        sorted_keys(Seq::<(Seq<u8>, V)>::empty()),
{
}


/// Every entry after an insert is the new one or an entry from before.
pub proof fn lemma_insert_entries<V>(m: Seq<(Seq<u8>, V)>, k: Seq<u8>, v: V)
    ensures
        forall|i: int| 0 <= i < assoc_insert(m, k, v).len() ==> #[trigger] assoc_insert(m, k, v)[i] == (k, v)
            || exists|j: int| 0 <= j < m.len() && assoc_insert(m, k, v)[i] == m[j],
{
    lemma_stop_at(m, k);
    let j = stop_at(m, k);
    lemma_assoc_insert(m, k, v, j);
    let r = assoc_insert(m, k, v);
    let found = j < m.len() && m[j].0 == k;
    let skip_from = if found { j + 1 } else { j };
    assert forall|i: int| 0 <= i < r.len() implies #[trigger] r[i] == (k, v) || exists|jj: int|
        0 <= jj < m.len() && r[i] == m[jj] by {
        if i < j {
            assert(r[i] == m[i]);
        } else if i > j {
            assert(r[i] == m[i - j - 1 + skip_from]);
        }
    }
}

} // verus!
