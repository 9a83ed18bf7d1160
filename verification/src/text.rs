use vstd::prelude::*;

verus! {

/// One span replacement over a byte buffer: `start..end` becomes `text`.
pub struct TextEdit {
    pub start: usize,
    pub end: usize,
    pub text: Vec<u8>,
}

pub open spec fn is_newline(b: u8) -> bool {
    b == 10u8
}

/// No newline byte in `t[from..to)`.
pub open spec fn no_newline_in(t: Seq<u8>, from: int, to: int) -> bool {
    forall|j: int| from <= j < to ==> t[j] != 10u8
}

pub open spec fn min_len(t: Seq<u8>, offset: int) -> int {
    if offset < t.len() { offset } else { t.len() as int }
}

/// Offset just past the newline ending the line that holds `offset`, or the
/// end of the text when that line is the last one.
pub open spec fn spec_line_boundary_after(t: Seq<u8>, offset: int) -> int
    decreases t.len() - min_len(t, offset),
{
    let s = min_len(t, offset);
    if s >= t.len() {
        t.len() as int
    } else if t[s] == 10u8 {
        s + 1
    } else {
        spec_line_boundary_after(t, s + 1)
    }
}

/// Offset of the start of the line holding `offset`.
pub open spec fn spec_line_boundary_before(t: Seq<u8>, offset: int) -> int
    decreases min_len(t, offset),
{
    let m = min_len(t, offset);
    if m <= 0 {
        0
    } else if t[m - 1] == 10u8 {
        m
    } else {
        spec_line_boundary_before(t, m - 1)
    }
}

pub proof fn lemma_line_boundary_after(t: Seq<u8>, offset: int)
    requires
        offset >= 0,
    ensures
        min_len(t, offset) <= spec_line_boundary_after(t, offset) <= t.len(),
        no_newline_in(t, min_len(t, offset), spec_line_boundary_after(t, offset) - 1),
        spec_line_boundary_after(t, offset) == t.len() || t[spec_line_boundary_after(t, offset)
            - 1] == 10u8,
        spec_line_boundary_after(t, offset) > min_len(t, offset) || min_len(t, offset) == t.len(),
        spec_line_boundary_after(t, offset) == t.len() ==> no_newline_in(
            t,
            min_len(t, offset),
            t.len() as int,
        ) || t[t.len() - 1] == 10u8,
    decreases t.len() - min_len(t, offset),
{
    let s = min_len(t, offset);
    if s >= t.len() {
    } else if t[s] == 10u8 {
    } else {
        lemma_line_boundary_after(t, s + 1);
    }
}

pub proof fn lemma_line_boundary_before(t: Seq<u8>, offset: int)
    requires
        offset >= 0,
    ensures
        0 <= spec_line_boundary_before(t, offset) <= min_len(t, offset),
        no_newline_in(t, spec_line_boundary_before(t, offset), min_len(t, offset)),
        spec_line_boundary_before(t, offset) == 0 || t[spec_line_boundary_before(t, offset) - 1]
            == 10u8,
    decreases min_len(t, offset),
{
    let m = min_len(t, offset);
    if m <= 0 {
    } else if t[m - 1] == 10u8 {
    } else {
        lemma_line_boundary_before(t, m - 1);
    }
}

/// Offset just past the newline ending the line that contains `offset`;
/// the end of the text when no newline follows.
pub fn line_boundary_after(text: &[u8], offset: usize) -> (r: usize)
    ensures
        r == spec_line_boundary_after(text@, offset as int),
        min_len(text@, offset as int) <= r <= text@.len(),
        r == text@.len() || text@[r - 1] == 10u8,
        no_newline_in(text@, min_len(text@, offset as int), r - 1),
{
    proof {
        lemma_line_boundary_after(text@, offset as int);
    }
    let mut i: usize = if offset < text.len() {
        offset
    } else {
        text.len()
    };
    let mut r = text.len();
    while i < text.len()
        invariant_except_break
            r == text@.len(),
        invariant
            min_len(text@, offset as int) <= i <= text@.len(),
            spec_line_boundary_after(text@, offset as int) == spec_line_boundary_after(
                text@,
                i as int,
            ),
        ensures
            r == spec_line_boundary_after(text@, offset as int),
        decreases text.len() - i,
    {
        if text[i] == 10u8 {
            r = i + 1;
            break;
        }
        i = i + 1;
    }
    assert(r == spec_line_boundary_after(text@, offset as int));
    r
}

/// Offset of the start of the line containing `offset`.
pub fn line_boundary_before(text: &[u8], offset: usize) -> (r: usize)
    ensures
        r == spec_line_boundary_before(text@, offset as int),
        r <= min_len(text@, offset as int),
        r == 0 || text@[r - 1] == 10u8,
        no_newline_in(text@, r as int, min_len(text@, offset as int)),
{
    proof {
        lemma_line_boundary_before(text@, offset as int);
    }
    let mut m: usize = if offset < text.len() {
        offset
    } else {
        text.len()
    };
    let mut r: usize = 0;
    while m > 0
        invariant_except_break
            r == 0,
        invariant
            m <= text@.len(),
            m <= min_len(text@, offset as int),
            spec_line_boundary_before(text@, offset as int) == spec_line_boundary_before(
                text@,
                m as int,
            ),
        ensures
            r == spec_line_boundary_before(text@, offset as int),
        decreases m,
    {
        if text[m - 1] == 10u8 {
            r = m;
            break;
        }
        m = m - 1;
    }
    assert(r == spec_line_boundary_before(text@, offset as int));
    r
}

/// Whether an insertion at `at` needs a blank-line separator: yes unless it
/// is at the start of the text or already follows a blank line.
pub open spec fn spec_needs_separator(t: Seq<u8>, at: int) -> bool {
    !(at == 0 || (at >= 2 && t[at - 1] == 10u8 && t[at - 2] == 10u8))
}

pub open spec fn spec_separator(t: Seq<u8>, at: int) -> Seq<u8> {
    if spec_needs_separator(t, at) {
        seq![10u8]
    } else {
        Seq::empty()
    }
}

/// A newline separator when the insertion point follows non-blank text —
/// matches the file's statement-group style without reformatting anything.
pub fn separator(text: &[u8], at: usize) -> (r: Vec<u8>)
    requires
        at <= text@.len(),
    ensures
        r@ == spec_separator(text@, at as int),
{
    if at == 0 || (at >= 2 && text[at - 1] == 10u8 && text[at - 2] == 10u8) {
        Vec::new()
    } else {
        let mut v = Vec::new();
        v.push(10u8);
        v
    }
}

/// Append `src[from..to)` to `out`.
pub fn push_range(out: &mut Vec<u8>, src: &[u8], from: usize, to: usize)
    requires
        from <= to <= src@.len(),
    ensures
        final(out)@ == old(out)@ + src@.subrange(from as int, to as int),
{
    let mut i = from;
    while i < to
        invariant
            from <= i <= to,
            to <= src@.len(),
            out@ == old(out)@ + src@.subrange(from as int, i as int),
        decreases to - i,
    {
        out.push(src[i]);
        assert(src@.subrange(from as int, i + 1) == src@.subrange(from as int, i as int).push(
            src@[i as int],
        ));
        i = i + 1;
    }
}

/// Append all of `src` to `out`.
pub fn push_all(out: &mut Vec<u8>, src: &[u8])
    ensures
        final(out)@ == old(out)@ + src@,
{
    push_range(out, src, 0, src.len());
    assert(src@.subrange(0, src@.len() as int) == src@);
}

/// An edit as a value: (start, end, replacement text).
pub type EditV = (int, int, Seq<u8>);

pub open spec fn edit_view(e: TextEdit) -> EditV {
    (e.start as int, e.end as int, e.text@)
}

pub open spec fn edits_view(s: Seq<TextEdit>) -> Seq<EditV> {
    s.map_values(|e: TextEdit| edit_view(e))
}

/// Position at which a stable sort by start inserts an edit with key `key`
/// into the already-sorted `s`: after every element whose start does not
/// exceed `key`.
pub open spec fn insert_index(s: Seq<EditV>, key: int) -> int
    decreases s.len(),
{
    if s.len() == 0 {
        0
    } else if s.last().0 <= key {
        s.len() as int
    } else {
        insert_index(s.drop_last(), key)
    }
}

/// Stable insertion sort of edits by their start offset (what
/// `sort_by_key(|e| e.start)` yields).
pub open spec fn sort_by_start(s: Seq<EditV>) -> Seq<EditV>
    decreases s.len(),
{
    if s.len() == 0 {
        s
    } else {
        let r = sort_by_start(s.drop_last());
        r.insert(insert_index(r, s.last().0), s.last())
    }
}

pub open spec fn sorted_by_start(s: Seq<EditV>) -> bool {
    forall|i: int, j: int| 0 <= i < j < s.len() ==> s[i].0 <= s[j].0
}

proof fn lemma_insert_index_bounds(s: Seq<EditV>, key: int)
    ensures
        0 <= insert_index(s, key) <= s.len(),
        forall|j: int| insert_index(s, key) <= j < s.len() ==> s[j].0 > key,
    decreases s.len(),
{
    if s.len() > 0 && s.last().0 > key {
        lemma_insert_index_bounds(s.drop_last(), key);
        assert forall|j: int| insert_index(s, key) <= j < s.len() implies s[j].0 > key by {
            if j < s.len() - 1 {
                assert(s.drop_last()[j] == s[j]);
            }
        }
    }
}

proof fn lemma_insert_index_sorted(s: Seq<EditV>, key: int)
    requires
        sorted_by_start(s),
    ensures
        forall|j: int| 0 <= j < insert_index(s, key) ==> s[j].0 <= key,
    decreases s.len(),
{
    lemma_insert_index_bounds(s, key);
    if s.len() > 0 && s.last().0 > key {
        lemma_insert_index_sorted(s.drop_last(), key);
        lemma_insert_index_bounds(s.drop_last(), key);
        assert forall|j: int| 0 <= j < insert_index(s, key) implies s[j].0 <= key by {
            assert(s.drop_last()[j] == s[j]);
        }
    }
}

/// The stable sort yields edits ordered by start.
pub proof fn lemma_sort_by_start_sorted(s: Seq<EditV>)
    ensures
        sorted_by_start(sort_by_start(s)),
        sort_by_start(s).len() == s.len(),
    decreases s.len(),
{
    if s.len() > 0 {
        let r = sort_by_start(s.drop_last());
        lemma_sort_by_start_sorted(s.drop_last());
        let k = insert_index(r, s.last().0);
        lemma_insert_index_bounds(r, s.last().0);
        lemma_insert_index_sorted(r, s.last().0);
        let out = r.insert(k, s.last());
        assert forall|i: int, j: int| 0 <= i < j < out.len() implies out[i].0 <= out[j].0 by {
            if i < k && j < k {
            } else if i < k && j == k {
            } else if i < k {
                assert(out[j] == r[j - 1]);
            } else if i == k {
                assert(out[j] == r[j - 1]);
            } else {
                assert(out[j] == r[j - 1]);
                assert(out[i] == r[i - 1]);
            }
        }
    }
}

/// No two consecutive edits (in order) overlap.
pub open spec fn non_overlapping(s: Seq<EditV>) -> bool {
    forall|i: int| 0 <= i < s.len() - 1 ==> s[i].1 <= s[i + 1].0
}

/// Every edit is a valid span of a text of length `len`.
pub open spec fn edits_in_bounds(s: Seq<EditV>, len: nat) -> bool {
    forall|i: int| 0 <= i < s.len() ==> 0 <= (#[trigger] s[i]).0 <= s[i].1 <= len
}

/// The text that results from applying ordered, non-overlapping edits to
/// `c`, reading from offset `from`: untouched stretches verbatim, each edit's
/// replacement in place of its span.
pub open spec fn assemble(c: Seq<u8>, s: Seq<EditV>, from: int) -> Seq<u8>
    decreases s.len(),
{
    if s.len() == 0 {
        c.subrange(from, c.len() as int)
    } else {
        c.subrange(from, s[0].0) + s[0].2 + assemble(c, s.drop_first(), s[0].1)
    }
}

/// Result of `apply_edits`: the edits, stably sorted by start, must not
/// overlap; then the text is assembled from them.
pub open spec fn spec_apply_edits(c: Seq<u8>, edits: Seq<EditV>) -> Option<Seq<u8>> {
    let s = sort_by_start(edits);
    if non_overlapping(s) {
        Some(assemble(c, s, 0))
    } else {
        None
    }
}

proof fn lemma_sort_in_bounds(s: Seq<EditV>, len: nat)
    requires
        edits_in_bounds(s, len),
    ensures
        edits_in_bounds(sort_by_start(s), len),
        sort_by_start(s).len() == s.len(),
    decreases s.len(),
{
    if s.len() > 0 {
        let r = sort_by_start(s.drop_last());
        lemma_sort_in_bounds(s.drop_last(), len);
        lemma_insert_index_bounds(r, s.last().0);
        let k = insert_index(r, s.last().0);
        let out = r.insert(k, s.last());
        assert forall|i: int| 0 <= i < out.len() implies 0 <= (#[trigger] out[i]).0 <= out[i].1
            <= len by {
            if i < k {
            } else if i == k {
            } else {
                assert(out[i] == r[i - 1]);
            }
        }
    }
}

/// Stable sort of edits by start offset.
fn sort_edits(edits: Vec<TextEdit>) -> (r: Vec<TextEdit>)
    ensures
        edits_view(r@) == sort_by_start(edits_view(edits@)),
{
    let ghost orig = edits@;
    let total = edits.len();
    let mut rest = edits;
    let mut out: Vec<TextEdit> = Vec::new();
    let mut n: usize = 0;
    while rest.len() > 0
        invariant
            n + rest@.len() == orig.len(),
            orig.len() == total,
            rest@ == orig.skip(n as int),
            edits_view(out@) == sort_by_start(edits_view(orig.take(n as int))),
        decreases rest@.len(),
    {
        let e = rest.remove(0);
        let key = e.start;
        let mut k = out.len();
        let ghost ov = edits_view(out@);
        proof {
            lemma_insert_index_bounds(ov, key as int);
            assert(ov.take(ov.len() as int) == ov);
        }
        while k > 0 && out[k - 1].start > key
            invariant
                k <= out@.len(),
                ov == edits_view(out@),
                insert_index(ov, key as int) == insert_index(ov.take(k as int), key as int),
            decreases k,
        {
            assert(ov.take(k as int).drop_last() == ov.take(k - 1));
            k = k - 1;
        }
        proof {
            if k > 0 {
                assert(ov.take(k as int).last() == ov[k - 1]);
            }
            assert(edits_view(orig.take(n + 1)).drop_last() == edits_view(orig.take(n as int)));
            assert(edits_view(orig.take(n + 1)).last() == edit_view(e));
        }
        out.insert(k, e);
        proof {
            assert(edits_view(out@) == ov.insert(k as int, edit_view(e)));
        }
        n = n + 1;
        proof {
            assert(rest@ == orig.skip(n as int));
        }
    }
    assert(orig.take(n as int) == orig);
    out
}

/// Apply a batch of span replacements. The edits are sorted by start
/// (stably); overlapping edits are refused (`None`); otherwise every byte
/// outside the edited spans is kept and each span is replaced by its text.
pub fn apply_edits(content: &[u8], edits: Vec<TextEdit>) -> (r: Option<Vec<u8>>)
    requires
        edits_in_bounds(edits_view(edits@), content@.len()),
    ensures
        r matches Some(t) ==> spec_apply_edits(content@, edits_view(edits@)) == Some(t@),
        r is None ==> spec_apply_edits(content@, edits_view(edits@)) is None,
{
    let ghost ev = edits_view(edits@);
    proof {
        lemma_sort_in_bounds(ev, content@.len());
    }
    let sorted = sort_edits(edits);
    let ghost sv = edits_view(sorted@);
    let n = sorted.len();
    let mut i: usize = 0;
    while n > 0 && i < n - 1
        invariant
            n == sorted@.len(),
            sv == edits_view(sorted@),
            sv == sort_by_start(ev),
            ev == edits_view(edits@),
            forall|j: int| 0 <= j < i && j < n - 1 ==> sv[j].1 <= sv[j + 1].0,
        decreases n - i,
    {
        if sorted[i].end > sorted[i + 1].start {
            assert(sv[i as int].1 > sv[i + 1].0);
            assert(!non_overlapping(sv));
            assert(spec_apply_edits(content@, ev) is None);
            return None;
        }
        i = i + 1;
    }
    let mut out: Vec<u8> = Vec::new();
    let mut from: usize = 0;
    let mut k: usize = 0;
    assert(sv.skip(0) == sv);
    while k < n
        invariant
            n == sorted@.len(),
            sv == edits_view(sorted@),
            k <= n,
            non_overlapping(sv),
            edits_in_bounds(sv, content@.len()),
            from <= content@.len(),
            k == 0 ==> from == 0,
            k > 0 ==> from == sv[k - 1].1,
            out@ + assemble(content@, sv.skip(k as int), from as int) == assemble(
                content@,
                sv,
                0,
            ),
        decreases n - k,
    {
        let start = sorted[k].start;
        let end = sorted[k].end;
        proof {
            assert(sv[k as int] == edit_view(sorted@[k as int]));
            assert(sv.skip(k as int)[0] == sv[k as int]);
            assert(sv.skip(k as int).drop_first() == sv.skip(k + 1));
            if k > 0 {
                assert(sv[k - 1].1 <= sv[(k - 1) + 1].0);
            }
        }
        push_range(&mut out, content, from, start);
        push_all(&mut out, sorted[k].text.as_slice());
        proof {
            let a = content@.subrange(from as int, start as int);
            let b = sv[k as int].2;
            let c = assemble(content@, sv.skip(k + 1), end as int);
            assert(a + b + c == a + (b + c));
        }
        from = end;
        k = k + 1;
    }
    push_range(&mut out, content, from, content.len());
    proof {
        assert(sv.skip(n as int).len() == 0);
    }
    Some(out)
}

/// Pushing onto a list of edits pushes its view.
pub proof fn lemma_edits_view_push(s: Seq<TextEdit>, e: TextEdit)
    ensures
        edits_view(s.push(e)) == edits_view(s).push(edit_view(e)),
{
    assert(edits_view(s.push(e)) =~= edits_view(s).push(edit_view(e)));
}

/// Mapping commutes with pushing.
pub proof fn lemma_map_push<A, B>(s: Seq<A>, x: A, f: spec_fn(A) -> B)
    ensures
        s.push(x).map_values(f) == s.map_values(f).push(f(x)),
{
    assert(s.push(x).map_values(f) =~= s.map_values(f).push(f(x)));
}

/// Appending after a push is pushing after an append.
pub proof fn lemma_append_push<A>(a: Seq<A>, b: Seq<A>, x: A)
    ensures
        a + b.push(x) == (a + b).push(x),
{
    assert(a + b.push(x) =~= (a + b).push(x));
}

/// Pushing keeps every edit of a list inside the text.
pub proof fn lemma_in_bounds_push(s: Seq<EditV>, e: EditV, len: nat)
    requires
        edits_in_bounds(s, len),
        0 <= e.0 <= e.1 <= len,
    ensures
        edits_in_bounds(s.push(e), len),
{
    assert forall|i: int| 0 <= i < s.push(e).len() implies 0 <= (#[trigger] s.push(e)[i]).0
        <= s.push(e)[i].1 <= len by {
        if i < s.len() {
            assert(s.push(e)[i] == s[i]);
        }
    }
}


/// Applying no edits gives the text back unchanged.
pub proof fn law_no_edits_identity(c: Seq<u8>)
    ensures
        spec_apply_edits(c, Seq::empty()) == Some(c),
{
    assert(sort_by_start(Seq::<EditV>::empty()) =~= Seq::<EditV>::empty());
    assert(c.subrange(0, c.len() as int) =~= c);
}

/// One edit replaces its span and keeps every byte outside it.
pub proof fn law_single_edit(c: Seq<u8>, e: EditV)
    requires
        0 <= e.0 <= e.1 <= c.len(),
    ensures
        spec_apply_edits(c, seq![e]) == Some(c.subrange(0, e.0) + e.2 + c.subrange(e.1, c.len() as int)),
{
    let s = seq![e];
    assert(s.drop_last() =~= Seq::<EditV>::empty());
    assert(sort_by_start(s.drop_last()) =~= Seq::<EditV>::empty());
    assert(sort_by_start(s) =~= s);
    assert(s.drop_first() =~= Seq::<EditV>::empty());
    assert(assemble(c, s.drop_first(), e.1) == c.subrange(e.1, c.len() as int));
    assert(assemble(c, s, 0) =~= c.subrange(0, e.0) + e.2 + c.subrange(e.1, c.len() as int));
}

/// A batch of two edits at different places gives the same text in
/// either order: both spans replaced, the rest kept.
pub proof fn law_two_edits_commute(c: Seq<u8>, a: EditV, b: EditV)
    requires
        0 <= a.0 <= a.1 <= b.0 <= b.1 <= c.len(),
        a.0 < b.0,
    ensures
        spec_apply_edits(c, seq![a, b]) == spec_apply_edits(c, seq![b, a]),
        spec_apply_edits(c, seq![a, b]) == Some(
            c.subrange(0, a.0) + a.2 + c.subrange(a.1, b.0) + b.2 + c.subrange(b.1, c.len() as int),
        ),
{
    let ab = seq![a, b];
    let ba = seq![b, a];
    assert(ab.drop_last() =~= seq![a]);
    assert(ba.drop_last() =~= seq![b]);
    assert(seq![a].drop_last() =~= Seq::<EditV>::empty());
    assert(seq![b].drop_last() =~= Seq::<EditV>::empty());
    assert(sort_by_start(seq![a].drop_last()) =~= Seq::<EditV>::empty());
    assert(sort_by_start(seq![b].drop_last()) =~= Seq::<EditV>::empty());
    assert(sort_by_start(seq![a]) =~= seq![a]);
    assert(sort_by_start(seq![b]) =~= seq![b]);
    assert(insert_index(seq![a], b.0) == 1);
    assert(insert_index(seq![b].drop_last(), a.0) == 0);
    assert(insert_index(seq![b], a.0) == 0);
    assert(sort_by_start(ab) =~= ab);
    assert(sort_by_start(ba) =~= ab);
    assert(ab.drop_first() =~= seq![b]);
    assert(seq![b].drop_first() =~= Seq::<EditV>::empty());
    assert(assemble(c, seq![b].drop_first(), b.1) == c.subrange(b.1, c.len() as int));
    assert(assemble(c, ab.drop_first(), a.1) == c.subrange(a.1, b.0) + b.2 + c.subrange(b.1, c.len() as int));
    assert(assemble(c, ab, 0) =~= c.subrange(0, a.0) + a.2 + c.subrange(a.1, b.0) + b.2 + c.subrange(
        b.1,
        c.len() as int,
    ));
}

} // verus!
