//! Pin ordering for drawn components: natural, case-insensitive name order
//! (`P2` before `P10`), the split of a component's pins between its left
//! and right edges, and which names read as inputs or outputs.
use vstd::prelude::*;
use vstd::string::StringSliceAdditionalSpecFns;
use std::cmp::Ordering;
use crate::bytes::{bytes_eq, bytes_lt, copy, lit, lt_bytes};
use crate::editability::ov;
use crate::model::PinDoc;
use crate::names::is_ascii_digit;
use crate::scaffold::{ascii_lower, lower_byte};

verus! {

/// Where the run of digits starting at `i` ends.
pub open spec fn run_end(s: Seq<u8>, i: int) -> int
    decreases s.len() - i,
{
    if 0 <= i < s.len() && is_ascii_digit(s[i]) {
        run_end(s, i + 1)
    } else {
        i
    }
}

pub proof fn lemma_run_end(s: Seq<u8>, i: int)
    requires
        0 <= i <= s.len(),
    ensures
        i <= run_end(s, i) <= s.len(),
        (i < s.len() && is_ascii_digit(s[i])) ==> run_end(s, i) > i,
        forall|k: int| i <= k < run_end(s, i) ==> is_ascii_digit(#[trigger] s[k]),
        run_end(s, i) < s.len() ==> !is_ascii_digit(s[run_end(s, i)]),
    decreases s.len() - i,
{
    if i < s.len() && is_ascii_digit(s[i]) {
        lemma_run_end(s, i + 1);
    }
}

/// The number a string of decimal digits spells.
pub open spec fn digits_value(s: Seq<u8>) -> nat
    decreases s.len(),
{
    if s.len() == 0 {
        0
    } else {
        digits_value(s.drop_last()) * 10 + (s.last() - 48) as nat
    }
}

/// The run `s[i..e)` read as a `u64`; a run too large reads as `u64::MAX`.
pub open spec fn run_value(s: Seq<u8>, i: int, e: int) -> nat {
    let v = digits_value(s.subrange(i, e));
    if v > u64::MAX {
        u64::MAX as nat
    } else {
        v
    }
}

/// Byte-wise order of whole strings: -1, 0 or 1.
pub open spec fn lex_order(a: Seq<u8>, b: Seq<u8>) -> int {
    if a == b {
        0
    } else if bytes_lt(a, b) {
        -1
    } else {
        1
    }
}

/// Natural order of `a[i..]` against `b[j..]`, as -1, 0 or 1: runs of
/// digits compare by value, other bytes ignoring ASCII case; when one
/// side runs out, the shorter whole string comes first, and equal lengths
/// fall back to byte order.
pub open spec fn natural_order(a: Seq<u8>, b: Seq<u8>, i: int, j: int) -> int
    decreases a.len() - i + b.len() - j,
{
    if !(0 <= i <= a.len() && 0 <= j <= b.len()) {
        0
    } else if i < a.len() && j < b.len() {
        if is_ascii_digit(a[i]) && is_ascii_digit(b[j]) {
            proof {
                lemma_run_end(a, i);
                lemma_run_end(b, j);
            }
            let ie = run_end(a, i);
            let je = run_end(b, j);
            let na = run_value(a, i, ie);
            let nb = run_value(b, j, je);
            if na < nb {
                -1
            } else if na > nb {
                1
            } else {
                natural_order(a, b, ie, je)
            }
        } else {
            let la = lower_byte(a[i]);
            let lb = lower_byte(b[j]);
            if la < lb {
                -1
            } else if la > lb {
                1
            } else {
                natural_order(a, b, i + 1, j + 1)
            }
        }
    } else if a.len() < b.len() {
        -1
    } else if a.len() > b.len() {
        1
    } else {
        lex_order(a, b)
    }
}

/// `natural_order` at positions given as indices.
pub open spec fn natural_at(a: Seq<u8>, b: Seq<u8>, i: usize, j: usize) -> int {
    natural_order(a, b, i as int, j as int)
}

proof fn lemma_runs_at(a: Seq<u8>, b: Seq<u8>, i: usize, j: usize)
    requires
        i <= a.len(),
        j <= b.len(),
    ensures
        i <= run_end(a, i as int) <= a.len(),
        j <= run_end(b, j as int) <= b.len(),
        (i < a.len() && is_ascii_digit(a[i as int])) ==> run_end(a, i as int) > i,
        (j < b.len() && is_ascii_digit(b[j as int])) ==> run_end(b, j as int) > j,
{
    lemma_run_end(a, i as int);
    lemma_run_end(b, j as int);
}

pub open spec fn ord_num(o: Ordering) -> int {
    match o {
        Ordering::Less => -1,
        Ordering::Equal => 0,
        Ordering::Greater => 1,
    }
}

fn digit_of(b: u8) -> (r: u64)
    requires
        is_ascii_digit(b),
    ensures
        r == b - 48,
{
    (b - 48) as u64
}

/// The digit run starting at `i`: where it ends and its value.
fn scan_run(s: &[u8], i: usize) -> (r: (usize, u64))
    requires
        i < s@.len(),
        is_ascii_digit(s@[i as int]),
    ensures
        r.0 as int == run_end(s@, i as int),
        r.1 as nat == run_value(s@, i as int, r.0 as int),
{
    proof {
        lemma_run_end(s@, i as int);
    }
    let mut k = i;
    let mut v: u64 = 0;
    let mut over = false;
    assert(s@.subrange(i as int, i as int) =~= Seq::<u8>::empty());
    while k < s.len() && 48u8 <= s[k] && s[k] <= 57u8
        invariant
            i <= k <= s@.len(),
            k <= run_end(s@, i as int),
            run_end(s@, i as int) == run_end(s@, k as int),
            over ==> digits_value(s@.subrange(i as int, k as int)) > u64::MAX,
            !over ==> v as nat == digits_value(s@.subrange(i as int, k as int)),
        decreases s.len() - k,
    {
        let ghost before = s@.subrange(i as int, k as int);
        assert(s@.subrange(i as int, k + 1) =~= before.push(s@[k as int]));
        assert(s@.subrange(i as int, k + 1).drop_last() =~= before);
        proof {
            lemma_run_end(s@, k + 1);
        }
        let d = digit_of(s[k]);
        if !over {
            match v.checked_mul(10) {
                Some(x) => match x.checked_add(d) {
                    Some(y) => {
                        v = y;
                    },
                    None => {
                        over = true;
                    },
                },
                None => {
                    over = true;
                },
            }
        }
        k = k + 1;
    }
    proof {
        lemma_run_end(s@, k as int);
    }
    if over {
        (k, u64::MAX)
    } else {
        (k, v)
    }
}

fn lower(b: u8) -> (r: u8)
    ensures
        r == lower_byte(b),
{
    if 65u8 <= b && b <= 90u8 {
        b + 32
    } else {
        b
    }
}

/// Natural, case-insensitive ordering (`P2` before `P10`).
pub fn natural_cmp(a: &[u8], b: &[u8]) -> (r: Ordering)
    ensures
        ord_num(r) == natural_order(a@, b@, 0, 0),
{
    let mut i: usize = 0;
    let mut j: usize = 0;
    while i < a.len() && j < b.len()
        invariant
            i <= a@.len(),
            j <= b@.len(),
            natural_order(a@, b@, 0, 0) == natural_at(a@, b@, i, j),
        decreases a@.len() - i + b@.len() - j,
    {
        let ca = a[i];
        let cb = b[j];
        if 48u8 <= ca && ca <= 57u8 && 48u8 <= cb && cb <= 57u8 {
            proof {
                lemma_runs_at(a@, b@, i, j);
            }
            let (ie, na) = scan_run(a, i);
            let (je, nb) = scan_run(b, j);
            if na < nb {
                return Ordering::Less;
            } else if na > nb {
                return Ordering::Greater;
            }
            i = ie;
            j = je;
        } else {
            let la = lower(ca);
            let lb = lower(cb);
            if la < lb {
                return Ordering::Less;
            } else if la > lb {
                return Ordering::Greater;
            }
            i = i + 1;
            j = j + 1;
        }
    }
    if a.len() < b.len() {
        Ordering::Less
    } else if a.len() > b.len() {
        Ordering::Greater
    } else if bytes_eq(a, b) {
        Ordering::Equal
    } else if lt_bytes(a, b) {
        Ordering::Less
    } else {
        Ordering::Greater
    }
}


// ---------------------------------------------------------------------------
// Splitting pins between edges
// ---------------------------------------------------------------------------

pub type PinV = (Seq<u8>, Option<Seq<u8>>);

pub open spec fn pin_v(p: PinDoc) -> PinV {
    (p.name@, ov(p.net))
}

pub open spec fn pins_v(s: Seq<PinDoc>) -> Seq<PinV> {
    s.map_values(|p: PinDoc| pin_v(p))
}

/// Names that lean to the left edge.
pub open spec fn lefty(n: Seq<u8>) -> bool {
    n == "1".spec_bytes() || n == "A".spec_bytes() || n == "P1".spec_bytes() || n == "+".spec_bytes()
        || n == "IN".spec_bytes() || n == "VIN".spec_bytes() || n == "L".spec_bytes()
}

/// Names that lean to the right edge.
pub open spec fn righty(n: Seq<u8>) -> bool {
    n == "2".spec_bytes() || n == "K".spec_bytes() || n == "P2".spec_bytes() || n == "-".spec_bytes()
        || n == "OUT".spec_bytes() || n == "VOUT".spec_bytes()
}

pub open spec fn lean(n: Seq<u8>) -> int {
    if lefty(n) {
        0
    } else if righty(n) {
        2
    } else {
        1
    }
}

/// The sort order of the split: for a two-pin component, leaning first and
/// natural order second; otherwise natural order.
pub open spec fn sorts_before(two: bool, x: Seq<u8>, y: Seq<u8>) -> bool {
    if two {
        lean(x) < lean(y) || (lean(x) == lean(y) && natural_order(x, y, 0, 0) < 0)
    } else {
        natural_order(x, y, 0, 0) < 0
    }
}

/// Where insertion sort puts `x` into `sorted`: past every element from
/// the end that `x` sorts before.
pub open spec fn ins_pos(sorted: Seq<PinV>, x: PinV, two: bool) -> int
    decreases sorted.len(),
{
    if sorted.len() == 0 {
        0
    } else if sorts_before(two, x.0, sorted.last().0) {
        ins_pos(sorted.drop_last(), x, two)
    } else {
        sorted.len() as int
    }
}

/// Stable insertion sort.
pub open spec fn isort(s: Seq<PinV>, two: bool) -> Seq<PinV>
    decreases s.len(),
{
    if s.len() == 0 {
        s
    } else {
        let r = isort(s.drop_last(), two);
        r.insert(ins_pos(r, s.last(), two), s.last())
    }
}

proof fn lemma_ins_pos_bound(sorted: Seq<PinV>, x: PinV, two: bool)
    ensures
        0 <= ins_pos(sorted, x, two) <= sorted.len(),
    decreases sorted.len(),
{
    if sorted.len() > 0 {
        lemma_ins_pos_bound(sorted.drop_last(), x, two);
    }
}

proof fn lemma_isort_len(s: Seq<PinV>, two: bool)
    ensures
        isort(s, two).len() == s.len(),
    decreases s.len(),
{
    if s.len() > 0 {
        lemma_isort_len(s.drop_last(), two);
        lemma_ins_pos_bound(isort(s.drop_last(), two), s.last(), two);
    }
}

/// The left and right edge's pins: a two-pin component puts its
/// left-leaning pin left; otherwise the natural-sorted pins are halved,
/// the left taking the odd one.
pub open spec fn spec_split_pins(pins: Seq<PinV>) -> (Seq<PinV>, Seq<PinV>) {
    if pins.len() == 2 {
        let s = isort(pins, true);
        (s.take(1), s.skip(1))
    } else {
        let s = isort(pins, false);
        let h = ((pins.len() + 1) / 2) as int;
        (s.take(h), s.skip(h))
    }
}

fn name_is(n: &[u8], s: &str) -> (r: bool)
    ensures
        r == (n@ == s.spec_bytes()),
{
    bytes_eq(n, lit(s).as_slice())
}

fn lefty_exec(n: &[u8]) -> (r: bool)
    ensures
        r == lefty(n@),
{
    name_is(n, "1") || name_is(n, "A") || name_is(n, "P1") || name_is(n, "+") || name_is(n, "IN")
        || name_is(n, "VIN") || name_is(n, "L")
}

fn righty_exec(n: &[u8]) -> (r: bool)
    ensures
        r == righty(n@),
{
    name_is(n, "2") || name_is(n, "K") || name_is(n, "P2") || name_is(n, "-") || name_is(n, "OUT")
        || name_is(n, "VOUT")
}

fn lean_exec(n: &[u8]) -> (r: u8)
    ensures
        r == lean(n@),
{
    if lefty_exec(n) {
        0
    } else if righty_exec(n) {
        2
    } else {
        1
    }
}

fn sorts_before_exec(two: bool, x: &[u8], y: &[u8]) -> (r: bool)
    ensures
        r == sorts_before(two, x@, y@),
{
    let before = match natural_cmp(x, y) {
        Ordering::Less => true,
        _ => false,
    };
    if two {
        let lx = lean_exec(x);
        let ly = lean_exec(y);
        lx < ly || (lx == ly && before)
    } else {
        before
    }
}

fn copy_pin(p: &PinDoc) -> (r: PinDoc)
    ensures
        pin_v(r) == pin_v(*p),
{
    PinDoc {
        name: copy(&p.name),
        net: match &p.net {
            Some(n) => Some(copy(n)),
            None => None,
        },
    }
}

fn isort_exec(pins: &[PinDoc], two: bool) -> (r: Vec<PinDoc>)
    ensures
        pins_v(r@) == isort(pins_v(pins@), two),
{
    let ghost pv = pins_v(pins@);
    let mut out: Vec<PinDoc> = Vec::new();
    let mut i: usize = 0;
    assert(pv.take(0) =~= Seq::<PinV>::empty());
    assert(pins_v(out@) =~= Seq::<PinV>::empty());
    while i < pins.len()
        invariant
            i <= pins@.len(),
            pv == pins_v(pins@),
            pins_v(out@) == isort(pv.take(i as int), two),
        decreases pins.len() - i,
    {
        proof {
            assert(pv.take(i + 1).drop_last() =~= pv.take(i as int));
            assert(pv.take(i + 1).last() == pin_v(pins@[i as int]));
        }
        let x = copy_pin(&pins[i]);
        let ghost ov_ = pins_v(out@);
        let mut k: usize = out.len();
        assert(ov_.take(k as int) =~= ov_);
        while k > 0 && sorts_before_exec(two, x.name.as_slice(), out[k - 1].name.as_slice())
            invariant
                k <= out@.len(),
                ov_ == pins_v(out@),
                ins_pos(ov_, pin_v(x), two) == ins_pos(ov_.take(k as int), pin_v(x), two),
            decreases k,
        {
            proof {
                assert(ov_.take(k as int).drop_last() =~= ov_.take(k - 1));
                assert(ov_.take(k as int).last() == ov_[k - 1]);
            }
            k = k - 1;
        }
        proof {
            if k > 0 {
                assert(ov_.take(k as int).last() == ov_[k - 1]);
            }
        }
        let ghost xv = pin_v(x);
        out.insert(k, x);
        proof {
            assert(pins_v(out@) =~= ov_.insert(k as int, xv));
        }
        i = i + 1;
    }
    assert(pv.take(pv.len() as int) =~= pv);
    out
}

/// Split pins between the left and right edge: known input-ish names lean
/// left, output-ish right, the rest natural-sorted and halved.
pub fn split_pins(pins: &[PinDoc]) -> (r: (Vec<PinDoc>, Vec<PinDoc>))
    ensures
        (pins_v(r.0@), pins_v(r.1@)) == spec_split_pins(pins_v(pins@)),
{
    let two = pins.len() == 2;
    let mut sorted = isort_exec(pins, two);
    proof {
        lemma_isort_len(pins_v(pins@), two);
    }
    let h: usize = if two {
        1
    } else {
        pins.len() - pins.len() / 2
    };
    let ghost sv = pins_v(sorted@);
    let ghost all = sorted@;
    let right = sorted.split_off(h);
    proof {
        assert(pins_v(sorted@) =~= sv.take(h as int));
        assert(pins_v(right@) =~= sv.skip(h as int));
    }
    (sorted, right)
}

// ---------------------------------------------------------------------------
// Signal direction by name
// ---------------------------------------------------------------------------

/// Output-ish pin names: signal flows out of the component that has them.
pub open spec fn spec_is_output_pin(name: Seq<u8>) -> bool {
    let l = ascii_lower(name);
    righty(name) || l == "out".spec_bytes() || l == "o".spec_bytes() || l == "output".spec_bytes()
        || l == "d".spec_bytes() || l == "drain".spec_bytes() || l == "c".spec_bytes() || l
        == "collector".spec_bytes()
}

/// Input-ish pin names.
pub open spec fn spec_is_input_pin(name: Seq<u8>) -> bool {
    let l = ascii_lower(name);
    lefty(name) || l == "in".spec_bytes() || l == "input".spec_bytes() || l == "g".spec_bytes() || l
        == "gate".spec_bytes() || l == "b".spec_bytes() || l == "base".spec_bytes()
}

pub fn is_output_pin(name: &[u8]) -> (r: bool)
    ensures
        r == spec_is_output_pin(name@),
{
    let l = crate::catalog::lower_exec(name);
    let s = l.as_slice();
    righty_exec(name) || name_is(s, "out") || name_is(s, "o") || name_is(s, "output") || name_is(
        s,
        "d",
    ) || name_is(s, "drain") || name_is(s, "c") || name_is(s, "collector")
}

pub fn is_input_pin(name: &[u8]) -> (r: bool)
    ensures
        r == spec_is_input_pin(name@),
{
    let l = crate::catalog::lower_exec(name);
    let s = l.as_slice();
    lefty_exec(name) || name_is(s, "in") || name_is(s, "input") || name_is(s, "g") || name_is(
        s,
        "gate",
    ) || name_is(s, "b") || name_is(s, "base")
}


// ---------------------------------------------------------------------------
// Laws
// ---------------------------------------------------------------------------

/// Natural order ranks a name level with itself.
pub proof fn law_natural_order_reflexive(a: Seq<u8>, i: int)
    requires
        0 <= i <= a.len(),
    ensures
        natural_order(a, a, i, i) == 0,
    decreases a.len() - i,
{
    if i < a.len() {
        if is_ascii_digit(a[i]) {
            lemma_run_end(a, i);
            law_natural_order_reflexive(a, run_end(a, i));
        } else {
            law_natural_order_reflexive(a, i + 1);
        }
    } else {
        crate::assoc::lemma_lt_irreflexive(a);
    }
}

/// Natural order is antisymmetric: comparing the other way round gives
/// the opposite answer.
pub proof fn law_natural_order_antisymmetric(a: Seq<u8>, b: Seq<u8>, i: int, j: int)
    requires
        0 <= i <= a.len(),
        0 <= j <= b.len(),
    ensures
        natural_order(a, b, i, j) == -natural_order(b, a, j, i),
    decreases a.len() - i + b.len() - j,
{
    if i < a.len() && j < b.len() {
        if is_ascii_digit(a[i]) && is_ascii_digit(b[j]) {
            lemma_run_end(a, i);
            lemma_run_end(b, j);
            law_natural_order_antisymmetric(a, b, run_end(a, i), run_end(b, j));
        } else {
            law_natural_order_antisymmetric(a, b, i + 1, j + 1);
        }
    } else if a.len() == b.len() {
        if a != b {
            crate::assoc::lemma_lt_total(a, b);
            if bytes_lt(a, b) {
                crate::assoc::lemma_lt_asymmetric(a, b);
            } else {
                crate::assoc::lemma_lt_asymmetric(b, a);
            }
        }
    }
}

proof fn lemma_isort_multiset(s: Seq<PinV>, two: bool)
    ensures
        isort(s, two).to_multiset() == s.to_multiset(),
    decreases s.len(),
{
    broadcast use vstd::seq_lib::to_multiset_build, vstd::seq_lib::to_multiset_insert;

    if s.len() > 0 {
        lemma_isort_multiset(s.drop_last(), two);
        let r = isort(s.drop_last(), two);
        lemma_ins_pos_bound(r, s.last(), two);
        assert(s =~= s.drop_last().push(s.last()));
    } else {
        assert(isort(s, two) =~= s);
    }
}

/// Splitting pins between the edges loses and invents none: the two
/// sides together hold the pins exactly, the left side taking one of two
/// pins and otherwise the larger half.
pub proof fn law_split_pins_partition(pins: Seq<PinV>)
    ensures
        ({
            let (left, right) = spec_split_pins(pins);
            &&& (left + right).to_multiset() == pins.to_multiset()
            &&& left.len() == (if pins.len() == 2 { 1 } else { (pins.len() + 1) / 2 })
            &&& left.len() + right.len() == pins.len()
        }),
{
    let two = pins.len() == 2;
    lemma_isort_multiset(pins, two);
    lemma_isort_len(pins, two);
    let s = isort(pins, two);
    let h: int = if two { 1 } else { ((pins.len() + 1) / 2) as int };
    assert(s.take(h) + s.skip(h) =~= s);
}

} // verus!
