//! Name rules shared by the writers, the scaffolder and the part cards.
use vstd::prelude::*;
use vstd::string::StringSliceAdditionalSpecFns;
use crate::bytes::{
    bytes_eq, cat, ends_with, find, lemma_find_from, lemma_rfind_byte, lit, rfind_byte, slice_copy,
    spec_ends_with, spec_find, spec_rfind_byte, spec_starts_with, starts_with,
};

verus! {

pub open spec fn is_ascii_alpha(b: u8) -> bool {
    (65u8 <= b <= 90u8) || (97u8 <= b <= 122u8)
}

pub open spec fn is_ascii_digit(b: u8) -> bool {
    48u8 <= b <= 57u8
}

pub open spec fn is_ascii_alnum(b: u8) -> bool {
    is_ascii_alpha(b) || is_ascii_digit(b)
}

/// `[A-Za-z0-9_-]`
pub open spec fn is_name_byte(b: u8) -> bool {
    is_ascii_alnum(b) || b == 95u8 || b == 45u8
}

/// `[A-Za-z0-9_]`
pub open spec fn is_ident_byte(b: u8) -> bool {
    is_ascii_alnum(b) || b == 95u8
}

/// Instance, net and component names: `[A-Za-z][A-Za-z0-9_-]*`, at most 64
/// bytes.
pub open spec fn spec_valid_name(s: Seq<u8>) -> bool {
    &&& s.len() > 0
    &&& is_ascii_alpha(s[0])
    &&& s.len() <= 64
    &&& forall|i: int| 0 <= i < s.len() ==> is_name_byte(#[trigger] s[i])
}

/// Instance names: same shape scaffold enforces for component names.
pub fn valid_instance_name(name: &[u8]) -> (r: bool)
    ensures
        r == spec_valid_name(name@),
{
    if name.len() == 0 || name.len() > 64 {
        return false;
    }
    let c = name[0];
    if !((65u8 <= c && c <= 90u8) || (97u8 <= c && c <= 122u8)) {
        return false;
    }
    let mut i: usize = 0;
    while i < name.len()
        invariant
            i <= name@.len(),
            forall|j: int| 0 <= j < i ==> is_name_byte(#[trigger] name@[j]),
        decreases name.len() - i,
    {
        let b = name[i];
        if !((65u8 <= b && b <= 90u8) || (97u8 <= b && b <= 122u8) || (48u8 <= b && b <= 57u8)
            || b == 95u8 || b == 45u8) {
            return false;
        }
        i = i + 1;
    }
    true
}

/// Every byte is `[A-Za-z0-9_]` and there is at least one.
pub open spec fn spec_valid_attr_key(s: Seq<u8>) -> bool {
    s.len() > 0 && forall|i: int| 0 <= i < s.len() ==> is_ident_byte(#[trigger] s[i])
}

/// Attribute kwarg names: `[A-Za-z0-9_]+`.
pub fn valid_attr_key(key: &[u8]) -> (r: bool)
    ensures
        r == spec_valid_attr_key(key@),
{
    if key.len() == 0 {
        return false;
    }
    let mut i: usize = 0;
    while i < key.len()
        invariant
            i <= key@.len(),
            forall|j: int| 0 <= j < i ==> is_ident_byte(#[trigger] key@[j]),
        decreases key.len() - i,
    {
        let b = key[i];
        if !((65u8 <= b && b <= 90u8) || (97u8 <= b && b <= 122u8) || (48u8 <= b && b <= 57u8)
            || b == 95u8) {
            return false;
        }
        i = i + 1;
    }
    true
}

/// An LCSC part number: `C` followed by one or more ASCII digits.
pub open spec fn spec_lcsc_part_valid(s: Seq<u8>) -> bool {
    &&& s.len() > 1
    &&& s[0] == 67u8
    &&& forall|i: int| 1 <= i < s.len() ==> is_ascii_digit(#[trigger] s[i])
}

pub fn lcsc_part_valid(part: &[u8]) -> (r: bool)
    ensures
        r == spec_lcsc_part_valid(part@),
{
    if part.len() <= 1 || part[0] != 67u8 {
        return false;
    }
    let mut i: usize = 1;
    while i < part.len()
        invariant
            1 <= i <= part@.len(),
            forall|j: int| 1 <= j < i ==> is_ascii_digit(#[trigger] part@[j]),
        decreases part.len() - i,
    {
        if !(48u8 <= part[i] && part[i] <= 57u8) {
            return false;
        }
        i = i + 1;
    }
    true
}

/// The variable a net is bound to: its name with `-` mapped to `_`.
pub open spec fn spec_net_variable(name: Seq<u8>) -> Seq<u8> {
    name.map_values(|b: u8| if b == 45u8 { 95u8 } else { b })
}

/// Net names share the instance-name shape; the bound variable is the name
/// with `-` mapped to `_` (variable and net name are one identity the
/// writers keep in sync).
pub fn net_variable(name: &[u8]) -> (r: Vec<u8>)
    ensures
        r@ == spec_net_variable(name@),
{
    let mut out: Vec<u8> = Vec::new();
    let mut i: usize = 0;
    while i < name.len()
        invariant
            i <= name@.len(),
            out@ == spec_net_variable(name@.take(i as int)),
        decreases name.len() - i,
    {
        let b = name[i];
        out.push(if b == 45u8 { 95u8 } else { b });
        assert(name@.take(i + 1) == name@.take(i as int).push(b));
        i = i + 1;
    }
    assert(name@.take(name@.len() as int) == name@);
    out
}

/// The net constructors the writers emit.
pub open spec fn spec_valid_net_kind(kind: Seq<u8>) -> bool {
    kind == "Net".spec_bytes() || kind == "Power".spec_bytes() || kind == "Ground".spec_bytes()
}

pub fn valid_net_kind(kind: &[u8]) -> (r: bool)
    ensures
        r == spec_valid_net_kind(kind@),
{
    bytes_eq(kind, lit("Net").as_slice()) || bytes_eq(kind, lit("Power").as_slice()) || bytes_eq(
        kind,
        lit("Ground").as_slice(),
    )
}

/// Files the canvas may write: workspace-relative `.zen` files outside the
/// materialized stdlib (`.pcb/`).
pub open spec fn spec_is_authored(rel: Seq<u8>) -> bool {
    &&& !spec_starts_with(rel, "/".spec_bytes())
    &&& !spec_starts_with(rel, ".pcb/".spec_bytes())
    &&& spec_ends_with(rel, ".zen".spec_bytes())
}

pub fn is_authored(rel: &[u8]) -> (r: bool)
    ensures
        r == spec_is_authored(rel@),
{
    !starts_with(rel, lit("/").as_slice()) && !starts_with(rel, lit(".pcb/").as_slice())
        && ends_with(rel, lit(".zen").as_slice())
}

/// Join a parent instance path with a child name.
pub fn child_path(parent: &[u8], name: &[u8]) -> (r: Vec<u8>)
    ensures
        r@ == parent@ + ".".spec_bytes() + name@,
{
    let mut out = cat(parent, lit(".").as_slice());
    crate::text::push_all(&mut out, name);
    out
}

/// The part of a dotted path after its last `.` (the whole path when it has
/// none).
pub open spec fn spec_last_segment(path: Seq<u8>) -> Seq<u8> {
    match spec_rfind_byte(path, 46u8) {
        Some(i) => path.subrange(i + 1, path.len() as int),
        None => path,
    }
}

pub fn last_segment(path: &[u8]) -> (r: Vec<u8>)
    ensures
        r@ == spec_last_segment(path@),
{
    proof {
        lemma_rfind_byte(path@, 46u8);
    }
    match rfind_byte(path, 46u8) {
        Some(i) => {
            assert(spec_rfind_byte(path@, 46u8) == Some(i as int));
            let n = path.len();
            assert((i as int) < n);
            slice_copy(path, i + 1, n)
        },
        None => slice_copy(path, 0, path.len()),
    }
}

/// The text between `start` and the next occurrence of `end` after it.
pub open spec fn spec_between(s: Seq<u8>, start: Seq<u8>, end: Seq<u8>) -> Option<Seq<u8>> {
    match spec_find(s, start) {
        None => None,
        Some(i) => {
            let from = i + start.len();
            match spec_find(s.subrange(from, s.len() as int), end) {
                None => None,
                Some(n) => Some(s.subrange(from, from + n)),
            }
        },
    }
}

pub fn between(s: &[u8], start: &[u8], end: &[u8]) -> (r: Option<Vec<u8>>)
    ensures
        r matches Some(v) ==> spec_between(s@, start@, end@) == Some(v@),
        r is None ==> spec_between(s@, start@, end@) is None,
{
    proof {
        lemma_find_from(s@, start@, 0);
    }
    let i = match find(s, start) {
        Some(i) => i,
        None => return None,
    };
    assert(spec_find(s@, start@) == Some(i as int));
    assert(i + start@.len() <= s@.len());
    let n = s.len();
    assert(i + start@.len() <= n);
    let from = i + start.len();
    let rest = slice_copy(s, from, s.len());
    proof {
        lemma_find_from(rest@, end@, 0);
    }
    match find(rest.as_slice(), end) {
        Some(n) => Some(slice_copy(s, from, from + n)),
        None => None,
    }
}

/// An example literal for a physical-unit config type, for error copy.
pub open spec fn spec_type_example(ty: Seq<u8>) -> Option<Seq<u8>> {
    if ty == "Resistance".spec_bytes() || ty == "Impedance".spec_bytes() {
        Some("10kohm".spec_bytes())
    } else if ty == "Capacitance".spec_bytes() {
        Some("100nF".spec_bytes())
    } else if ty == "Inductance".spec_bytes() {
        Some("10uH".spec_bytes())
    } else if ty == "Voltage".spec_bytes() {
        Some("3.3V".spec_bytes())
    } else if ty == "Current".spec_bytes() {
        Some("1A".spec_bytes())
    } else if ty == "Frequency".spec_bytes() {
        Some("16MHz".spec_bytes())
    } else if ty == "Time".spec_bytes() {
        Some("10ms".spec_bytes())
    } else if ty == "Power".spec_bytes() {
        Some("125mW".spec_bytes())
    } else if ty == "Charge".spec_bytes() {
        Some("1C".spec_bytes())
    } else if ty == "Conductance".spec_bytes() {
        Some("1S".spec_bytes())
    } else if ty == "Energy".spec_bytes() {
        Some("1J".spec_bytes())
    } else if ty == "Temperature".spec_bytes() {
        Some("300K".spec_bytes())
    } else {
        None
    }
}

fn is(ty: &[u8], s: &str) -> (r: bool)
    ensures
        r == (ty@ == s.spec_bytes()),
{
    bytes_eq(ty, lit(s).as_slice())
}

pub fn type_example(ty: &[u8]) -> (r: Option<Vec<u8>>)
    ensures
        r matches Some(v) ==> spec_type_example(ty@) == Some(v@),
        r is None ==> spec_type_example(ty@) is None,
{
    if is(ty, "Resistance") || is(ty, "Impedance") {
        Some(lit("10kohm"))
    } else if is(ty, "Capacitance") {
        Some(lit("100nF"))
    } else if is(ty, "Inductance") {
        Some(lit("10uH"))
    } else if is(ty, "Voltage") {
        Some(lit("3.3V"))
    } else if is(ty, "Current") {
        Some(lit("1A"))
    } else if is(ty, "Frequency") {
        Some(lit("16MHz"))
    } else if is(ty, "Time") {
        Some(lit("10ms"))
    } else if is(ty, "Power") {
        Some(lit("125mW"))
    } else if is(ty, "Charge") {
        Some(lit("1C"))
    } else if is(ty, "Conductance") {
        Some(lit("1S"))
    } else if is(ty, "Energy") {
        Some(lit("1J"))
    } else if is(ty, "Temperature") {
        Some(lit("300K"))
    } else {
        None
    }
}

/// `"` + bytes + `"`: how a name that passed `spec_valid_name` reads as a
/// string literal (its Debug form needs no escapes).
pub open spec fn quoted(s: Seq<u8>) -> Seq<u8> {
    seq![34u8] + s + seq![34u8]
}

pub fn quote(s: &[u8]) -> (r: Vec<u8>)
    ensures
        r@ == quoted(s@),
{
    let mut out: Vec<u8> = Vec::new();
    out.push(34u8);
    crate::text::push_all(&mut out, s);
    out.push(34u8);
    out
}


/// The number a run of decimal digits spells.
pub open spec fn digits_value(s: Seq<u8>) -> int
    decreases s.len(),
{
    if s.len() == 0 {
        0
    } else {
        digits_value(s.drop_last()) * 10 + (s.last() - 48)
    }
}

/// At least one byte, every one an ASCII digit.
pub open spec fn all_digits(s: Seq<u8>) -> bool {
    s.len() > 0 && forall|i: int| 0 <= i < s.len() ==> 48u8 <= #[trigger] s[i] <= 57u8
}

/// Whether `v` reads as a 64-bit signed integer the way Rust's `i64`
/// parser reads it: an optional `+` or `-`, then decimal digits, the value
/// in range.
pub open spec fn spec_parses_i64(v: Seq<u8>) -> bool {
    if v.len() > 0 && v[0] == 45u8 {
        all_digits(v.drop_first()) && digits_value(v.drop_first()) <= 9223372036854775808
    } else if v.len() > 0 && v[0] == 43u8 {
        all_digits(v.drop_first()) && digits_value(v.drop_first()) <= 9223372036854775807
    } else {
        all_digits(v) && digits_value(v) <= 9223372036854775807
    }
}

proof fn lemma_digits_grow(s: Seq<u8>, i: int, j: int)
    requires
        0 <= i <= j <= s.len(),
        forall|k: int| 0 <= k < s.len() ==> 48u8 <= #[trigger] s[k] <= 57u8,
    ensures
        digits_value(s.take(i)) <= digits_value(s.take(j)),
        digits_value(s.take(i)) >= 0,
    decreases j - i,
{
    if i < j {
        lemma_digits_grow(s, i, j - 1);
        assert(s.take(j).drop_last() == s.take(j - 1));
        assert(s.take(j).last() == s[j - 1]);
    } else {
        lemma_digits_nonneg(s, i);
    }
}

proof fn lemma_digits_nonneg(s: Seq<u8>, i: int)
    requires
        0 <= i <= s.len(),
        forall|k: int| 0 <= k < s.len() ==> 48u8 <= #[trigger] s[k] <= 57u8,
    ensures
        digits_value(s.take(i)) >= 0,
    decreases i,
{
    if i > 0 {
        lemma_digits_nonneg(s, i - 1);
        assert(s.take(i).drop_last() == s.take(i - 1));
        assert(s.take(i).last() == s[i - 1]);
    }
}

/// Digits from `from` on: whether they are all digits, at least one, and
/// spell a value at most `limit`.
fn digits_within(v: &[u8], from: usize, limit: u64) -> (r: bool)
    requires
        from <= v@.len(),
        limit >= 9,
    ensures
        r == (all_digits(v@.subrange(from as int, v@.len() as int)) && digits_value(
            v@.subrange(from as int, v@.len() as int),
        ) <= limit),
{
    let ghost body = v@.subrange(from as int, v@.len() as int);
    if from == v.len() {
        return false;
    }
    let mut j = from;
    let mut acc: u64 = 0;
    let mut over = false;
    while j < v.len()
        invariant
            from <= j <= v@.len(),
            limit >= 9,
            body == v@.subrange(from as int, v@.len() as int),
            forall|k: int| from <= k < j ==> 48u8 <= #[trigger] v@[k] <= 57u8,
            !over ==> acc == digits_value(body.take(j - from)) && acc <= limit,
            over ==> digits_value(body.take(j - from)) > limit,
        decreases v.len() - j,
    {
        let b = v[j];
        if b < 48u8 || b > 57u8 {
            assert(body[j - from] == b);
            return false;
        }
        proof {
            assert(body.take(j + 1 - from).drop_last() == body.take(j - from));
            assert(body.take(j + 1 - from).last() == b);
            assert forall|k: int| 0 <= k < body.take(j + 1 - from).len() implies 48u8 <= #[trigger] body.take(
                j + 1 - from,
            )[k] <= 57u8 by {
                assert(body.take(j + 1 - from)[k] == v@[from + k]);
            }
            lemma_digits_nonneg(body.take(j + 1 - from), j - from);
            assert(body.take(j + 1 - from).take(j - from) == body.take(j - from));
        }
        if !over {
            let d = (b - 48u8) as u64;
            if acc > (limit - d) / 10 {
                over = true;
                assert(acc * 10 + d > limit) by (nonlinear_arith)
                    requires
                        acc > (limit - d) / 10,
                        d <= 9,
                        limit >= 9,
                ;
            } else {
                assert(acc * 10 + d <= limit) by (nonlinear_arith)
                    requires
                        acc <= (limit - d) / 10,
                        d <= limit,
                ;
                acc = acc * 10 + d;
            }
        }
        j = j + 1;
    }
    assert(body.take(j - from) == body);
    !over
}

/// Whether `v` parses as an `i64` (see [`spec_parses_i64`]).
pub fn parses_i64(v: &[u8]) -> (r: bool)
    ensures
        r == spec_parses_i64(v@),
{
    if v.len() > 0 && v[0] == 45u8 {
        assert(v@.drop_first() == v@.subrange(1, v@.len() as int));
        digits_within(v, 1, 9223372036854775808u64)
    } else if v.len() > 0 && v[0] == 43u8 {
        assert(v@.drop_first() == v@.subrange(1, v@.len() as int));
        digits_within(v, 1, 9223372036854775807u64)
    } else {
        assert(v@ == v@.subrange(0, v@.len() as int));
        digits_within(v, 0, 9223372036854775807u64)
    }
}

} // verus!
