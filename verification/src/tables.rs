//! Reading TOML text into the library's table model with the `toml`
//! crate's parser. The parse and the entry-by-entry conversion are
//! trusted; what a manifest or a part card means is read from the model by
//! verified code.
use vstd::prelude::*;
use crate::project::{TomlEntry, TomlRead, TomlValue};

verus! {

#[verifier::external_type_specification]
#[verifier::external_body]
pub struct ExTomlValue(toml::Value);

#[verifier::external_type_specification]
#[verifier::external_body]
#[verifier::reject_recursive_types(K)]
#[verifier::reject_recursive_types(V)]
pub struct ExTomlMap<K, V>(toml::map::Map<K, V>);

/// What the `toml` crate's parser makes of `text` as a top-level table:
/// its entries in key order, or the parser's message.
pub uninterp spec fn toml_table(text: Seq<u8>) -> Result<Seq<TomlEntry>, Seq<u8>>;

/// Calls `str::parse::<toml::Table>` on the text and converts the table
/// entry by entry. Trusted: the result is the named `toml_table` of the
/// bytes; text that is not UTF-8 is refused with the UTF-8 error.
#[verifier::external_body]
pub fn parse_toml(text: &[u8]) -> (r: Result<Vec<TomlEntry>, Vec<u8>>)
    ensures
        match r {
            Ok(t) => toml_table(text@) == Ok::<Seq<TomlEntry>, Seq<u8>>(t@),
            Err(e) => toml_table(text@) == Err::<Seq<TomlEntry>, Seq<u8>>(e@),
        },
{
    let s = std::str::from_utf8(text).map_err(|e| e.to_string().into_bytes())?;
    let table = s.parse::<toml::Table>().map_err(|e| e.to_string().into_bytes())?;
    Ok(entries_of(&table))
}

/// Converts a table's entries, in its key order.
#[verifier::external_body]
fn entries_of(t: &toml::Table) -> Vec<TomlEntry> {
    t.iter().map(|(k, v)| TomlEntry { key: k.as_bytes().to_vec(), value: value_of(v), shown: shown(v), json: json(v) }).collect()
}

/// Converts a value: strings, integers, booleans and tables by their
/// contents; anything else as `Other`.
#[verifier::external_body]
fn value_of(v: &toml::Value) -> TomlValue {
    match v {
        toml::Value::String(s) => TomlValue::Str(s.as_bytes().to_vec()),
        toml::Value::Integer(i) => TomlValue::Int(*i),
        toml::Value::Boolean(b) => TomlValue::Bool(*b),
        toml::Value::Table(t) => TomlValue::Table(entries_of(t)),
        _ => TomlValue::Other,
    }
}

/// Calls `toml::Value`'s `Display` (`to_string`): the value as TOML
/// writes it.
#[verifier::external_body]
fn shown(v: &toml::Value) -> Vec<u8> {
    v.to_string().into_bytes()
}

/// Calls `serde_json::to_string` on the value: its JSON text (empty if it
/// has no JSON form).
#[verifier::external_body]
fn json(v: &toml::Value) -> Vec<u8> {
    serde_json::to_string(v).unwrap_or_default().into_bytes()
}

/// What reading a TOML file gave, from the text read (or why it could not
/// be read): `Unreadable` with the reason, else the parse of the text.
pub fn toml_read(text: Result<Vec<u8>, Vec<u8>>) -> (r: TomlRead)
    ensures
        text matches Err(e) ==> r matches TomlRead::Unreadable(m) && m@ == e@,
        text matches Ok(t) ==> match toml_table(t@) {
            Ok(entries) => r matches TomlRead::Parsed(p) && p@ == entries,
            Err(m) => r matches TomlRead::Invalid(x) && x@ == m,
        },
{
    match text {
        Err(e) => TomlRead::Unreadable(e),
        Ok(t) => match parse_toml(t.as_slice()) {
            Ok(entries) => TomlRead::Parsed(entries),
            Err(m) => TomlRead::Invalid(m),
        },
    }
}

} // verus!
