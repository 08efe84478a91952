//! One input record is one line of text, expected to be a JSON object. The
//! aggregation engine only ever looks at a single top-level field of it, so
//! this module reduces a record to what stands at that field: a scalar, a
//! compound value, or nothing.

use vstd::prelude::*;

verus! {

/// What stands at a top-level key of a record line, as the JSON parser sees
/// it. `Absent` covers both a line that does not parse as JSON and an object
/// without that member; either way the record contributes nothing at the key.
pub enum FieldShape {
    Absent,
    Compound,
    Null,
    Boolean { b: bool },
    Number { digits: Seq<char> },
    Text { t: Seq<char> },
}

/// The field that `serde_json` finds at top-level `key` when `line` is parsed
/// as JSON: nothing if the line is not JSON or the member is missing, the
/// scalar otherwise, with a number carried as its decimal rendering. Parsing
/// is a function of the line and key alone, so the result can be named.
pub uninterp spec fn field_at(line: Seq<char>, key: Seq<char>) -> FieldShape;

/// Executable form of one looked-up field.
pub enum Field {
    Absent,
    Compound,
    Null,
    Boolean(bool),
    Number(String),
    Text(String),
}

impl View for Field {
    type V = FieldShape;

    open spec fn view(&self) -> FieldShape {
        match self {
            Field::Absent => FieldShape::Absent,
            Field::Compound => FieldShape::Compound,
            Field::Null => FieldShape::Null,
            Field::Boolean(b) => FieldShape::Boolean { b: *b },
            Field::Number(d) => FieldShape::Number { digits: d@ },
            Field::Text(t) => FieldShape::Text { t: t@ },
        }
    }
}

/// Relies on `serde_json::from_str` to parse the line, `Value::get` to look up
/// the top-level member, and `Number`'s `Display` for the decimal rendering of
/// a numeric member. Together they compute `field_at(line, key)`.
#[verifier::external_body]
pub(crate) fn lookup_field(line: &str, key: &str) -> (r: Field)
    ensures
        r@ == field_at(line@, key@),
{
    let v: serde_json::Value = match serde_json::from_str(line) {
        Ok(v) => v,
        Err(_) => return Field::Absent,
    };
    match v.get(key) {
        None => Field::Absent,
        Some(serde_json::Value::Null) => Field::Null,
        Some(serde_json::Value::Bool(b)) => Field::Boolean(*b),
        Some(serde_json::Value::Number(n)) => Field::Number(n.to_string()),
        Some(serde_json::Value::String(s)) => Field::Text(s.clone()),
        Some(_) => Field::Compound,
    }
}

/// The canonical string under which a scalar field value is grouped for
/// counting: `null`, `true`/`false`, a number's decimal form, or the text
/// itself. A missing or compound field has none and the record is skipped.
pub open spec fn canon_of(f: FieldShape) -> Option<Seq<char>> {
    match f {
        FieldShape::Absent => None,
        FieldShape::Compound => None,
        FieldShape::Null => Some("null"@),
        FieldShape::Boolean { b } => if b {
            Some("true"@)
        } else {
            Some("false"@)
        },
        FieldShape::Number { digits } => Some(digits),
        FieldShape::Text { t } => Some(t),
    }
}

/// Turns a looked-up field into the canonical string it is counted under,
/// or `None` for a field that cannot be counted.
pub fn values_to_keys(f: Field) -> (r: Option<String>)
    ensures
        r is Some <==> canon_of(f@) is Some,
        r is Some ==> r->0@ == canon_of(f@)->0,
{
    proof {
        reveal_strlit("null");
        reveal_strlit("true");
        reveal_strlit("false");
    }
    match f {
        Field::Absent => None,
        Field::Compound => None,
        Field::Null => Some(String::from_str("null")),
        Field::Boolean(b) => if b {
            Some(String::from_str("true"))
        } else {
            Some(String::from_str("false"))
        },
        Field::Number(d) => Some(d),
        Field::Text(t) => Some(t),
    }
}

/// Relies on `String::push`: appends exactly one character.
#[verifier::external_body]
pub(crate) fn push_char(out: &mut String, c: char)
    ensures
        final(out)@ == old(out)@ + seq![c],
{
    out.push(c);
}

} // verus!
