//! `json-flat` values: fields of a JSON value's data blob, and the key and value blobs that an
//! INSERT produces.
//!
//! A data blob is `[partition hash: i32 BE][type: i32 BE][payload]`; the payload of text and of a
//! JSON value is `[length: i32 BE][UTF-8]`, that of an integer its `i32` BE.

use vstd::prelude::*;
use vstd::slice::slice_subrange;
use vstd::utf8::encode_utf8;
use super::predicate::{Field, FieldView};
use super::value::{Double, FieldValue, ValueView};
use crate::bytes::{
    get_i32_be, i32_be, i32_be_at, i32_le, lemma_ints_read_back, lemma_le_digits_len, put_i32_be,
    put_slice,
};
use crate::model::views;
use crate::text::{lemma_text_reads_back, read_text, readable, text_bytes};

verus! {

/// Partition hash and type.
pub const DATA_OFFSET: usize = 8;

pub const T_STRING: i32 = -11;

pub const T_INTEGER: i32 = -7;

pub const T_JSON: i32 = -130;

/// A member of a JSON object.
#[derive(Clone, Debug, PartialEq, Eq)]
pub enum Json {
    Null,
    Bool(bool),
    Text(String),
    /// The number as an `i64` if it is one, and as a double: its bits and its text.
    Number(Option<i64>, Option<(u64, String)>),
    /// An array or an object, as JSON text.
    Other(String),
}

/// What a [`Json`] holds.
pub enum JsonView {
    Null,
    Bool(bool),
    Text(Seq<char>),
    Number(Option<i64>, Option<(u64, Seq<char>)>),
    Other(Seq<char>),
}

impl View for Json {
    type V = JsonView;

    open spec fn view(&self) -> JsonView {
        match self {
            Json::Null => JsonView::Null,
            Json::Bool(b) => JsonView::Bool(*b),
            Json::Text(s) => JsonView::Text(s@),
            Json::Number(i, d) => JsonView::Number(
                *i,
                match d {
                    Some((bits, text)) => Some((*bits, text@)),
                    None => None,
                },
            ),
            Json::Other(s) => JsonView::Other(s@),
        }
    }
}

/// The members of the JSON object that bytes spell, as `serde_json` parses them; none if they
/// spell no object.
pub uninterp spec fn json_members(b: Seq<u8>) -> Option<Seq<(Seq<char>, JsonView)>>;

/// `serde_json::from_slice` into a `serde_json::Value`, and the members of the object that it is.
/// Claimed of it: the members depend on the bytes alone.
#[verifier::external_body]
fn parse_members(b: &[u8]) -> (r: Option<Vec<(String, Json)>>)
    ensures
        match r {
            Some(m) => json_members(b@) == Some(views(m@)),
            None => json_members(b@) is None,
        },
{
    let value: serde_json::Value = serde_json::from_slice(b).ok()?;
    let members = value.as_object()?.iter().map(|(k, v)| (k.clone(), match v {
        serde_json::Value::Null => Json::Null,
        serde_json::Value::Bool(b) => Json::Bool(*b),
        serde_json::Value::String(s) => Json::Text(s.clone()),
        serde_json::Value::Number(n) => {
            Json::Number(n.as_i64(), n.as_f64().map(|d| (d.to_bits(), d.to_string())))
        },
        other => Json::Other(other.to_string()),
    }));
    Some(members.collect())
}

/// The text that `serde_json` writes for an object with these members.
pub uninterp spec fn json_text(fields: Seq<FieldView>) -> Seq<char>;

/// A value as it comes back from JSON: integers come back as `I64`.
pub open spec fn as_stored(v: ValueView) -> ValueView {
    match v {
        ValueView::I32(i) => ValueView::I64(i as i64),
        _ => v,
    }
}

/// `serde_json::Map::insert` for each field in order, then `to_string` of the object. Claimed of
/// it: the text depends on the fields alone; and what it parses back to has under each name the
/// value of the last field of that name, as far as that is no double.
#[verifier::external_body]
fn write_object(fields: &[Field]) -> (s: String)
    ensures
        s@ == json_text(views(fields@)),
        json_members(encode_utf8(s@)) is Some,
        forall|i: int|
            0 <= i < fields@.len() && is_last(views(fields@), i) && !(views(fields@)[i].1 is F64)
                ==> member_value(
                json_members(encode_utf8(s@)),
                (#[trigger] views(fields@)[i]).0,
            ) == as_stored(views(fields@)[i].1),
{
    let members = fields.iter().map(|(k, v)| (k.clone(), match v {
        FieldValue::Null => serde_json::Value::Null,
        FieldValue::Bool(b) => serde_json::Value::Bool(*b),
        FieldValue::I32(i) => serde_json::Value::from(*i),
        FieldValue::I64(i) => serde_json::Value::from(*i),
        FieldValue::F64(d) => serde_json::Number::from_f64(d.text.parse().unwrap_or_default())
            .map_or(serde_json::Value::Null, serde_json::Value::Number),
        FieldValue::Str(s) => serde_json::Value::String(s.clone()),
    }));
    serde_json::Value::Object(members.collect()).to_string()
}

/// Whether no later field has the name of field `i`.
pub open spec fn is_last(fields: Seq<FieldView>, i: int) -> bool {
    forall|j: int| i < j < fields.len() ==> (#[trigger] fields[j]).0 != fields[i].0
}

/// The field value of a JSON member.
pub open spec fn json_value(j: JsonView) -> ValueView {
    match j {
        JsonView::Null => ValueView::Null,
        JsonView::Bool(b) => ValueView::Bool(b),
        JsonView::Text(s) => ValueView::Str(s),
        JsonView::Number(Some(i), _) => ValueView::I64(i),
        JsonView::Number(None, Some((bits, text))) => ValueView::F64(bits, text),
        JsonView::Number(None, None) => ValueView::F64(0, "0"@),
        JsonView::Other(s) => ValueView::Str(s),
    }
}

/// A JSON member as a field value.
pub fn json_to_fieldvalue(j: &Json) -> (v: FieldValue)
    ensures
        v@ == json_value(j@),
{
    match j {
        Json::Null => FieldValue::Null,
        Json::Bool(b) => FieldValue::Bool(*b),
        Json::Text(s) => FieldValue::Str(s.clone()),
        Json::Number(i, d) => match i {
            Some(i) => FieldValue::I64(*i),
            None => match d {
                Some((bits, text)) => FieldValue::F64(Double { bits: *bits, text: text.clone() }),
                None => FieldValue::F64(Double { bits: 0, text: "0".to_string() }),
            },
        },
        Json::Other(s) => FieldValue::Str(s.clone()),
    }
}

/// The first member of a name.
pub open spec fn find_member(members: Seq<(Seq<char>, JsonView)>, name: Seq<char>) -> Option<
    JsonView,
>
    decreases members.len(),
{
    if members.len() == 0 {
        None
    } else if members[0].0 == name {
        Some(members[0].1)
    } else {
        find_member(members.skip(1), name)
    }
}

/// The field value under a name; null if there is no object or no such member.
pub open spec fn member_value(
    members: Option<Seq<(Seq<char>, JsonView)>>,
    name: Seq<char>,
) -> ValueView {
    match members {
        None => ValueView::Null,
        Some(m) => match find_member(m, name) {
            Some(j) => json_value(j),
            None => ValueView::Null,
        },
    }
}

/// The field value under a name of parsed members.
pub fn value_in_members(members: &Vec<(String, Json)>, name: &str) -> (v: FieldValue)
    ensures
        v@ == member_value(Some(views(members@)), name@),
{
    let wanted: String = name.to_string();
    let ghost all = views(members@);
    let mut i: usize = 0;
    assert(all.skip(0) =~= all);
    while i < members.len()
        invariant
            i <= members@.len(),
            all == views(members@),
            wanted@ == name@,
            find_member(all, name@) == find_member(all.skip(i as int), name@),
        decreases members@.len() - i,
    {
        let m = &members[i];
        assert(all.skip(i as int)[0] == m@);
        assert(all.skip(i as int).skip(1) =~= all.skip(i + 1));
        if m.0 == wanted {
            return json_to_fieldvalue(&m.1);
        }
        i = i + 1;
    }
    FieldValue::Null
}

/// The text bytes of a payload that starts with their length; none if they are not all there.
pub open spec fn counted(p: Seq<u8>) -> Option<Seq<u8>> {
    if p.len() < 4 || i32_be_at(p, 0) < 0 || 4 + i32_be_at(p, 0) > p.len() {
        None
    } else {
        Some(p.subrange(4, 4 + i32_be_at(p, 0)))
    }
}

fn counted_bytes<'a>(b: &'a [u8], from: usize) -> (r: Option<&'a [u8]>)
    requires
        from <= b@.len(),
    ensures
        match r {
            Some(x) => counted(b@.skip(from as int)) == Some(x@),
            None => counted(b@.skip(from as int)) is None,
        },
{
    let ghost p = b@.skip(from as int);
    if b.len() - from < 4 {
        return None;
    }
    assert(p.subrange(0, 4) =~= b@.subrange(from as int, from + 4));
    let n: i32 = get_i32_be(b, from);
    if n < 0 || n as usize > b.len() - from - 4 {
        return None;
    }
    let x = slice_subrange(b, from + 4, from + 4 + n as usize);
    assert(x@ =~= p.subrange(4, 4 + n as int));
    Some(x)
}

/// The members of the JSON object inside a value's data blob.
pub open spec fn blob_members(value: Seq<u8>) -> Option<Seq<(Seq<char>, JsonView)>> {
    if value.len() < DATA_OFFSET {
        None
    } else {
        match counted(value.skip(DATA_OFFSET as int)) {
            Some(b) => json_members(b),
            None => None,
        }
    }
}

/// Parses the JSON object inside a value's data blob.
pub fn parse_json_object(value: &[u8]) -> (r: Option<Vec<(String, Json)>>)
    ensures
        match r {
            Some(m) => blob_members(value@) == Some(views(m@)),
            None => blob_members(value@) is None,
        },
{
    if value.len() < DATA_OFFSET {
        return None;
    }
    match counted_bytes(value, DATA_OFFSET) {
        Some(b) => parse_members(b),
        None => None,
    }
}

/// A source of field values: what a field of a stored value holds.
pub trait FieldExtractor {
    /// What a field of a stored value holds; nothing, unless said otherwise.
    open spec fn extracted(&self, value: Seq<u8>, field: Seq<char>) -> ValueView {
        ValueView::Null
    }

    fn extract(&self, value: &[u8], field: &str) -> (v: FieldValue)
        ensures
            v@ == self.extracted(value@, field@),
    ;
}

/// Extracts a flat field from a JSON-object value.
pub struct JsonExtractor;

impl FieldExtractor for JsonExtractor {
    open spec fn extracted(&self, value: Seq<u8>, field: Seq<char>) -> ValueView {
        member_value(blob_members(value), field)
    }

    fn extract(&self, value: &[u8], field: &str) -> (v: FieldValue) {
        match parse_json_object(value) {
            Some(m) => value_in_members(&m, field),
            None => FieldValue::Null,
        }
    }
}

/// The names of members.
pub open spec fn member_names(members: Seq<(Seq<char>, JsonView)>) -> Seq<Seq<char>> {
    Seq::new(members.len(), |i: int| members[i].0)
}

/// The names of parsed members, in order.
pub fn names_of_members(members: &Vec<(String, Json)>) -> (r: Vec<String>)
    ensures
        views(r@) == member_names(views(members@)),
{
    let mut r: Vec<String> = Vec::new();
    let mut i: usize = 0;
    while i < members.len()
        invariant
            i <= members@.len(),
            views(r@) =~= member_names(views(members@)).take(i as int),
        decreases members@.len() - i,
    {
        let ghost so_far = views(r@);
        assert(views(members@)[i as int] == members@[i as int]@);
        let name: String = members[i].0.clone();
        r.push(name);
        assert(views(r@) =~= so_far.push(name@));
        i = i + 1;
    }
    assert(member_names(views(members@)).take(i as int) =~= member_names(views(members@)));
    r
}

/// All field names of a JSON value (for `SELECT *`).
pub fn json_field_names(value: &[u8]) -> (r: Option<Vec<String>>)
    ensures
        match r {
            Some(n) => blob_members(value@) matches Some(m) && views(n@) == member_names(m),
            None => blob_members(value@) is None,
        },
{
    match parse_json_object(value) {
        Some(m) => Some(names_of_members(&m)),
        None => None,
    }
}

/// Members as named field values.
pub open spec fn member_fields(members: Seq<(Seq<char>, JsonView)>) -> Seq<FieldView> {
    Seq::new(members.len(), |i: int| (members[i].0, json_value(members[i].1)))
}

/// Appends parsed members as named field values.
pub fn push_members(out: &mut Vec<Field>, members: &Vec<(String, Json)>)
    ensures
        views(final(out)@) == views(old(out)@) + member_fields(views(members@)),
{
    let ghost before = views(out@);
    let ghost all = member_fields(views(members@));
    let mut i: usize = 0;
    while i < members.len()
        invariant
            i <= members@.len(),
            all == member_fields(views(members@)),
            views(out@) =~= before + all.take(i as int),
        decreases members@.len() - i,
    {
        let ghost so_far = views(out@);
        let m = &members[i];
        assert(views(members@)[i as int] == m@);
        let f = (m.0.clone(), json_to_fieldvalue(&m.1));
        assert(f@ == all[i as int]);
        out.push(f);
        assert(views(out@) =~= so_far.push(all[i as int]));
        i = i + 1;
    }
    assert(all.take(i as int) =~= all);
}

/// All fields of a json-flat entry: the key column, then every JSON field.
pub fn jsonflat_fields(key: &[u8], value: &[u8], key_col: &str) -> (out: Vec<Field>)
    ensures
        views(out@) == seq![(key_col@, key_value(key@))] + match blob_members(value@) {
            Some(m) => member_fields(m),
            None => Seq::empty(),
        },
{
    let mut out: Vec<Field> = Vec::new();
    out.push((key_col.to_string(), decode_key_data(key)));
    assert(views(out@) =~= seq![(key_col@, key_value(key@))]);
    match parse_json_object(value) {
        Some(m) => push_members(&mut out, &m),
        None => {
            assert(views(out@) + Seq::<FieldView>::empty() =~= views(out@));
        },
    }
    out
}

/// The fields of a JSON record; none if the text is no JSON object.
pub fn json_record_fields(json: &str) -> (out: Vec<Field>)
    ensures
        views(out@) == match json_members(encode_utf8(json@)) {
            Some(m) => member_fields(m),
            None => Seq::empty(),
        },
{
    let mut out: Vec<Field> = Vec::new();
    assert(views(out@) =~= Seq::empty());
    match parse_members(text_bytes(json)) {
        Some(m) => {
            push_members(&mut out, &m);
            assert(views(out@) =~= member_fields(views(m@)));
        },
        None => {},
    }
    out
}

/// A data blob: partition hash 0, type, payload.
pub open spec fn blob(type_id: i32, payload: Seq<u8>) -> Seq<u8> {
    i32_be(0) + i32_be(type_id) + payload
}

/// Bytes behind their length.
pub open spec fn with_length(s: Seq<u8>) -> Seq<u8> {
    i32_be(s.len() as i32) + s
}

fn data_blob(type_id: i32, payload: &[u8]) -> (d: Vec<u8>)
    ensures
        d@ == blob(type_id, payload@),
{
    let mut d: Vec<u8> = Vec::new();
    put_i32_be(&mut d, 0);
    put_i32_be(&mut d, type_id);
    put_slice(&mut d, payload);
    assert(d@ =~= blob(type_id, payload@));
    d
}

fn len_prefixed(s: &[u8]) -> (p: Vec<u8>)
    ensures
        p@ == with_length(s@),
{
    let mut p: Vec<u8> = Vec::new();
    put_i32_be(&mut p, s.len() as i32);
    put_slice(&mut p, s);
    assert(p@ =~= with_length(s@));
    p
}

/// The data blob of a text key.
pub fn string_data(s: &str) -> (d: Vec<u8>)
    ensures
        d@ == blob(T_STRING, with_length(encode_utf8(s@))),
{
    data_blob(T_STRING, len_prefixed(text_bytes(s)).as_slice())
}

/// The data blob of an integer key.
pub fn int_data(i: i32) -> (d: Vec<u8>)
    ensures
        d@ == blob(T_INTEGER, i32_be(i)),
{
    let mut p: Vec<u8> = Vec::new();
    put_i32_be(&mut p, i);
    assert(p@ =~= i32_be(i));
    data_blob(T_INTEGER, p.as_slice())
}

/// The data blob of a JSON value.
pub fn json_value_data(json: &str) -> (d: Vec<u8>)
    ensures
        d@ == blob(T_JSON, with_length(encode_utf8(json@))),
{
    data_blob(T_JSON, len_prefixed(text_bytes(json)).as_slice())
}

/// What a key's data blob holds: text or an integer; anything else is null.
pub open spec fn key_value(key: Seq<u8>) -> ValueView {
    if key.len() < DATA_OFFSET {
        ValueView::Null
    } else if i32_be_at(key, 4) == T_STRING {
        match counted(key.skip(DATA_OFFSET as int)) {
            Some(s) => ValueView::Str(readable(s)),
            None => ValueView::Null,
        }
    } else if i32_be_at(key, 4) == T_INTEGER && key.len() >= DATA_OFFSET + 4 {
        ValueView::I32(i32_be_at(key, DATA_OFFSET as int))
    } else {
        ValueView::Null
    }
}

/// Decodes a key's data blob to a field value.
pub fn decode_key_data(key: &[u8]) -> (v: FieldValue)
    ensures
        v@ == key_value(key@),
{
    if key.len() < DATA_OFFSET {
        return FieldValue::Null;
    }
    let ty: i32 = get_i32_be(key, 4);
    if ty == T_STRING {
        match counted_bytes(key, DATA_OFFSET) {
            Some(s) => FieldValue::Str(read_text(s)),
            None => FieldValue::Null,
        }
    } else if ty == T_INTEGER && key.len() >= DATA_OFFSET + 4 {
        FieldValue::I32(get_i32_be(key, DATA_OFFSET))
    } else {
        FieldValue::Null
    }
}

/// A flat JSON object from named values.
pub fn json_object(fields: &[Field]) -> (s: String)
    ensures
        s@ == json_text(views(fields@)),
        json_members(encode_utf8(s@)) is Some,
        forall|i: int|
            0 <= i < fields@.len() && is_last(views(fields@), i) && !(views(fields@)[i].1 is F64)
                ==> member_value(
                json_members(encode_utf8(s@)),
                (#[trigger] views(fields@)[i]).0,
            ) == as_stored(views(fields@)[i].1),
{
    write_object(fields)
}

proof fn lemma_be_reads_back(b: Seq<u8>, pos: int, v: i32)
    requires
        0 <= pos,
        pos + 4 <= b.len(),
        b.subrange(pos, pos + 4) == i32_be(v),
    ensures
        i32_be_at(b, pos) == v,
{
    broadcast use lemma_le_digits_len;

    assert(b.subrange(pos, pos + 4).reverse() =~= i32_le(v));
    lemma_ints_read_back(0, 0, 0, v, 0);
}

/// Keys read back as they were written.
pub proof fn law_keys_read_back(i: i32, s: Seq<char>)
    requires
        encode_utf8(s).len() <= i32::MAX,
    ensures
        key_value(blob(T_INTEGER, i32_be(i))) == ValueView::I32(i),
        key_value(blob(T_STRING, with_length(encode_utf8(s)))) == ValueView::Str(s),
{
    broadcast use lemma_le_digits_len;

    let a = blob(T_INTEGER, i32_be(i));
    assert(a.subrange(4, 8) =~= i32_be(T_INTEGER));
    assert(a.subrange(8, 12) =~= i32_be(i));
    lemma_be_reads_back(a, 4, T_INTEGER);
    lemma_be_reads_back(a, 8, i);
    let e = encode_utf8(s);
    lemma_counted(e);
    let b = blob(T_STRING, with_length(e));
    assert(b.subrange(4, 8) =~= i32_be(T_STRING));
    lemma_be_reads_back(b, 4, T_STRING);
    assert(b.skip(8) =~= with_length(e));
    lemma_text_reads_back(s);
}

proof fn lemma_counted(s: Seq<u8>)
    requires
        s.len() <= i32::MAX,
    ensures
        counted(with_length(s)) == Some(s),
{
    broadcast use lemma_le_digits_len;

    let p = with_length(s);
    assert(p.subrange(0, 4) =~= i32_be(s.len() as i32));
    lemma_be_reads_back(p, 0, s.len() as i32);
    assert(p.subrange(4, 4 + s.len() as int) =~= s);
}

/// The fields of a stored JSON value are those of its text.
pub proof fn law_json_values_read_back(json: Seq<char>, field: Seq<char>)
    requires
        encode_utf8(json).len() <= i32::MAX,
    ensures
        JsonExtractor.extracted(blob(T_JSON, with_length(encode_utf8(json))), field)
            == member_value(json_members(encode_utf8(json)), field),
{
    broadcast use lemma_le_digits_len;

    let e = encode_utf8(json);
    lemma_counted(e);
    assert(blob(T_JSON, with_length(e)).skip(8) =~= with_length(e));
}

/// The bytes of blobs: four zeroes, the type, then for text its length and bytes, for an integer
/// its bytes.
pub proof fn law_blob_layout(s: Seq<u8>, i: i32)
    ensures
        blob(T_STRING, with_length(s)) == i32_be(0) + i32_be((-11) as i32) + (i32_be(s.len() as i32) + s),
        blob(T_INTEGER, i32_be(i)) == i32_be(0) + i32_be((-7) as i32) + i32_be(i),
        blob(T_JSON, with_length(s)) == i32_be(0) + i32_be((-130) as i32) + (i32_be(s.len() as i32) + s),
{
}

/// A field of an object is its first member of the name, null if there is none: text as text, an
/// integer as an integer, another number as a double, anything nested as its text.
pub proof fn law_members_are_fields(
    members: Seq<(Seq<char>, JsonView)>,
    name: Seq<char>,
    k: int,
)
    requires
        -1 <= k < members.len(),
        k >= 0 ==> members[k].0 == name,
        forall|i: int|
            0 <= i < (if k < 0 {
                members.len() as int
            } else {
                k
            }) ==> (#[trigger] members[i]).0 != name,
    ensures
        ({
            let v = member_value(Some(members), name);
            if k < 0 {
                v is Null
            } else {
                match members[k].1 {
                    JsonView::Null => v is Null,
                    JsonView::Bool(b) => v == ValueView::Bool(b),
                    JsonView::Text(s) => v == ValueView::Str(s),
                    JsonView::Other(s) => v == ValueView::Str(s),
                    JsonView::Number(Some(i), _) => v == ValueView::I64(i),
                    JsonView::Number(None, Some((bits, text))) => v == ValueView::F64(bits, text),
                    JsonView::Number(None, None) => v is F64,
                }
            }
        }),
        member_value(None, name) is Null,
    decreases members.len(),
{
    if members.len() > 0 && k != 0 {
        let rest = members.skip(1);
        assert(members[0].0 != name);
        let n = if k < 0 {
            -1
        } else {
            k - 1
        };
        assert forall|i: int|
            0 <= i < (if n < 0 {
                rest.len() as int
            } else {
                n
            }) implies (#[trigger] rest[i]).0 != name by {
            assert(rest[i] == members[i + 1]);
        }
        if k > 0 {
            assert(rest[k - 1] == members[k]);
        }
        law_members_are_fields(rest, name, n);
    }
}

} // verus!
