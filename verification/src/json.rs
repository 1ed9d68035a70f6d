//! JSON values: what API replies are read from and responses are built of.
use crate::text::same_text;
use vstd::prelude::*;

verus! {

/// A JSON value. An object keeps its fields in order.
#[derive(Debug)]
pub enum JsonValue {
    Null,
    Bool(bool),
    /// A whole number from 0 up.
    Unsigned(u128),
    /// A whole number below 0.
    Negative(i64),
    /// A number as a fraction, written with a decimal point.
    Fraction(i128, u128),
    /// Any other number, as it is written.
    Real(String),
    Text(String),
    Array(Vec<JsonValue>),
    Object(Vec<JsonField>),
}

/// A field of an object.
#[derive(Debug)]
pub struct JsonField {
    pub name: String,
    pub value: JsonValue,
}

/// The model of a JSON value.
pub enum Json {
    Null,
    Bool(bool),
    Number(int),
    Fraction(int, int),
    Real(Seq<char>),
    Text(Seq<char>),
    List(Seq<Json>),
    Fields(Seq<(Seq<char>, Json)>),
}

/// What a JSON value stands for.
pub open spec fn json(v: JsonValue) -> Json
    decreases v,
{
    match v {
        JsonValue::Null => Json::Null,
        JsonValue::Bool(b) => Json::Bool(b),
        JsonValue::Unsigned(n) => Json::Number(n as int),
        JsonValue::Negative(n) => Json::Number(n as int),
        JsonValue::Fraction(n, d) => Json::Fraction(n as int, d as int),
        JsonValue::Real(s) => Json::Real(s@),
        JsonValue::Text(s) => Json::Text(s@),
        JsonValue::Array(items) => Json::List(
            Seq::new(
                items@.len(),
                |i: int|
                    if 0 <= i < items@.len() {
                        json(items@[i])
                    } else {
                        Json::Null
                    },
            ),
        ),
        JsonValue::Object(fields) => Json::Fields(
            Seq::new(
                fields@.len(),
                |i: int|
                    if 0 <= i < fields@.len() {
                        (fields@[i].name@, json(fields@[i].value))
                    } else {
                        (Seq::empty(), Json::Null)
                    },
            ),
        ),
    }
}

impl View for JsonValue {
    type V = Json;

    open spec fn view(&self) -> Json {
        json(*self)
    }
}

/// What a list of JSON values stands for.
pub open spec fn jsons(v: Seq<JsonValue>) -> Seq<Json> {
    v.map_values(|x: JsonValue| x@)
}

/// What the fields of an object stand for.
pub open spec fn json_fields(v: Seq<JsonField>) -> Seq<(Seq<char>, Json)> {
    v.map_values(|x: JsonField| (x.name@, x.value@))
}

/// The place of the first field of that name from `k` on; the number of fields
/// where there is none.
pub open spec fn field_at(fields: Seq<(Seq<char>, Json)>, name: Seq<char>, k: int) -> int
    decreases fields.len() - k,
{
    if k < 0 || k >= fields.len() {
        fields.len() as int
    } else if fields[k].0 == name {
        k
    } else {
        field_at(fields, name, k + 1)
    }
}

impl Json {
    /// The value of a field; nothing where this is no object or has no such field.
    pub open spec fn field(self, name: Seq<char>) -> Option<Json> {
        match self {
            Json::Fields(fields) => {
                let k = field_at(fields, name, 0);
                if k < fields.len() {
                    Some(fields[k].1)
                } else {
                    None
                }
            },
            _ => None,
        }
    }

    /// The text of a string.
    pub open spec fn text(self) -> Option<Seq<char>> {
        match self {
            Json::Text(s) => Some(s),
            _ => None,
        }
    }

    /// The value of a whole number that fits in 64 bits without a sign.
    pub open spec fn unsigned(self) -> Option<u64> {
        match self {
            Json::Number(n) => if 0 <= n <= u64::MAX {
                Some(n as u64)
            } else {
                None
            },
            _ => None,
        }
    }

    /// The value of a whole number that fits in 64 bits with a sign.
    pub open spec fn signed(self) -> Option<i64> {
        match self {
            Json::Number(n) => if i64::MIN <= n <= i64::MAX {
                Some(n as i64)
            } else {
                None
            },
            _ => None,
        }
    }

    /// The value of a truth value.
    pub open spec fn truth(self) -> Option<bool> {
        match self {
            Json::Bool(b) => Some(b),
            _ => None,
        }
    }

    /// The items of a list.
    pub open spec fn list(self) -> Option<Seq<Json>> {
        match self {
            Json::List(items) => Some(items),
            _ => None,
        }
    }
}

/// What a field that may be missing stands for.
pub open spec fn opt_json(v: Option<&JsonValue>) -> Option<Json> {
    match v {
        Some(x) => Some(x@),
        None => None,
    }
}

/// The value of a field of a value that may be missing.
pub open spec fn field_in(v: Option<Json>, name: Seq<char>) -> Option<Json> {
    match v {
        Some(x) => x.field(name),
        None => None,
    }
}

/// The text of a value that may be missing.
pub open spec fn text_in(v: Option<Json>) -> Option<Seq<char>> {
    match v {
        Some(x) => x.text(),
        None => None,
    }
}

/// The number of a value that may be missing.
pub open spec fn unsigned_in(v: Option<Json>) -> Option<u64> {
    match v {
        Some(x) => x.unsigned(),
        None => None,
    }
}

/// The items of a value that may be missing.
pub open spec fn list_in(v: Option<Json>) -> Option<Seq<Json>> {
    match v {
        Some(x) => x.list(),
        None => None,
    }
}

/// Whether a value is there and true.
pub open spec fn is_true(v: Option<Json>) -> bool {
    v is Some && v->0.truth() == Some(true)
}

/// The value of a field of a value that may be missing.
pub fn get_in<'a>(v: Option<&'a JsonValue>, name: &str) -> (r: Option<&'a JsonValue>)
    ensures
        opt_json(r) == field_in(opt_json(v), name@),
{
    match v {
        Some(x) => x.get(name),
        None => None,
    }
}

/// The text of a value that may be missing.
pub fn str_in<'a>(v: Option<&'a JsonValue>) -> (r: Option<&'a str>)
    ensures
        match r {
            Some(s) => text_in(opt_json(v)) == Some(s@),
            None => text_in(opt_json(v)) is None,
        },
{
    match v {
        Some(x) => x.as_str(),
        None => None,
    }
}

/// The number of a value that may be missing.
pub fn u64_in(v: Option<&JsonValue>) -> (r: Option<u64>)
    ensures
        r == unsigned_in(opt_json(v)),
{
    match v {
        Some(x) => x.as_u64(),
        None => None,
    }
}

/// The items of a value that may be missing.
pub fn array_in<'a>(v: Option<&'a JsonValue>) -> (r: Option<&'a Vec<JsonValue>>)
    ensures
        match r {
            Some(a) => list_in(opt_json(v)) == Some(jsons(a@)),
            None => list_in(opt_json(v)) is None,
        },
{
    match v {
        Some(x) => x.as_array(),
        None => None,
    }
}

/// Whether a value is there and true.
pub fn true_in(v: Option<&JsonValue>) -> (r: bool)
    ensures
        r == is_true(opt_json(v)),
{
    match v {
        Some(x) => match x.as_bool() {
            Some(b) => b,
            None => false,
        },
        None => false,
    }
}

/// Writing an array as a value keeps its items.
pub proof fn lemma_array(items: Vec<JsonValue>)
    ensures
        JsonValue::Array(items)@ == Json::List(jsons(items@)),
{
    let l = match JsonValue::Array(items)@ {
        Json::List(l) => l,
        _ => Seq::empty(),
    };
    assert(l =~= jsons(items@));
}

/// Writing an object as a value keeps its fields.
pub proof fn lemma_object(fields: Vec<JsonField>)
    ensures
        JsonValue::Object(fields)@ == Json::Fields(json_fields(fields@)),
{
    let l = match JsonValue::Object(fields)@ {
        Json::Fields(l) => l,
        _ => Seq::empty(),
    };
    assert(l =~= json_fields(fields@));
}

/// Adds a field at the end.
pub fn push_field(fields: &mut Vec<JsonField>, name: &str, value: JsonValue)
    ensures
        json_fields(final(fields)@) == json_fields(old(fields)@).push((name@, value@)),
{
    let ghost before = fields@;
    fields.push(JsonField { name: name.to_owned(), value });
    proof {
        assert(json_fields(fields@) =~= json_fields(before).push((name@, value@)));
    }
}

/// The fields with one of them set: in its place where there is one of that name, at
/// the end where there is none.
pub open spec fn with_field(
    fields: Seq<(Seq<char>, Json)>,
    name: Seq<char>,
    value: Json,
) -> Seq<(Seq<char>, Json)> {
    let k = field_at(fields, name, 0);
    if k < fields.len() {
        fields.update(k, (name, value))
    } else {
        fields.push((name, value))
    }
}

/// Sets a field.
pub fn set_field(fields: &mut Vec<JsonField>, name: &str, value: JsonValue)
    ensures
        json_fields(final(fields)@) == with_field(json_fields(old(fields)@), name@, value@),
{
    let ghost all = json_fields(fields@);
    let mut k: usize = 0;
    while k < fields.len() && !same_text(fields[k].name.as_str(), name)
        invariant
            k <= fields@.len(),
            all == json_fields(fields@),
            field_at(all, name@, k as int) == field_at(all, name@, 0),
        decreases fields@.len() - k,
    {
        proof {
            assert(all[k as int].0 == fields@[k as int].name@);
        }
        k = k + 1;
    }
    if k < fields.len() {
        proof {
            assert(all[k as int].0 == fields@[k as int].name@);
        }
        let f = &mut fields[k];
        f.value = value;
    } else {
        fields.push(JsonField { name: name.to_owned(), value });
    }
    proof {
        assert(json_fields(fields@) =~= with_field(all, name@, value@));
    }
}

impl JsonValue {
    /// A string.
    pub fn text(s: &str) -> (r: Self)
        ensures
            r@ == Json::Text(s@),
    {
        JsonValue::Text(s.to_owned())
    }

    /// A list.
    pub fn array(items: Vec<JsonValue>) -> (r: Self)
        ensures
            r@ == Json::List(jsons(items@)),
    {
        proof {
            lemma_array(items);
        }
        JsonValue::Array(items)
    }

    /// An object.
    pub fn object(fields: Vec<JsonField>) -> (r: Self)
        ensures
            r@ == Json::Fields(json_fields(fields@)),
    {
        proof {
            lemma_object(fields);
        }
        JsonValue::Object(fields)
    }

    /// The value of the field `name`.
    pub fn get(&self, name: &str) -> (r: Option<&JsonValue>)
        ensures
            opt_json(r) == self@.field(name@),
    {
        match self {
            JsonValue::Object(fields) => {
                proof {
                    lemma_object(*fields);
                }
                let ghost all = json_fields(fields@);
                let mut k: usize = 0;
                while k < fields.len()
                    invariant
                        k <= fields@.len(),
                        all == json_fields(fields@),
                        self@ == Json::Fields(all),
                        field_at(all, name@, k as int) == field_at(all, name@, 0),
                    decreases fields@.len() - k,
                {
                    if same_text(fields[k].name.as_str(), name) {
                        return Some(&fields[k].value);
                    }
                    k = k + 1;
                }
                None
            },
            _ => None,
        }
    }

    /// The text of a string.
    pub fn as_str(&self) -> (r: Option<&str>)
        ensures
            match r {
                Some(s) => self@.text() == Some(s@),
                None => self@.text() is None,
            },
    {
        match self {
            JsonValue::Text(s) => Some(s.as_str()),
            _ => None,
        }
    }

    /// The value of a whole number from 0 up.
    pub fn as_u64(&self) -> (r: Option<u64>)
        ensures
            r == self@.unsigned(),
    {
        match self {
            JsonValue::Unsigned(n) => if *n <= u64::MAX as u128 {
                Some(*n as u64)
            } else {
                None
            },
            JsonValue::Negative(n) => if *n >= 0 {
                Some(*n as u64)
            } else {
                None
            },
            _ => None,
        }
    }

    /// The value of a whole number.
    pub fn as_i64(&self) -> (r: Option<i64>)
        ensures
            r == self@.signed(),
    {
        match self {
            JsonValue::Unsigned(n) => if *n <= i64::MAX as u128 {
                Some(*n as i64)
            } else {
                None
            },
            JsonValue::Negative(n) => Some(*n),
            _ => None,
        }
    }

    /// The items of a list.
    pub fn as_array(&self) -> (r: Option<&Vec<JsonValue>>)
        ensures
            match r {
                Some(v) => self@.list() == Some(jsons(v@)),
                None => self@.list() is None,
            },
    {
        match self {
            JsonValue::Array(items) => {
                proof {
                    lemma_array(*items);
                }
                Some(items)
            },
            _ => None,
        }
    }

    /// The value of a truth value.
    pub fn as_bool(&self) -> (r: Option<bool>)
        ensures
            r == self@.truth(),
    {
        match self {
            JsonValue::Bool(b) => Some(*b),
            _ => None,
        }
    }
}

} // verus!
