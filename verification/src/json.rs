//! JSON documents: the type that the library reads and writes, and its mathematical model.
use crate::text::{str_eq, text_before};
use vstd::prelude::*;

verus! {

/// The number type of `serde_json`, opaque here; it carries a number that is no whole number.
#[verifier::external_type_specification]
#[verifier::external_body]
pub struct ExNumber(serde_json::Number);

/// The document type of `serde_json`, opaque here.
#[verifier::external_type_specification]
#[verifier::external_body]
pub struct ExValue(serde_json::Value);

/// The text that stands for a number of `serde_json`.
pub uninterp spec fn number_text(number: serde_json::Number) -> Seq<char>;

/// What a document of `serde_json` holds.
pub uninterp spec fn value_content(value: serde_json::Value) -> JsonV;

/// What `serde_json` reads from the bytes of a text: the document, or the words of its error.
pub uninterp spec fn json_parsed(bytes: Seq<u8>) -> Result<JsonV, Seq<char>>;

/// The compact text that `serde_json` writes for a document.
pub uninterp spec fn json_text(value: JsonV) -> Seq<char>;

/// The bytes that `serde_json` writes for a document in its indented form, where it writes any.
pub uninterp spec fn json_pretty(value: JsonV) -> Option<Seq<u8>>;

/// `<serde_json::Number as Display>`: the shortest decimal text of the number.
#[verifier::external_body]
fn number_to_text(number: &serde_json::Number) -> (text: String)
    ensures
        text@ == number_text(*number),
{
    number.to_string()
}

/// `<serde_json::Number as Clone>`: the copy is the same number.
#[verifier::external_body]
fn number_clone(number: &serde_json::Number) -> (copy: serde_json::Number)
    ensures
        number_text(copy) == number_text(*number),
{
    number.clone()
}

/// `serde_json::from_slice`, into the crate's own document type. Its result depends on the bytes
/// alone. An object that starts with the key for raw values is read as the document in its text, so
/// none that is read has that key alone.
#[verifier::external_body]
fn value_from_slice(bytes: &[u8]) -> (r: Result<serde_json::Value, String>)
    ensures
        match r {
            Ok(value) => json_parsed(bytes@) == Ok::<JsonV, Seq<char>>(value_content(value))
                && unreserved(value_content(value)),
            Err(words) => json_parsed(bytes@) == Err::<JsonV, Seq<char>>(words@),
        },
{
    serde_json::from_slice::<serde_json::Value>(bytes).map_err(|error| error.to_string())
}

/// The one key that `serde_json` keeps for raw values. An object whose first key it is, in the order
/// of the text, is read as the document in the text under it.
pub open spec fn reserved_key() -> Seq<char> {
    "$serde_json::private::RawValue"@
}

/// The only key of an object is the reserved one.
pub open spec fn only_reserved(members: Map<Seq<char>, JsonV>) -> bool {
    members.dom().contains(reserved_key()) && forall|key: Seq<char>|
        members.dom().contains(key) ==> key == reserved_key()
}

/// The reserved key is not the least key of an object.
pub open spec fn reserved_is_not_first(members: Map<Seq<char>, JsonV>) -> bool {
    members.dom().contains(reserved_key()) ==> exists|key: Seq<char>| #[trigger]
        members.dom().contains(key) && text_before(key, reserved_key())
}

/// A document that `serde_json` reads back from its own text: it is nested at most so deep, all its
/// numbers are whole, and no object has the reserved key for its least. Other numbers may come back
/// with another last digit, and a deeper document is refused.
pub open spec fn plain_within(value: JsonV, depth: nat) -> bool
    decreases depth,
{
    match value {
        JsonV::Float(_) => false,
        JsonV::Array(items) => depth > 0 && forall|i: int|
            0 <= i < items.len() ==> plain_within(#[trigger] items[i], (depth - 1) as nat),
        JsonV::Object(members) => depth > 0 && reserved_is_not_first(members) && forall|
            key: Seq<char>,
        |
            members.dom().contains(key) ==> plain_within(
                #[trigger] members[key],
                (depth - 1) as nat,
            ),
        _ => true,
    }
}

/// No object in the document has the reserved key alone.
pub open spec fn unreserved(value: JsonV) -> bool
    decreases value,
{
    match value {
        JsonV::Array(items) => forall|i: int|
            0 <= i < items.len() ==> unreserved(#[trigger] items[i]),
        JsonV::Object(members) => !only_reserved(members) && forall|key: Seq<char>|
            members.dom().contains(key) ==> unreserved(#[trigger] members[key]),
        _ => true,
    }
}

/// A member under another key leaves no object with the reserved key alone.
pub proof fn with_stays_unreserved(value: JsonV, key: Seq<char>, member: JsonV)
    requires
        unreserved(value),
        unreserved(member),
        key != reserved_key(),
    ensures
        unreserved(value.with(key, member)),
{
    let members = value.with(key, member)->Object_0;
    assert(members.dom().contains(key));
    assert forall|k: Seq<char>| members.dom().contains(k) implies unreserved(
        #[trigger] members[k],
    ) by {
        if k != key {
            assert(value->Object_0.dom().contains(k) && value->Object_0[k] == members[k]);
        }
    }
}

/// Nor does taking a member out where another one stays.
pub proof fn without_stays_unreserved(value: JsonV, key: Seq<char>, other: Seq<char>)
    requires
        unreserved(value),
        value.get(other) is Some,
        other != key,
        other != reserved_key(),
    ensures
        unreserved(value.without(key)),
{
    let members = value.without(key)->Object_0;
    assert(members.dom().contains(other));
    assert forall|k: Seq<char>| members.dom().contains(k) implies unreserved(
        #[trigger] members[k],
    ) by {
        assert(value->Object_0.dom().contains(k) && value->Object_0[k] == members[k]);
    }
}

/// Two documents have the same members, texts and whole numbers; other numbers may differ.
pub open spec fn same_but_floats(a: JsonV, b: JsonV) -> bool
    decreases a,
{
    match (a, b) {
        (JsonV::Float(_), JsonV::Float(_)) => true,
        (JsonV::Array(x), JsonV::Array(y)) => x.len() == y.len() && forall|i: int|
            0 <= i < x.len() ==> same_but_floats(#[trigger] x[i], y[i]),
        (JsonV::Object(x), JsonV::Object(y)) => x.dom() == y.dom() && forall|key: Seq<char>|
            x.dom().contains(key) ==> same_but_floats(#[trigger] x[key], y[key]),
        _ => a == b,
    }
}

/// What was read from the text of a document: where it was read, the document but for the last
/// digits of numbers that are not whole; a plain document as it was; and an object with the reserved
/// key alone as the document in the text under it.
pub open spec fn read_again(read: Result<JsonV, Seq<char>>, value: JsonV) -> bool {
    &&& unreserved(value) && read is Ok ==> same_but_floats(read->Ok_0, value)
    &&& plain_within(value, 127) ==> read == Ok::<JsonV, Seq<char>>(value)
    &&& value is Object && only_reserved(value->Object_0) ==> read_under(
        read,
        value->Object_0[reserved_key()],
    )
}

/// What was read is the document in a text; without one, nothing was.
pub open spec fn read_under(read: Result<JsonV, Seq<char>>, member: JsonV) -> bool {
    match member {
        JsonV::Str(text) => match text_parsed(text) {
            Ok(inner) => read == Ok::<JsonV, Seq<char>>(inner),
            Err(_) => read is Err,
        },
        _ => read is Err,
    }
}

/// `<serde_json::Value as Display>`: the compact text, with the members of each object in the
/// order of their keys. It depends on what the document holds alone. Read again, it is the same
/// document but for numbers that are not whole; `serde_json` reads no more than 127 levels, and an
/// object with the reserved key alone as the document in the text under it.
#[verifier::external_body]
fn value_to_text(value: &serde_json::Value) -> (text: String)
    ensures
        text@ == json_text(value_content(*value)) && read_again(
            text_parsed(text@),
            value_content(*value),
        ),
{
    value.to_string()
}

/// The bytes are read as a document, and so are the bytes with a line feed at their end.
pub open spec fn reads_back(bytes: Seq<u8>, value: JsonV) -> bool {
    read_again(json_parsed(bytes), value) && read_again(json_parsed(bytes.push(10)), value)
}

/// `serde_json::to_vec_pretty`: the indented text, with the members of each object in the order of
/// their keys. It depends on what the document holds alone. Read again, it is the same document but
/// for numbers that are not whole and for the reserved key, as with the compact text; a line feed at
/// its end does no harm.
#[verifier::external_body]
fn value_to_pretty(value: &serde_json::Value) -> (r: Option<Vec<u8>>)
    ensures
        match r {
            Some(bytes) => json_pretty(value_content(*value)) == Some(bytes@) && reads_back(
                bytes@,
                value_content(*value),
            ),
            None => json_pretty(value_content(*value)) is None,
        },
{
    serde_json::to_vec_pretty(value).ok()
}

/// Moves a document of `serde_json::Value` over, variant by variant.
#[verifier::external_body]
fn json_from_value(value: serde_json::Value) -> (json: Json)
    ensures
        json@ == value_content(value),
{
    match value {
        serde_json::Value::Null => Json::Null,
        serde_json::Value::Bool(b) => Json::Bool(b),
        serde_json::Value::Number(n) => match (n.as_u64(), n.as_i64()) {
            (Some(u), _) => Json::Unsigned(u),
            (None, Some(i)) => Json::Negative(i),
            (None, None) => Json::Float(OtherNumber { number: n }),
        },
        serde_json::Value::String(s) => Json::Str(s),
        serde_json::Value::Array(a) => Json::Array(a.into_iter().map(json_from_value).collect()),
        serde_json::Value::Object(o) => Json::Object(
            o.into_iter().map(|(k, v)| (k, json_from_value(v))).collect(),
        ),
    }
}

/// Builds the `serde_json::Value` of a document, variant by variant. Members are put in from the
/// last to the first, so that the first member with a key stays.
#[verifier::external_body]
fn json_to_value(json: &Json) -> (value: serde_json::Value)
    ensures
        value_content(value) == json@,
{
    match json {
        Json::Null => serde_json::Value::Null,
        Json::Bool(b) => serde_json::Value::Bool(*b),
        Json::Unsigned(n) => serde_json::Value::from(*n),
        Json::Negative(n) => serde_json::Value::from(*n),
        Json::Float(n) => serde_json::Value::Number(n.number.clone()),
        Json::Str(s) => serde_json::Value::String(s.clone()),
        Json::Array(a) => serde_json::Value::Array(a.iter().map(json_to_value).collect()),
        Json::Object(o) => serde_json::Value::Object(
            o.iter().rev().map(|(k, v)| (k.clone(), json_to_value(v))).collect(),
        ),
    }
}

/// Reads a document from bytes.
pub fn parse_bytes(bytes: &[u8]) -> (r: Result<Json, String>)
    ensures
        match r {
            Ok(json) => json_parsed(bytes@) == Ok::<JsonV, Seq<char>>(json@) && unreserved(json@),
            Err(words) => json_parsed(bytes@) == Err::<JsonV, Seq<char>>(words@),
        },
{
    match value_from_slice(bytes) {
        Ok(value) => Ok(json_from_value(value)),
        Err(words) => Err(words),
    }
}

/// What a text holds as a document.
pub open spec fn text_parsed(text: Seq<char>) -> Result<JsonV, Seq<char>> {
    json_parsed(vstd::utf8::encode_utf8(text))
}

/// Reads a document from text.
pub fn parse_text(text: &str) -> (r: Result<Json, String>)
    ensures
        match r {
            Ok(json) => text_parsed(text@) == Ok::<JsonV, Seq<char>>(json@) && unreserved(json@),
            Err(words) => text_parsed(text@) == Err::<JsonV, Seq<char>>(words@),
        },
{
    parse_bytes(text.as_bytes())
}

/// A number that is no whole number of 64 bits. Only parsing makes one.
#[derive(Debug)]
pub struct OtherNumber {
    number: serde_json::Number,
}

impl View for OtherNumber {
    type V = Seq<char>;

    closed spec fn view(&self) -> Seq<char> {
        number_text(self.number)
    }
}

/// A JSON value. An object keeps its members in a vector; the first member with a key counts.
#[derive(Debug)]
pub enum Json {
    Null,
    Bool(bool),
    /// A whole number that is not negative.
    Unsigned(u64),
    /// A whole number that is signed; below zero where it was parsed.
    Negative(i64),
    /// Any other number.
    Float(OtherNumber),
    Str(String),
    Array(Vec<Json>),
    Object(Vec<(String, Json)>),
}

/// What a JSON value is.
#[verifier::ext_equal]
pub enum JsonV {
    Null,
    Bool(bool),
    Unsigned(u64),
    Negative(i64),
    Float(Seq<char>),
    Str(Seq<char>),
    Array(Seq<JsonV>),
    Object(Map<Seq<char>, JsonV>),
}

/// Position `i` holds the first member with this key.
pub open spec fn is_first(fields: Seq<(String, Json)>, key: Seq<char>, i: int) -> bool {
    &&& 0 <= i < fields.len()
    &&& fields[i].0@ == key
    &&& forall|j: int| 0 <= j < i ==> (#[trigger] fields[j]).0@ != key
}

/// Some member has this key.
pub open spec fn has_key(fields: Seq<(String, Json)>, key: Seq<char>) -> bool {
    exists|i: int| is_first(fields, key, i)
}

/// The position of the first member with this key.
pub open spec fn first_index(fields: Seq<(String, Json)>, key: Seq<char>) -> int {
    choose|i: int| is_first(fields, key, i)
}

/// What a value of the executable type stands for.
pub open spec fn json_view(json: Json) -> JsonV
    decreases json,
{
    match json {
        Json::Null => JsonV::Null,
        Json::Bool(b) => JsonV::Bool(b),
        Json::Unsigned(n) => JsonV::Unsigned(n),
        Json::Negative(n) => JsonV::signed(n),
        Json::Float(n) => JsonV::Float(n@),
        Json::Str(s) => JsonV::Str(s@),
        Json::Array(v) => JsonV::Array(
            Seq::new(
                v@.len(),
                |i: int|
                    if 0 <= i < v@.len() {
                        json_view(v@[i])
                    } else {
                        JsonV::Null
                    },
            ),
        ),
        Json::Object(v) => JsonV::Object(
            Map::new(
                |k: Seq<char>| has_key(v@, k),
                |k: Seq<char>|
                    {
                        let i = first_index(v@, k);
                        if 0 <= i < v@.len() {
                            json_view(v@[i].1)
                        } else {
                            JsonV::Null
                        }
                    },
            ),
        ),
    }
}

impl View for Json {
    type V = JsonV;

    open spec fn view(&self) -> JsonV {
        json_view(*self)
    }
}

/// The views of a sequence of values.
pub open spec fn views(items: Seq<Json>) -> Seq<JsonV> {
    Seq::new(items.len(), |i: int| items[i]@)
}

/// The view of an optional borrowed value.
pub open spec fn opt_view(value: Option<&Json>) -> Option<JsonV> {
    match value {
        Some(v) => Some(v@),
        None => None,
    }
}

/// The view of an optional value.
pub open spec fn own_view(value: Option<Json>) -> Option<JsonV> {
    match value {
        Some(v) => Some(v@),
        None => None,
    }
}

/// The view of an optional text.
pub open spec fn text_view(value: Option<&str>) -> Option<Seq<char>> {
    match value {
        Some(v) => Some(v@),
        None => None,
    }
}

/// The view of an optional owned text.
pub open spec fn string_view(value: Option<String>) -> Option<Seq<char>> {
    match value {
        Some(v) => Some(v@),
        None => None,
    }
}

/// An optional text of its own.
pub fn owned(value: Option<&str>) -> (r: Option<String>)
    ensures
        string_view(r) == text_view(value),
{
    match value {
        Some(s) => Some(s.to_owned()),
        None => None,
    }
}

/// The view of the members of an object.
pub open spec fn object_view(fields: Seq<(String, Json)>) -> Map<Seq<char>, JsonV> {
    Map::new(|k: Seq<char>| has_key(fields, k), |k: Seq<char>| fields[first_index(fields, k)].1@)
}

impl JsonV {
    /// The empty object.
    pub open spec fn obj() -> JsonV {
        JsonV::Object(Map::empty())
    }

    /// The object with one member set; any other value becomes an object of that one member.
    pub open spec fn with(self, key: Seq<char>, value: JsonV) -> JsonV {
        match self {
            JsonV::Object(m) => JsonV::Object(m.insert(key, value)),
            _ => JsonV::Object(Map::empty().insert(key, value)),
        }
    }

    /// The object without one member; any other value as it is.
    pub open spec fn without(self, key: Seq<char>) -> JsonV {
        match self {
            JsonV::Object(m) => JsonV::Object(m.remove(key)),
            _ => self,
        }
    }

    /// The member with this key, where the value is an object that has one.
    pub open spec fn get(self, key: Seq<char>) -> Option<JsonV> {
        match self {
            JsonV::Object(m) => if m.dom().contains(key) {
                Some(m[key])
            } else {
                None
            },
            _ => None,
        }
    }

    /// The member with this key, or null.
    pub open spec fn at(self, key: Seq<char>) -> JsonV {
        match self.get(key) {
            Some(v) => v,
            None => JsonV::Null,
        }
    }

    /// The number of a signed integer.
    pub open spec fn signed(value: i64) -> JsonV {
        if value < 0 {
            JsonV::Negative(value)
        } else {
            JsonV::Unsigned(value as u64)
        }
    }

    /// An object with the members of another put in; any other value as it is.
    pub open spec fn merged(self, other: JsonV) -> JsonV {
        match (self, other) {
            (JsonV::Object(a), JsonV::Object(b)) => JsonV::Object(a.union_prefer_right(b)),
            _ => self,
        }
    }

    pub open spec fn has(self, key: Seq<char>) -> bool {
        self.get(key) is Some
    }

    pub open spec fn as_str(self) -> Option<Seq<char>> {
        match self {
            JsonV::Str(s) => Some(s),
            _ => None,
        }
    }

    pub open spec fn as_u64(self) -> Option<u64> {
        match self {
            JsonV::Unsigned(n) => Some(n),
            _ => None,
        }
    }

    /// The number as a signed integer, where it is a whole number that fits.
    pub open spec fn as_i64(self) -> Option<i64> {
        match self {
            JsonV::Unsigned(n) => if n <= i64::MAX {
                Some(n as i64)
            } else {
                None
            },
            JsonV::Negative(n) => Some(n),
            _ => None,
        }
    }

    pub open spec fn as_bool(self) -> Option<bool> {
        match self {
            JsonV::Bool(b) => Some(b),
            _ => None,
        }
    }

    pub open spec fn as_array(self) -> Option<Seq<JsonV>> {
        match self {
            JsonV::Array(s) => Some(s),
            _ => None,
        }
    }

    pub open spec fn is_object(self) -> bool {
        self is Object
    }

    /// The text of a member, where there is such a member and it is a string.
    pub open spec fn get_str(self, key: Seq<char>) -> Option<Seq<char>> {
        match self.get(key) {
            Some(v) => v.as_str(),
            None => None,
        }
    }

    /// The text of a member, where it is a string that is not empty.
    pub open spec fn get_text(self, key: Seq<char>) -> Option<Seq<char>> {
        match self.get_str(key) {
            Some(s) => if s.len() > 0 {
                Some(s)
            } else {
                None
            },
            None => None,
        }
    }

    /// The text of a member, or the empty text.
    pub open spec fn str_or_empty(self, key: Seq<char>) -> Seq<char> {
        match self.get_str(key) {
            Some(s) => s,
            None => Seq::empty(),
        }
    }

    /// The whole number in a member, where there is one.
    pub open spec fn get_u64(self, key: Seq<char>) -> Option<u64> {
        match self.get(key) {
            Some(v) => v.as_u64(),
            None => None,
        }
    }

    /// The whole number in a member, or zero.
    pub open spec fn u64_or_zero(self, key: Seq<char>) -> u64 {
        match self.get_u64(key) {
            Some(n) => n,
            None => 0,
        }
    }

    pub open spec fn get_bool(self, key: Seq<char>) -> Option<bool> {
        match self.get(key) {
            Some(v) => v.as_bool(),
            None => None,
        }
    }

    pub open spec fn get_array(self, key: Seq<char>) -> Option<Seq<JsonV>> {
        match self.get(key) {
            Some(v) => v.as_array(),
            None => None,
        }
    }

    /// The member, where it is an object.
    pub open spec fn get_object(self, key: Seq<char>) -> Option<JsonV> {
        match self.get(key) {
            Some(v) => if v.is_object() {
                Some(v)
            } else {
                None
            },
            None => None,
        }
    }

    /// A member of a member.
    pub open spec fn get2(self, a: Seq<char>, b: Seq<char>) -> Option<JsonV> {
        match self.get(a) {
            Some(v) => v.get(b),
            None => None,
        }
    }

    /// A member of a member of a member.
    pub open spec fn get3(self, a: Seq<char>, b: Seq<char>, c: Seq<char>) -> Option<JsonV> {
        match self.get2(a, b) {
            Some(v) => v.get(c),
            None => None,
        }
    }

    /// The first of two members that is there.
    pub open spec fn get_either(self, first: Seq<char>, second: Seq<char>) -> Option<JsonV> {
        match self.get(first) {
            Some(v) => Some(v),
            None => self.get(second),
        }
    }
}

proof fn lemma_first_unique(fields: Seq<(String, Json)>, key: Seq<char>, i: int)
    requires
        is_first(fields, key, i),
    ensures
        has_key(fields, key),
        first_index(fields, key) == i,
{
    let k = first_index(fields, key);
    assert(is_first(fields, key, k));
    if k < i {
        assert(fields[k].0@ != key);
    } else if i < k {
        assert(fields[i].0@ != key);
    }
}

proof fn lemma_object_view(v: Vec<(String, Json)>)
    ensures
        Json::Object(v)@ == JsonV::Object(object_view(v@)),
{
    let a = Json::Object(v)@->Object_0;
    let b = object_view(v@);
    assert forall|k: Seq<char>| a.dom().contains(k) implies a[k] == b[k] by {
        let i = first_index(v@, k);
        assert(is_first(v@, k, i));
    }
    assert(a =~= b);
}

proof fn lemma_array_view(v: Vec<Json>)
    ensures
        Json::Array(v)@ == JsonV::Array(views(v@)),
{
    assert(Json::Array(v)@->Array_0 =~= views(v@));
}

proof fn lemma_no_key(fields: Seq<(String, Json)>, key: Seq<char>)
    requires
        forall|j: int| 0 <= j < fields.len() ==> (#[trigger] fields[j]).0@ != key,
    ensures
        !has_key(fields, key),
{
}

/// The position of the first member with this key, if there is one.
fn find_key(fields: &Vec<(String, Json)>, key: &str) -> (r: Option<usize>)
    ensures
        match r {
            Some(i) => is_first(fields@, key@, i as int) && has_key(fields@, key@)
                && first_index(fields@, key@) == i,
            None => !has_key(fields@, key@),
        },
{
    let mut i: usize = 0;
    while i < fields.len()
        invariant
            0 <= i <= fields.len(),
            forall|j: int| 0 <= j < i ==> (#[trigger] fields@[j]).0@ != key@,
        decreases fields.len() - i,
    {
        if str_eq(fields[i].0.as_str(), key) {
            proof {
                lemma_first_unique(fields@, key@, i as int);
            }
            return Some(i);
        }
        i = i + 1;
    }
    proof {
        lemma_no_key(fields@, key@);
    }
    None
}

impl Json {
    pub fn null() -> (r: Json)
        ensures
            r@ == JsonV::Null,
    {
        Json::Null
    }

    pub fn str(text: &str) -> (r: Json)
        ensures
            r@ == JsonV::Str(text@),
    {
        Json::Str(text.to_owned())
    }

    pub fn string(text: String) -> (r: Json)
        ensures
            r@ == JsonV::Str(text@),
    {
        Json::Str(text)
    }

    pub fn bool(value: bool) -> (r: Json)
        ensures
            r@ == JsonV::Bool(value),
    {
        Json::Bool(value)
    }

    pub fn unsigned(value: u64) -> (r: Json)
        ensures
            r@ == JsonV::Unsigned(value),
    {
        Json::Unsigned(value)
    }

    /// The number of a signed integer.
    pub fn signed(value: i64) -> (r: Json)
        ensures
            r@ == JsonV::signed(value),
    {
        if value < 0 {
            Json::Negative(value)
        } else {
            Json::Unsigned(value as u64)
        }
    }

    pub fn array(items: Vec<Json>) -> (r: Json)
        ensures
            r@ == JsonV::Array(views(items@)),
    {
        proof {
            lemma_array_view(items);
        }
        Json::Array(items)
    }

    /// The empty object.
    pub fn obj() -> (r: Json)
        ensures
            r@ == JsonV::obj(),
    {
        let fields: Vec<(String, Json)> = Vec::new();
        proof {
            lemma_object_view(fields);
            assert(object_view(fields@) =~= Map::empty()) by {
                assert forall|k: Seq<char>| !has_key(fields@, k) by {
                    lemma_no_key(fields@, k);
                }
            }
        }
        Json::Object(fields)
    }

    /// The member with this key, where the value is an object that has one.
    pub fn get(&self, key: &str) -> (r: Option<&Json>)
        ensures
            opt_view(r) == self@.get(key@),
    {
        match self {
            Json::Object(fields) => {
                proof {
                    lemma_object_view(*fields);
                }
                match find_key(fields, key) {
                    Some(i) => Some(&fields[i].1),
                    None => None,
                }
            },
            _ => None,
        }
    }

    pub fn has(&self, key: &str) -> (r: bool)
        ensures
            r == self@.has(key@),
    {
        self.get(key).is_some()
    }

    pub fn is_null(&self) -> (r: bool)
        ensures
            r == (self@ == JsonV::Null),
    {
        match self {
            Json::Null => true,
            _ => false,
        }
    }

    pub fn is_object(&self) -> (r: bool)
        ensures
            r == self@.is_object(),
    {
        match self {
            Json::Object(_) => true,
            _ => false,
        }
    }

    pub fn as_str(&self) -> (r: Option<&str>)
        ensures
            text_view(r) == self@.as_str(),
    {
        match self {
            Json::Str(s) => Some(s.as_str()),
            _ => None,
        }
    }

    pub fn as_u64(&self) -> (r: Option<u64>)
        ensures
            r == self@.as_u64(),
    {
        match self {
            Json::Unsigned(n) => Some(*n),
            Json::Negative(n) => if *n >= 0 {
                Some(*n as u64)
            } else {
                None
            },
            _ => None,
        }
    }

    pub fn as_i64(&self) -> (r: Option<i64>)
        ensures
            r == self@.as_i64(),
    {
        match self {
            Json::Unsigned(n) => if *n <= 0x7fff_ffff_ffff_ffff {
                Some(*n as i64)
            } else {
                None
            },
            Json::Negative(n) => Some(*n),
            _ => None,
        }
    }

    pub fn as_bool(&self) -> (r: Option<bool>)
        ensures
            r == self@.as_bool(),
    {
        match self {
            Json::Bool(b) => Some(*b),
            _ => None,
        }
    }

    pub fn as_array(&self) -> (r: Option<&Vec<Json>>)
        ensures
            match r {
                Some(v) => self@.as_array() == Some(views(v@)),
                None => self@.as_array() is None,
            },
    {
        match self {
            Json::Array(v) => {
                proof {
                    lemma_array_view(*v);
                }
                Some(v)
            },
            _ => None,
        }
    }

    pub fn get_str(&self, key: &str) -> (r: Option<&str>)
        ensures
            text_view(r) == self@.get_str(key@),
    {
        match self.get(key) {
            Some(v) => v.as_str(),
            None => None,
        }
    }

    pub fn get_text(&self, key: &str) -> (r: Option<&str>)
        ensures
            text_view(r) == self@.get_text(key@),
    {
        match self.get_str(key) {
            Some(s) => if s.is_empty() {
                None
            } else {
                Some(s)
            },
            None => None,
        }
    }

    pub fn str_or_empty(&self, key: &str) -> (r: String)
        ensures
            r@ == self@.str_or_empty(key@),
    {
        match self.get_str(key) {
            Some(s) => s.to_owned(),
            None => String::new(),
        }
    }

    pub fn get_u64(&self, key: &str) -> (r: Option<u64>)
        ensures
            r == self@.get_u64(key@),
    {
        match self.get(key) {
            Some(v) => v.as_u64(),
            None => None,
        }
    }

    pub fn u64_or_zero(&self, key: &str) -> (r: u64)
        ensures
            r == self@.u64_or_zero(key@),
    {
        match self.get_u64(key) {
            Some(n) => n,
            None => 0,
        }
    }

    pub fn get_bool(&self, key: &str) -> (r: Option<bool>)
        ensures
            r == self@.get_bool(key@),
    {
        match self.get(key) {
            Some(v) => v.as_bool(),
            None => None,
        }
    }

    pub fn get_array(&self, key: &str) -> (r: Option<&Vec<Json>>)
        ensures
            match r {
                Some(v) => self@.get_array(key@) == Some(views(v@)),
                None => self@.get_array(key@) is None,
            },
    {
        match self.get(key) {
            Some(v) => v.as_array(),
            None => None,
        }
    }

    pub fn get_object(&self, key: &str) -> (r: Option<&Json>)
        ensures
            opt_view(r) == self@.get_object(key@),
    {
        match self.get(key) {
            Some(v) => if v.is_object() {
                Some(v)
            } else {
                None
            },
            None => None,
        }
    }

    pub fn get2(&self, a: &str, b: &str) -> (r: Option<&Json>)
        ensures
            opt_view(r) == self@.get2(a@, b@),
    {
        match self.get(a) {
            Some(v) => v.get(b),
            None => None,
        }
    }

    pub fn get3(&self, a: &str, b: &str, c: &str) -> (r: Option<&Json>)
        ensures
            opt_view(r) == self@.get3(a@, b@, c@),
    {
        match self.get2(a, b) {
            Some(v) => v.get(c),
            None => None,
        }
    }

    pub fn get_either(&self, first: &str, second: &str) -> (r: Option<&Json>)
        ensures
            opt_view(r) == self@.get_either(first@, second@),
    {
        match self.get(first) {
            Some(v) => Some(v),
            None => self.get(second),
        }
    }

    /// Sets one member. A value that is no object becomes an object of that one member.
    pub fn insert(&mut self, key: &str, value: Json)
        ensures
            final(self)@ == old(self)@.with(key@, value@),
    {
        let mut fields: Vec<(String, Json)> = Vec::new();
        let mut taken = Json::Null;
        std::mem::swap(self, &mut taken);
        match taken {
            Json::Object(inner) => {
                fields = inner;
            },
            _ => {
                proof {
                    assert(object_view(fields@) =~= Map::empty()) by {
                        assert forall|k: Seq<char>| !has_key(fields@, k) by {
                            lemma_no_key(fields@, k);
                        }
                    }
                }
            },
        }
        let ghost before = fields@;
        proof {
            lemma_object_view(fields);
        }
        match find_key(&fields, key) {
            Some(i) => {
                fields.set(i, (key.to_owned(), value));
                proof {
                    lemma_replaced(before, fields@, key@, value@, i as int);
                }
            },
            None => {
                fields.push((key.to_owned(), value));
                proof {
                    lemma_pushed(before, fields@, key@, value@);
                }
            },
        }
        proof {
            lemma_object_view(fields);
        }
        *self = Json::Object(fields);
    }

    /// The object with one member set.
    pub fn with(self, key: &str, value: Json) -> (r: Json)
        ensures
            r@ == self@.with(key@, value@),
    {
        let mut result = self;
        result.insert(key, value);
        result
    }

    /// Removes one member, and returns it if there was one.
    pub fn remove(&mut self, key: &str) -> (r: Option<Json>)
        ensures
            final(self)@ == old(self)@.without(key@),
            own_view(r) == old(self)@.get(key@),
    {
        let mut taken = Json::Null;
        std::mem::swap(self, &mut taken);
        match taken {
            Json::Object(inner) => {
                let mut fields = inner;
                let ghost before = fields@;
                proof {
                    lemma_object_view(fields);
                }
                let mut removed: Option<Json> = None;
                if let Some(i) = find_key(&fields, key) {
                    let (_, value) = fields.remove(i);
                    proof {
                        lemma_removed(before, fields@, key@, i as int);
                    }
                    removed = Some(value);
                }
                proof {
                    assert(object_view(fields@).remove(key@) =~= object_view(before).remove(key@));
                }
                let mut next = find_key(&fields, key);
                while next.is_some()
                    invariant
                        object_view(fields@).remove(key@) == object_view(before).remove(key@),
                        match next {
                            Some(i) => is_first(fields@, key@, i as int),
                            None => !has_key(fields@, key@),
                        },
                    decreases fields.len(),
                {
                    let ghost step = fields@;
                    let i: usize = next.unwrap();
                    let (_, dropped) = fields.remove(i);
                    proof {
                        lemma_removed(step, fields@, key@, i as int);
                    }
                    next = find_key(&fields, key);
                }
                proof {
                    lemma_object_view(fields);
                    assert(object_view(fields@).remove(key@) =~= object_view(fields@));
                }
                *self = Json::Object(fields);
                removed
            },
            other => {
                *self = other;
                None
            },
        }
    }

    /// Puts the members of another object in.
    pub fn merge(&mut self, other: &Json)
        ensures
            final(self)@ == old(self)@.merged(other@),
    {
        if !self.is_object() {
            return ;
        }
        if let Json::Object(fields) = other {
            let ghost start = self@->Object_0;
            let ghost all = fields@;
            let mut i: usize = fields.len();
            proof {
                lemma_object_view(*fields);
                assert(object_view(all.subrange(i as int, all.len() as int)) =~= Map::empty()) by {
                    assert forall|k: Seq<char>|
                        !has_key(all.subrange(i as int, all.len() as int), k) by {
                        lemma_no_key(all.subrange(i as int, all.len() as int), k);
                    }
                }
                assert(start.union_prefer_right(Map::empty()) =~= start);
            }
            while i > 0
                invariant
                    0 <= i <= fields.len(),
                    all == fields@,
                    self@ == JsonV::Object(
                        start.union_prefer_right(
                            object_view(all.subrange(i as int, all.len() as int)),
                        ),
                    ),
                decreases i,
            {
                i = i - 1;
                self.insert(fields[i].0.as_str(), fields[i].1.clone_json());
                proof {
                    let rest = all.subrange(i + 1, all.len() as int);
                    let more = all.subrange(i as int, all.len() as int);
                    let (k, v) = (all[i as int].0@, all[i as int].1@);
                    assert(more =~= seq![all[i as int]] + rest);
                    lemma_prepended(rest, all[i as int]);
                    assert(start.union_prefer_right(object_view(rest)).insert(k, v)
                        =~= start.union_prefer_right(object_view(more)));
                }
            }
            proof {
                assert(all.subrange(0, all.len() as int) =~= all);
            }
        }
    }

    /// The compact text of the document.
    pub fn to_text(&self) -> (r: String)
        ensures
            r@ == json_text(self@),
            read_again(text_parsed(r@), self@),
    {
        value_to_text(&json_to_value(self))
    }

    /// The indented text of the document, as bytes.
    pub fn to_pretty(&self) -> (r: Option<Vec<u8>>)
        ensures
            match r {
                Some(bytes) => json_pretty(self@) == Some(bytes@) && reads_back(bytes@, self@),
                None => json_pretty(self@) is None,
            },
    {
        value_to_pretty(&json_to_value(self))
    }

    /// A value with the same view.
    pub fn clone_json(&self) -> (r: Json)
        ensures
            r@ == self@,
        decreases self,
    {
        match self {
            Json::Null => Json::Null,
            Json::Bool(b) => Json::Bool(*b),
            Json::Unsigned(n) => Json::Unsigned(*n),
            Json::Negative(n) => Json::Negative(*n),
            Json::Float(n) => Json::Float(OtherNumber { number: number_clone(&n.number) }),
            Json::Str(s) => Json::Str(s.clone()),
            Json::Array(items) => {
                let mut copy: Vec<Json> = Vec::new();
                let mut i: usize = 0;
                while i < items.len()
                    invariant
                        i <= items.len(),
                        copy.len() == i,
                        self is Array && self->Array_0 == *items,
                        forall|j: int| 0 <= j < i ==> (#[trigger] copy@[j])@ == items@[j]@,
                    decreases items.len() - i,
                {
                    proof {
                        assert(decreases_to!(*items => items[i as int]));
                    }
                    copy.push(items[i].clone_json());
                    i = i + 1;
                }
                proof {
                    lemma_array_view(copy);
                    lemma_array_view(*items);
                    assert(views(copy@) =~= views(items@));
                }
                Json::Array(copy)
            },
            Json::Object(fields) => {
                let mut copy: Vec<(String, Json)> = Vec::new();
                let mut i: usize = 0;
                while i < fields.len()
                    invariant
                        i <= fields.len(),
                        copy.len() == i,
                        self is Object && self->Object_0 == *fields,
                        forall|j: int| 0 <= j < i ==> (#[trigger] copy@[j]).1@ == fields@[j].1@,
                        forall|j: int| 0 <= j < i ==> (#[trigger] copy@[j]).0@ == fields@[j].0@,
                    decreases fields.len() - i,
                {
                    proof {
                        assert(decreases_to!(*fields => fields[i as int]));
                    }
                    copy.push((fields[i].0.clone(), fields[i].1.clone_json()));
                    i = i + 1;
                }
                proof {
                    lemma_object_view(copy);
                    lemma_object_view(*fields);
                    lemma_same_members(copy@, fields@);
                }
                Json::Object(copy)
            },
        }
    }

    /// Whether two values are the same document. The two zeros are one number.
    pub fn same(&self, other: &Json) -> (r: bool)
        ensures
            r == same_document(self@, other@),
        decreases self,
    {
        match (self, other) {
            (Json::Null, Json::Null) => true,
            (Json::Bool(a), Json::Bool(b)) => *a == *b,
            (Json::Unsigned(a), Json::Unsigned(b)) => *a == *b,
            (Json::Negative(a), Json::Negative(b)) => *a == *b,
            (Json::Unsigned(a), Json::Negative(b)) => *b >= 0 && *a == *b as u64,
            (Json::Negative(a), Json::Unsigned(b)) => *a >= 0 && *b == *a as u64,
            (Json::Float(a), Json::Float(b)) => {
                let first = number_to_text(&a.number);
                let second = number_to_text(&b.number);
                str_eq(first.as_str(), second.as_str()) || (text_is_zero(first.as_str())
                    && text_is_zero(second.as_str()))
            },
            (Json::Str(a), Json::Str(b)) => str_eq(a.as_str(), b.as_str()),
            (Json::Array(a), Json::Array(b)) => {
                proof {
                    lemma_array_view(*a);
                    lemma_array_view(*b);
                }
                if a.len() != b.len() {
                    proof {
                        assert(views(a@).len() != views(b@).len());
                    }
                    return false;
                }
                let mut i: usize = 0;
                while i < a.len()
                    invariant
                        i <= a.len(),
                        a.len() == b.len(),
                        *self == Json::Array(*a),
                        self@ == JsonV::Array(views(a@)),
                        other@ == JsonV::Array(views(b@)),
                        forall|j: int|
                            0 <= j < i ==> same_document(#[trigger] views(a@)[j], views(b@)[j]),
                    decreases a.len() - i,
                {
                    if !a[i].same(&b[i]) {
                        proof {
                            assert(!same_document(views(a@)[i as int], views(b@)[i as int]));
                        }
                        return false;
                    }
                    i = i + 1;
                }
                true
            },
            (Json::Object(a), Json::Object(b)) => {
                proof {
                    lemma_object_view(*a);
                    lemma_object_view(*b);
                }
                let mut i: usize = 0;
                while i < a.len()
                    invariant
                        i <= a.len(),
                        *self == Json::Object(*a),
                        self@ == JsonV::Object(object_view(a@)),
                        other@ == JsonV::Object(object_view(b@)),
                        forall|j: int| 0 <= j < i ==> member_agrees(#[trigger] a@[j].0@, self@, other@),
                    decreases a.len() - i,
                {
                    let name = a[i].0.as_str();
                    if let Some(first) = find_key(a, name) {
                        let equal = match find_key(b, name) {
                            Some(second) => a[first].1.same(&b[second].1),
                            None => false,
                        };
                        if !equal {
                            proof {
                                assert(object_view(a@).dom().contains(name@));
                                assert(object_view(b@).dom().contains(name@) == has_key(b@, name@));
                                assert(!member_agrees(name@, self@, other@));
                                assert(!same_document(self@, other@));
                            }
                            return false;
                        }
                    } else {
                        proof {
                            lemma_member_found(a@, i as int);
                        }
                    }
                    i = i + 1;
                }
                let mut k: usize = 0;
                while k < b.len()
                    invariant
                        k <= b.len(),
                        self@ == JsonV::Object(object_view(a@)),
                        other@ == JsonV::Object(object_view(b@)),
                        forall|j: int| 0 <= j < k ==> has_key(a@, #[trigger] b@[j].0@),
                    decreases b.len() - k,
                {
                    if find_key(a, b[k].0.as_str()).is_none() {
                        proof {
                            lemma_member_found(b@, k as int);
                            assert(object_view(b@).dom().contains(b@[k as int].0@));
                        }
                        return false;
                    }
                    k = k + 1;
                }
                proof {
                    let x = object_view(a@);
                    let y = object_view(b@);
                    assert forall|key: Seq<char>| #[trigger]
                        x.dom().contains(key) implies y.dom().contains(key) && same_document(
                        x[key],
                        y[key],
                    ) by {
                        let j = first_index(a@, key);
                        assert(is_first(a@, key, j));
                        assert(member_agrees(a@[j].0@, self@, other@));
                    }
                    assert forall|key: Seq<char>| #[trigger]
                        y.dom().contains(key) implies x.dom().contains(key) by {
                        let j = first_index(b@, key);
                        assert(is_first(b@, key, j));
                        assert(has_key(a@, b@[j].0@));
                    }
                    assert(x.dom() =~= y.dom());
                }
                true
            },
            _ => false,
        }
    }
}

/// The views of a list that grows.
pub broadcast proof fn views_push(items: Seq<Json>, item: Json)
    ensures
        #[trigger] views(items.push(item)) == views(items).push(item@),
{
    assert(views(items.push(item)) =~= views(items).push(item@));
}

/// Taking a member out and setting it again is setting it.
pub proof fn without_then_with(value: JsonV, key: Seq<char>, member: JsonV)
    ensures
        value.without(key).with(key, member) == value.with(key, member),
{
    if let JsonV::Object(m) = value {
        assert(m.remove(key).insert(key, member) =~= m.insert(key, member));
    }
}

/// What was set is read back, and the other members stay.
pub proof fn with_then_get(value: JsonV, key: Seq<char>, member: JsonV, other: Seq<char>)
    ensures
        value.with(key, member).get(key) == Some(member),
        other != key && value.is_object() ==> value.with(key, member).get(other) == value.get(other),
        value.without(key).get(key) is None,
        other != key ==> value.without(key).get(other) == value.get(other),
{
}

/// Two objects agree on a member: both have it, with one value.
pub open spec fn member_agrees(key: Seq<char>, a: JsonV, b: JsonV) -> bool {
    match (a.get(key), b.get(key)) {
        (Some(x), Some(y)) => same_document(x, y),
        _ => false,
    }
}

/// The texts of the two zeros.
pub open spec fn is_zero(text: Seq<char>) -> bool {
    text == "0.0"@ || text == "-0.0"@
}

fn text_is_zero(text: &str) -> (r: bool)
    ensures
        r == is_zero(text@),
{
    str_eq(text, "0.0") || str_eq(text, "-0.0")
}

/// Two documents are the same: they have the same members, texts and numbers. Numbers that are not
/// whole are compared by their values, of which only the zeros have two texts.
pub open spec fn same_document(a: JsonV, b: JsonV) -> bool
    decreases a,
{
    match (a, b) {
        (JsonV::Float(s), JsonV::Float(t)) => s == t || (is_zero(s) && is_zero(t)),
        (JsonV::Array(x), JsonV::Array(y)) => x.len() == y.len() && forall|i: int|
            0 <= i < x.len() ==> same_document(#[trigger] x[i], y[i]),
        (JsonV::Object(x), JsonV::Object(y)) => x.dom() == y.dom() && forall|key: Seq<char>|
            x.dom().contains(key) ==> same_document(#[trigger] x[key], y[key]),
        _ => a == b,
    }
}

/// A document is the same as itself.
pub proof fn same_as_itself(a: JsonV)
    ensures
        same_document(a, a),
    decreases a,
{
    match a {
        JsonV::Array(x) => {
            assert forall|i: int| 0 <= i < x.len() implies same_document(#[trigger] x[i], x[i]) by {
                same_as_itself(x[i]);
            }
        },
        JsonV::Object(x) => {
            assert forall|key: Seq<char>| x.dom().contains(key) implies same_document(
                #[trigger] x[key],
                x[key],
            ) by {
                same_as_itself(x[key]);
            }
        },
        _ => {},
    }
}

proof fn lemma_member_found(fields: Seq<(String, Json)>, i: int)
    requires
        0 <= i < fields.len(),
    ensures
        has_key(fields, fields[i].0@),
    decreases i,
{
    let key = fields[i].0@;
    if is_first(fields, key, i) {
    } else {
        let j = choose|j: int| 0 <= j < i && (#[trigger] fields[j]).0@ == key;
        lemma_member_found(fields, j);
    }
}

proof fn lemma_prepended(rest: Seq<(String, Json)>, member: (String, Json))
    ensures
        object_view(seq![member] + rest) == object_view(rest).insert(member.0@, member.1@),
{
    let all = seq![member] + rest;
    let key = member.0@;
    assert(is_first(all, key, 0));
    lemma_first_unique(all, key, 0);
    assert forall|k: Seq<char>, j: int| k != key && is_first(rest, k, j) implies is_first(
        all,
        k,
        j + 1,
    ) by {
        assert forall|m: int| 0 <= m < j + 1 implies (#[trigger] all[m]).0@ != k by {
            if m > 0 {
                assert(rest[m - 1].0@ != k);
            }
        }
    }
    assert forall|k: Seq<char>, j: int| k != key && is_first(all, k, j) implies is_first(
        rest,
        k,
        j - 1,
    ) by {
        assert forall|m: int| 0 <= m < j - 1 implies (#[trigger] rest[m]).0@ != k by {
            assert(all[m + 1].0@ != k);
        }
    }
    let x = object_view(all);
    let y = object_view(rest).insert(key, member.1@);
    assert forall|k: Seq<char>| x.dom().contains(k) == y.dom().contains(k) by {
        if k != key && has_key(all, k) {
            assert(is_first(rest, k, first_index(all, k) - 1));
        }
        if k != key && has_key(rest, k) {
            assert(is_first(all, k, first_index(rest, k) + 1));
        }
    }
    assert forall|k: Seq<char>| x.dom().contains(k) implies x[k] == y[k] by {
        if k != key {
            let j = first_index(all, k);
            assert(is_first(all, k, j));
            lemma_first_unique(rest, k, j - 1);
        }
    }
    assert(x =~= y);
}

proof fn lemma_same_members(a: Seq<(String, Json)>, b: Seq<(String, Json)>)
    requires
        a.len() == b.len(),
        forall|j: int| 0 <= j < a.len() ==> (#[trigger] a[j]).1@ == b[j].1@,
        forall|j: int| 0 <= j < a.len() ==> (#[trigger] a[j]).0@ == b[j].0@,
    ensures
        object_view(a) == object_view(b),
{
    assert forall|k: Seq<char>, i: int| is_first(a, k, i) == is_first(b, k, i) by {
        if is_first(a, k, i) {
            assert forall|j: int| 0 <= j < i implies (#[trigger] b[j]).0@ != k by {
                assert(a[j].0@ != k);
            }
        }
        if is_first(b, k, i) {
            assert forall|j: int| 0 <= j < i implies (#[trigger] a[j]).0@ != k by {
                assert(b[j].0@ != k);
            }
        }
    }
    assert forall|k: Seq<char>| has_key(a, k) == has_key(b, k) by {
        if has_key(a, k) {
            let i = first_index(a, k);
            assert(is_first(b, k, i));
        }
        if has_key(b, k) {
            let i = first_index(b, k);
            assert(is_first(a, k, i));
        }
    }
    assert forall|k: Seq<char>| has_key(a, k) implies first_index(a, k) == first_index(b, k) by {
        let i = first_index(a, k);
        assert(is_first(a, k, i));
        assert(is_first(b, k, i));
        lemma_first_unique(b, k, i);
    }
    assert(object_view(a) =~= object_view(b));
}

proof fn lemma_replaced(
    before: Seq<(String, Json)>,
    after: Seq<(String, Json)>,
    key: Seq<char>,
    value: JsonV,
    i: int,
)
    requires
        is_first(before, key, i),
        after.len() == before.len(),
        after[i].0@ == key,
        after[i].1@ == value,
        forall|j: int| 0 <= j < before.len() && j != i ==> #[trigger] after[j] == before[j],
    ensures
        object_view(after) == object_view(before).insert(key, value),
{
    assert forall|k: Seq<char>, j: int| is_first(before, k, j) == is_first(after, k, j) by {
        if is_first(before, k, j) {
            assert forall|m: int| 0 <= m < j implies (#[trigger] after[m]).0@ != k by {
                assert(before[m].0@ != k);
            }
        }
        if is_first(after, k, j) {
            assert forall|m: int| 0 <= m < j implies (#[trigger] before[m]).0@ != k by {
                assert(after[m].0@ != k);
            }
        }
    }
    lemma_first_unique(before, key, i);
    lemma_first_unique(after, key, i);
    let x = object_view(after);
    let y = object_view(before).insert(key, value);
    assert forall|k: Seq<char>| x.dom().contains(k) == y.dom().contains(k) by {
        if has_key(after, k) {
            let j = first_index(after, k);
            assert(is_first(before, k, j));
        }
        if has_key(before, k) {
            let j = first_index(before, k);
            assert(is_first(after, k, j));
        }
    }
    assert forall|k: Seq<char>| x.dom().contains(k) implies x[k] == y[k] by {
        let j = first_index(after, k);
        assert(is_first(after, k, j));
        lemma_first_unique(before, k, j);
    }
    assert(x =~= y);
}

proof fn lemma_pushed(
    before: Seq<(String, Json)>,
    after: Seq<(String, Json)>,
    key: Seq<char>,
    value: JsonV,
)
    requires
        !has_key(before, key),
        after.len() == before.len() + 1,
        after[before.len() as int].0@ == key,
        after[before.len() as int].1@ == value,
        forall|j: int| 0 <= j < before.len() ==> #[trigger] after[j] == before[j],
    ensures
        object_view(after) == object_view(before).insert(key, value),
{
    let last = before.len() as int;
    assert forall|m: int| 0 <= m < last implies (#[trigger] after[m]).0@ != key by {
        if before[m].0@ == key {
            lemma_member_found(before, m);
        }
    }
    assert(is_first(after, key, last));
    lemma_first_unique(after, key, last);
    assert forall|k: Seq<char>, j: int| k != key implies is_first(before, k, j) == is_first(
        after,
        k,
        j,
    ) by {
        if is_first(before, k, j) {
            assert forall|m: int| 0 <= m < j implies (#[trigger] after[m]).0@ != k by {
                assert(before[m].0@ != k);
            }
        }
        if is_first(after, k, j) {
            assert forall|m: int| 0 <= m < j implies (#[trigger] before[m]).0@ != k by {
                assert(after[m].0@ != k);
            }
        }
    }
    let x = object_view(after);
    let y = object_view(before).insert(key, value);
    assert forall|k: Seq<char>| x.dom().contains(k) == y.dom().contains(k) by {
        if k != key && has_key(after, k) {
            let j = first_index(after, k);
            assert(is_first(before, k, j));
        }
        if k != key && has_key(before, k) {
            let j = first_index(before, k);
            assert(is_first(after, k, j));
        }
    }
    assert forall|k: Seq<char>| x.dom().contains(k) implies x[k] == y[k] by {
        if k != key {
            let j = first_index(after, k);
            assert(is_first(after, k, j));
            lemma_first_unique(before, k, j);
        }
    }
    assert(x =~= y);
}

proof fn lemma_removed(
    before: Seq<(String, Json)>,
    after: Seq<(String, Json)>,
    key: Seq<char>,
    i: int,
)
    requires
        0 <= i < before.len(),
        before[i].0@ == key,
        after == before.remove(i),
    ensures
        object_view(after).remove(key) == object_view(before).remove(key),
{
    let up = |j: int| if j < i { j } else { j + 1 };
    assert forall|j: int| 0 <= j < after.len() implies #[trigger] after[j] == before[up(j)] by {
    }
    assert forall|k: Seq<char>, j: int| k != key && is_first(after, k, j) implies is_first(
        before,
        k,
        up(j),
    ) by {
        assert forall|m: int| 0 <= m < up(j) implies (#[trigger] before[m]).0@ != k by {
            if m < i {
                assert(after[m].0@ != k);
            } else if m > i {
                assert(after[m - 1].0@ != k);
            }
        }
    }
    assert forall|k: Seq<char>, j: int| k != key && is_first(before, k, j) implies is_first(
        after,
        k,
        if j < i { j } else { j - 1 },
    ) by {
        let d = if j < i { j } else { j - 1 };
        assert(j != i);
        assert forall|m: int| 0 <= m < d implies (#[trigger] after[m]).0@ != k by {
            assert(before[up(m)].0@ != k);
        }
    }
    let x = object_view(after).remove(key);
    let y = object_view(before).remove(key);
    assert forall|k: Seq<char>| x.dom().contains(k) == y.dom().contains(k) by {
        if k != key && has_key(after, k) {
            let j = first_index(after, k);
            assert(is_first(before, k, up(j)));
        }
        if k != key && has_key(before, k) {
            let j = first_index(before, k);
            assert(is_first(after, k, if j < i { j } else { j - 1 }));
        }
    }
    assert forall|k: Seq<char>| x.dom().contains(k) implies x[k] == y[k] by {
        let j = first_index(after, k);
        assert(is_first(after, k, j));
        lemma_first_unique(before, k, up(j));
    }
    assert(x =~= y);
}

/// A list with the same documents.
pub fn copy_items(items: &Vec<Json>) -> (r: Vec<Json>)
    ensures
        views(r@) == views(items@),
{
    let mut out: Vec<Json> = Vec::new();
    let mut i: usize = 0;
    while i < items.len()
        invariant
            i <= items.len(),
            views(out@) == views(items@).subrange(0, i as int),
        decreases items.len() - i,
    {
        let item = items[i].clone_json();
        proof {
            views_push(out@, item);
        }
        out.push(item);
        i = i + 1;
        proof {
            assert(views(out@) =~= views(items@).subrange(0, i as int));
        }
    }
    proof {
        assert(views(items@).subrange(0, i as int) =~= views(items@));
    }
    out
}

/// A text that is the same, where there is one.
pub fn copy_text(text: &Option<String>) -> (r: Option<String>)
    ensures
        string_view(r) == string_view(*text),
{
    match text {
        Some(t) => Some(t.clone()),
        None => None,
    }
}

} // verus!
