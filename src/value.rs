use vstd::prelude::*;

verus! {

/// Why a text could not be read.
#[derive(Debug, Clone, Copy, PartialEq, Eq, Structural)]
pub enum ParseError {
    /// The text does not fit the grammar where reading stopped.
    ValueError,
    /// A member of an object does not start with `"`.
    LeftQuotationMissing,
    /// The name of an object member could not be read.
    ObjNameError,
    /// The name of an object member is not followed by `:`.
    ColonMissing,
    /// A member of an object is followed by neither `,` nor `}`.
    ObjectContentIncomplete,
}

/// A JSON value.
///
/// A number holds its text exactly as it was read (sign, digits, fraction
/// and exponent); turning that text into a machine number is left to the
/// user. An object holds its members in the order their names first
/// appeared, each name once: a later member with a name already present
/// replaces the earlier member's value.
#[derive(Debug, PartialEq)]
pub enum JsonStruct {
    Null,
    Boolean(bool),
    Str(String),
    Number(String),
    Array(Vec<JsonStruct>),
    Object(Vec<(String, JsonStruct)>),
}

/// The mathematical value of a `JsonStruct`.
pub enum JsonValue {
    Null,
    Boolean(bool),
    Str(Seq<char>),
    Number(Seq<char>),
    Array(Seq<JsonValue>),
    Object(Seq<(Seq<char>, JsonValue)>),
}

/// What a parser hands back: the value read and the text after it, or why
/// reading failed.
pub type Parsed = Result<(JsonValue, Seq<char>), ParseError>;

pub open spec fn json_view(j: JsonStruct) -> JsonValue
    decreases j,
{
    match j {
        JsonStruct::Null => JsonValue::Null,
        JsonStruct::Boolean(b) => JsonValue::Boolean(b),
        JsonStruct::Str(s) => JsonValue::Str(s@),
        JsonStruct::Number(s) => JsonValue::Number(s@),
        JsonStruct::Array(v) => JsonValue::Array(
            Seq::new(
                v.len() as nat,
                |i: int|
                    if 0 <= i < v.len() {
                        json_view(v[i])
                    } else {
                        JsonValue::Null
                    },
            ),
        ),
        JsonStruct::Object(v) => JsonValue::Object(
            Seq::new(
                v.len() as nat,
                |i: int|
                    if 0 <= i < v.len() {
                        (v[i].0@, json_view(v[i].1))
                    } else {
                        (Seq::empty(), JsonValue::Null)
                    },
            ),
        ),
    }
}

impl View for JsonStruct {
    type V = JsonValue;

    open spec fn view(&self) -> JsonValue {
        json_view(*self)
    }
}

/// The values of a sequence of `JsonStruct`s.
pub open spec fn items_view(v: Seq<JsonStruct>) -> Seq<JsonValue> {
    v.map_values(|j: JsonStruct| j@)
}

/// The members of an object, as names and values.
pub open spec fn members_view(v: Seq<(String, JsonStruct)>) -> Seq<(Seq<char>, JsonValue)> {
    v.map_values(|p: (String, JsonStruct)| (p.0@, p.1@))
}

/// No name occurs twice among the members.
pub open spec fn names_unique(m: Seq<(Seq<char>, JsonValue)>) -> bool {
    forall|i: int, j: int| 0 <= i < j < m.len() ==> m[i].0 != m[j].0
}

pub proof fn lemma_array_view(v: Vec<JsonStruct>)
    ensures
        JsonStruct::Array(v)@ == JsonValue::Array(items_view(v@)),
{
    let x = json_view(JsonStruct::Array(v));
    assert(x->Array_0 =~= items_view(v@));
}

pub proof fn lemma_object_view(v: Vec<(String, JsonStruct)>)
    ensures
        JsonStruct::Object(v)@ == JsonValue::Object(members_view(v@)),
{
    let x = json_view(JsonStruct::Object(v));
    assert(x->Object_0 =~= members_view(v@));
}

/// How many parts `v` has: elements of an array, members of an object.
pub open spec fn width(v: JsonValue) -> int {
    match v {
        JsonValue::Array(items) => items.len() as int,
        JsonValue::Object(m) => m.len() as int,
        _ => 0,
    }
}

/// Every object in `v`, at any depth, has each member name once.
pub open spec fn well_formed(v: JsonValue) -> bool
    decreases v, width(v) + 1,
{
    &&& (v matches JsonValue::Object(m) ==> names_unique(m))
    &&& parts_well_formed(v, 0)
}

/// The parts of `v` from index `i` on are well formed.
pub open spec fn parts_well_formed(v: JsonValue, i: int) -> bool
    decreases v, width(v) - i,
{
    if i < 0 || width(v) <= i {
        true
    } else {
        &&& match v {
            JsonValue::Array(items) => well_formed(items[i]),
            JsonValue::Object(m) => well_formed(m[i].1),
            _ => true,
        }
        &&& parts_well_formed(v, i + 1)
    }
}

/// An array whose elements are well formed is well formed.
pub proof fn lemma_array_well_formed(items: Seq<JsonValue>, i: int)
    requires
        0 <= i <= items.len(),
        forall|k: int| i <= k < items.len() ==> #[trigger] well_formed(items[k]),
    ensures
        parts_well_formed(JsonValue::Array(items), i),
    decreases items.len() - i,
{
    if i < items.len() {
        lemma_array_well_formed(items, i + 1);
        assert(well_formed(items[i]));
    }
}

/// An object whose member values are well formed has well formed parts.
pub proof fn lemma_object_well_formed(m: Seq<(Seq<char>, JsonValue)>, i: int)
    requires
        0 <= i <= m.len(),
        forall|k: int| i <= k < m.len() ==> #[trigger] well_formed(m[k].1),
    ensures
        parts_well_formed(JsonValue::Object(m), i),
    decreases m.len() - i,
{
    if i < m.len() {
        lemma_object_well_formed(m, i + 1);
        assert(well_formed(m[i].1));
    }
}

/// A value read from the front of a text, and the text after it.
#[derive(Debug)]
pub struct ParseResult<'a> {
    pub json: &'a str,
    pub json_struct: JsonStruct,
}

/// The contents of a string read from the front of a text, and the text
/// after the string.
#[derive(Debug)]
pub struct ParseStringResult<'a> {
    pub json: &'a str,
    pub str_value: &'a str,
}

/// The outcome of a parser, over the mathematical values.
pub open spec fn outcome<'a>(r: Result<ParseResult<'a>, ParseError>) -> Parsed {
    match r {
        Ok(p) => Ok((p.json_struct@, p.json@)),
        Err(e) => Err(e),
    }
}

/// The outcome of reading a whole text, over the mathematical values.
pub open spec fn parse_outcome(r: Result<JsonStruct, ParseError>) -> Result<JsonValue, ParseError> {
    match r {
        Ok(v) => Ok(v@),
        Err(e) => Err(e),
    }
}

} // verus!
