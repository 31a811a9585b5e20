//! The value dispatcher and the parsers of arrays and objects.
use vstd::prelude::*;
use crate::value::{
    JsonStruct, ParseError, ParseResult, items_view, lemma_array_view, lemma_object_view,
    members_view, names_unique, outcome, parse_outcome, well_formed,
};
use crate::grammar::{
    array_spec, elements_spec, lemma_skip_ws, members_spec, object_spec, parse_spec, put_member,
    value_spec,
};
use crate::scan::{
    parse_for_literal, parse_for_number, parse_for_string, parse_for_string_value,
    skip_white_space,
};

verus! {

/// Reads a whole text as one JSON value.
///
/// An empty text reads as `null`. Text after the first value is not looked
/// at.
pub fn parse(json: &str) -> (r: Result<JsonStruct, ParseError>)
    ensures
        parse_outcome(r) == parse_spec(json@),
        r matches Ok(v) ==> well_formed(v@),
{
    if json.is_empty() {
        Ok(JsonStruct::Null)
    } else {
        match parse_value(json) {
            Ok(result) => Ok(result.json_struct),
            Err(e) => Err(e),
        }
    }
}

/// Reads one value from the front of `json`, after any white space. The
/// first character left chooses the parser: `n`, `t` and `f` a keyword, `"`
/// a string, `[` an array, `{` an object, anything else a number.
pub fn parse_value<'a>(json: &'a str) -> (r: Result<ParseResult<'a>, ParseError>)
    ensures
        outcome(r) == value_spec(json@),
        r matches Ok(p) ==> p.json@.len() < json@.len() && well_formed(p.json_struct@),
    decreases json@.len(), 2int,
{
    let t = match skip_white_space(json) {
        Ok(t) => t,
        Err(e) => {
            return Err(e);
        },
    };
    proof {
        lemma_skip_ws(json@);
        reveal_strlit("null");
        reveal_strlit("false");
        reveal_strlit("true");
        assert("null"@ == crate::grammar::null_text());
        assert("false"@ == crate::grammar::false_text());
        assert("true"@ == crate::grammar::true_text());
    }
    if t.is_empty() {
        return Err(ParseError::ValueError);
    }
    let c = t.get_char(0);
    if c == 'n' {
        parse_for_literal(t, "null", JsonStruct::Null)
    } else if c == 'f' {
        parse_for_literal(t, "false", JsonStruct::Boolean(false))
    } else if c == 't' {
        parse_for_literal(t, "true", JsonStruct::Boolean(true))
    } else if c == '"' {
        parse_for_string(t)
    } else if c == '[' {
        parse_for_array(t)
    } else if c == '{' {
        parse_for_obj(t)
    } else {
        parse_for_number(t)
    }
}

/// Reads an array from the front of `json`, which must start with `[`.
///
/// Elements are read in order up to the closing `]`; commas between them
/// are passed over, as is white space before an element, a comma or the
/// `]`.
pub fn parse_for_array<'a>(json: &'a str) -> (r: Result<ParseResult<'a>, ParseError>)
    ensures
        outcome(r) == array_spec(json@),
        r matches Ok(p) ==> p.json@.len() < json@.len() && well_formed(p.json_struct@),
    decreases json@.len(), 1int,
{
    if json.is_empty() || json.get_char(0) != '[' {
        return Err(ParseError::ValueError);
    }
    let n = json.unicode_len();
    let mut rest = json.substring_char(1, n);
    let mut v: Vec<JsonStruct> = Vec::new();
    assert(rest@ == json@.drop_first());
    assert(items_view(v@) == Seq::<crate::value::JsonValue>::empty());
    loop
        invariant
            rest@.len() < json@.len(),
            elements_spec(rest@, items_view(v@)) == array_spec(json@),
            forall|i: int| 0 <= i < v.len() ==> #[trigger] well_formed(items_view(v@)[i]),
        decreases rest@.len(),
    {
        let t = match skip_white_space(rest) {
            Ok(t) => t,
            Err(e) => {
                return Err(e);
            },
        };
        proof {
            lemma_skip_ws(rest@);
        }
        if t.is_empty() {
            return Err(ParseError::ValueError);
        }
        let c = t.get_char(0);
        let m = t.unicode_len();
        if c == ']' {
            proof {
                lemma_array_view(v);
                crate::value::lemma_array_well_formed(items_view(v@), 0);
            }
            return Ok(ParseResult { json: t.substring_char(1, m), json_struct: JsonStruct::Array(v) });
        } else if c == ',' {
            rest = t.substring_char(1, m);
            assert(rest@ == t@.drop_first());
        } else {
            match parse_value(t) {
                Ok(p) => {
                    let ghost before = v@;
                    v.push(p.json_struct);
                    assert(items_view(v@) == items_view(before).push(v@.last()@));
                    rest = p.json;
                },
                Err(e) => {
                    return Err(e);
                },
            }
        }
    }
}

/// Puts a member into `members`: where a member has the same name its
/// value is replaced, else the member is added at the end.
fn insert_member(members: &mut Vec<(String, JsonStruct)>, name: String, value: JsonStruct)
    requires
        names_unique(members_view(old(members)@)),
        forall|i: int|
            0 <= i < old(members).len() ==> #[trigger] well_formed(members_view(old(members)@)[i].1),
        well_formed(value@),
    ensures
        members_view(final(members)@) == put_member(members_view(old(members)@), name@, value@),
        names_unique(members_view(final(members)@)),
        forall|i: int|
            0 <= i < final(members).len() ==> #[trigger] well_formed(members_view(final(members)@)[i].1),
{
    let ghost m = members_view(members@);
    let mut i: usize = 0;
    while i < members.len()
        invariant
            m == members_view(members@),
            m == members_view(old(members)@),
            names_unique(m),
            forall|k: int| 0 <= k < m.len() ==> #[trigger] well_formed(m[k].1),
            well_formed(value@),
            i <= members.len(),
            forall|k: int| 0 <= k < i ==> m[k].0 != name@,
        decreases members.len() - i,
    {
        if members[i].0 == name {
            let ghost nv = value@;
            let ghost nn = name@;
            members[i] = (name, value);
            proof {
                assert(m[i as int].0 == nn);
                assert(exists|k: int| 0 <= k < m.len() && m[k].0 == nn);
                assert(members_view(members@) =~= m.map_values(
                    |p: (Seq<char>, crate::value::JsonValue)|
                        if p.0 == nn {
                            (nn, nv)
                        } else {
                            p
                        },
                ));
                assert(members_view(members@) =~= m.update(i as int, (nn, nv)));
            }
            return;
        }
        i = i + 1;
    }
    let ghost nv = value@;
    let ghost nn = name@;
    members.push((name, value));
    assert(members_view(members@) =~= m.push((nn, nv)));
}

/// Reads an object from the front of `json`, which must start with `{` and
/// hold at least one member.
///
/// Each member is a name in quotes, a colon and a value; after a value comes
/// `}`, which ends the object, or `,`, which leads to the next member. White
/// space may stand before a name, a colon and a value.
pub fn parse_for_obj<'a>(json: &'a str) -> (r: Result<ParseResult<'a>, ParseError>)
    ensures
        outcome(r) == object_spec(json@),
        r matches Ok(p) ==> p.json@.len() < json@.len() && well_formed(p.json_struct@),
    decreases json@.len(), 1int,
{
    if json.is_empty() || json.get_char(0) != '{' {
        return Err(ParseError::ValueError);
    }
    let n = json.unicode_len();
    let body = json.substring_char(1, n);
    assert(body@ == json@.drop_first());
    if body.is_empty() {
        return Err(ParseError::ValueError);
    }
    let first = match skip_white_space(body) {
        Ok(t) => t,
        Err(e) => {
            return Err(e);
        },
    };
    if !first.is_empty() && first.get_char(0) == '}' {
        return Err(ParseError::ValueError);
    }
    let mut members: Vec<(String, JsonStruct)> = Vec::new();
    let mut rest = body;
    assert(members_view(members@) == Seq::<(Seq<char>, crate::value::JsonValue)>::empty());
    loop
        invariant
            rest@.len() < json@.len(),
            members_spec(rest@, members_view(members@)) == object_spec(json@),
            names_unique(members_view(members@)),
            forall|i: int|
                0 <= i < members.len() ==> #[trigger] well_formed(members_view(members@)[i].1),
        decreases rest@.len(),
    {
        let t = match skip_white_space(rest) {
            Ok(t) => t,
            Err(e) => {
                return Err(e);
            },
        };
        proof {
            lemma_skip_ws(rest@);
        }
        if t.is_empty() || t.get_char(0) != '"' {
            return Err(ParseError::LeftQuotationMissing);
        }
        let name = match parse_for_string_value(t) {
            Ok(p) => p,
            Err(_) => {
                return Err(ParseError::ObjNameError);
            },
        };
        let t2 = match skip_white_space(name.json) {
            Ok(t) => t,
            Err(e) => {
                return Err(e);
            },
        };
        proof {
            crate::grammar::lemma_quote_at_or_after(t@, 1);
            lemma_skip_ws(name.json@);
        }
        if t2.is_empty() || t2.get_char(0) != ':' {
            return Err(ParseError::ColonMissing);
        }
        let after = t2.substring_char(1, t2.unicode_len());
        assert(after@ == t2@.drop_first());
        let p = match parse_value(after) {
            Ok(p) => p,
            Err(e) => {
                return Err(e);
            },
        };
        insert_member(&mut members, name.str_value.to_owned(), p.json_struct);
        let r3 = p.json;
        if !r3.is_empty() && r3.get_char(0) == '}' {
            proof {
                lemma_object_view(members);
                crate::value::lemma_object_well_formed(members_view(members@), 0);
            }
            return Ok(
                ParseResult {
                    json: r3.substring_char(1, r3.unicode_len()),
                    json_struct: JsonStruct::Object(members),
                },
            );
        } else if !r3.is_empty() && r3.get_char(0) == ',' {
            rest = r3.substring_char(1, r3.unicode_len());
            assert(rest@ == r3@.drop_first());
        } else {
            return Err(ParseError::ObjectContentIncomplete);
        }
    }
}

} // verus!
