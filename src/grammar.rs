//! The language each parser accepts, and what it reads from a text.
use vstd::prelude::*;
use crate::value::{JsonValue, ParseError, Parsed};

verus! {

/// Space, tab, line feed and carriage return.
pub open spec fn is_ws(c: char) -> bool {
    c == ' ' || c == '\t' || c == '\n' || c == '\r'
}

pub open spec fn is_digit(c: char) -> bool {
    '0' <= c <= '9'
}

pub open spec fn is_digit_1_to_9(c: char) -> bool {
    '1' <= c <= '9'
}

/// The first index at or after `i` whose character is not white space
/// (or the length of `s`).
pub open spec fn ws_end(s: Seq<char>, i: int) -> int
    decreases s.len() - i,
{
    if 0 <= i < s.len() && is_ws(s[i]) {
        ws_end(s, i + 1)
    } else {
        i
    }
}

/// The first index at or after `i` whose character is not a digit
/// (or the length of `s`).
pub open spec fn digits_end(s: Seq<char>, i: int) -> int
    decreases s.len() - i,
{
    if 0 <= i < s.len() && is_digit(s[i]) {
        digits_end(s, i + 1)
    } else {
        i
    }
}

/// The first index at or after `i` that holds `"`, if there is one.
pub open spec fn quote_at_or_after(s: Seq<char>, i: int) -> Option<int>
    decreases s.len() - i,
{
    if i < 0 || s.len() <= i {
        None
    } else if s[i] == '"' {
        Some(i)
    } else {
        quote_at_or_after(s, i + 1)
    }
}

pub proof fn lemma_ws_end(s: Seq<char>, i: int)
    requires
        0 <= i <= s.len(),
    ensures
        i <= ws_end(s, i) <= s.len(),
        forall|k: int| i <= k < ws_end(s, i) ==> is_ws(#[trigger] s[k]),
        ws_end(s, i) < s.len() ==> !is_ws(s[ws_end(s, i)]),
    decreases s.len() - i,
{
    if i < s.len() && is_ws(s[i]) {
        lemma_ws_end(s, i + 1);
    }
}

pub proof fn lemma_digits_end(s: Seq<char>, i: int)
    requires
        0 <= i <= s.len(),
    ensures
        i <= digits_end(s, i) <= s.len(),
        forall|k: int| i <= k < digits_end(s, i) ==> is_digit(#[trigger] s[k]),
        digits_end(s, i) < s.len() ==> !is_digit(s[digits_end(s, i)]),
    decreases s.len() - i,
{
    if i < s.len() && is_digit(s[i]) {
        lemma_digits_end(s, i + 1);
    }
}

pub proof fn lemma_quote_at_or_after(s: Seq<char>, i: int)
    requires
        0 <= i,
    ensures
        match quote_at_or_after(s, i) {
            Some(p) => i <= p < s.len() && s[p] == '"' && forall|k: int|
                i <= k < p ==> #[trigger] s[k] != '"',
            None => forall|k: int| i <= k < s.len() ==> #[trigger] s[k] != '"',
        },
    decreases s.len() - i,
{
    if i < s.len() && s[i] != '"' {
        lemma_quote_at_or_after(s, i + 1);
    }
}

/// `s` without its leading white space.
pub open spec fn skip_ws(s: Seq<char>) -> Seq<char> {
    s.subrange(ws_end(s, 0), s.len() as int)
}

pub proof fn lemma_skip_ws(s: Seq<char>)
    ensures
        skip_ws(s).len() <= s.len(),
        skip_ws(s) == s.subrange(s.len() - skip_ws(s).len(), s.len() as int),
        skip_ws(s).len() > 0 ==> !is_ws(skip_ws(s)[0]),
{
    lemma_ws_end(s, 0);
}

/// A keyword read from the front of `s`: it must match character by
/// character, and the rest of `s` is left as it is.
pub open spec fn literal_spec(s: Seq<char>, keyword: Seq<char>, v: JsonValue) -> Parsed {
    if keyword.len() <= s.len() && s.take(keyword.len() as int) == keyword {
        Ok((v, s.skip(keyword.len() as int)))
    } else {
        Err(ParseError::ValueError)
    }
}

pub open spec fn null_text() -> Seq<char> {
    seq!['n', 'u', 'l', 'l']
}

pub open spec fn true_text() -> Seq<char> {
    seq!['t', 'r', 'u', 'e']
}

pub open spec fn false_text() -> Seq<char> {
    seq!['f', 'a', 'l', 's', 'e']
}

/// Where a leading `"`-delimited string of `s` ends: the index of its
/// closing quote.
pub open spec fn string_end(s: Seq<char>) -> Option<int> {
    if s.len() > 0 && s[0] == '"' {
        quote_at_or_after(s, 1)
    } else {
        None
    }
}

/// A string read from the front of `s`: everything between the opening
/// quote and the next quote, taken as it stands (a backslash is an ordinary
/// character).
pub open spec fn string_spec(s: Seq<char>) -> Result<(Seq<char>, Seq<char>), ParseError> {
    match string_end(s) {
        Some(p) => Ok((s.subrange(1, p), s.skip(p + 1))),
        None => Err(ParseError::ValueError),
    }
}

/// 1 where `s` starts with a minus sign, else 0.
pub open spec fn sign_len(s: Seq<char>) -> int {
    if s.len() > 0 && s[0] == '-' {
        1
    } else {
        0
    }
}

/// The integer part, from index `i`: a lone `0`, or a digit 1 to 9 and any
/// digits after it. Nothing is read where the text has ended.
pub open spec fn int_part_end(s: Seq<char>, i: int) -> Option<int> {
    if s.len() <= i {
        Some(i)
    } else if s[i] == '0' {
        Some(i + 1)
    } else if is_digit_1_to_9(s[i]) {
        Some(digits_end(s, i + 1))
    } else {
        None
    }
}

/// The fraction, from index `i`: where `.` stands there, a digit must follow
/// it unless the text ends right after the `.`.
pub open spec fn frac_part_end(s: Seq<char>, i: int) -> Option<int> {
    if i < s.len() && s[i] == '.' {
        if s.len() <= i + 1 {
            Some(i + 1)
        } else if is_digit(s[i + 1]) {
            Some(digits_end(s, i + 2))
        } else {
            None
        }
    } else {
        Some(i)
    }
}

pub open spec fn is_exp_mark(c: char) -> bool {
    c == 'e' || c == 'E'
}

pub open spec fn is_sign(c: char) -> bool {
    c == '+' || c == '-'
}

/// The exponent, from index `i`: where `e` or `E` stands there, an optional
/// sign and at least one digit must follow.
pub open spec fn exp_part_end(s: Seq<char>, i: int) -> Option<int> {
    if i < s.len() && is_exp_mark(s[i]) {
        let d = if i + 1 < s.len() && is_sign(s[i + 1]) {
            i + 2
        } else {
            i + 1
        };
        if d < s.len() && is_digit(s[d]) {
            Some(digits_end(s, d + 1))
        } else {
            None
        }
    } else {
        Some(i)
    }
}

/// Where a number at the front of `s` ends, if one can be read there: an
/// optional `-`, an integer part with at least one digit, then an optional
/// fraction and an optional exponent.
pub open spec fn number_end(s: Seq<char>) -> Option<int> {
    let a = sign_len(s);
    match int_part_end(s, a) {
        Some(b) => if b == a {
            None
        } else {
            match frac_part_end(s, b) {
                Some(c) => exp_part_end(s, c),
                None => None,
            }
        },
        None => None,
    }
}

/// A number read from the front of `s`: its text, and the rest of `s`.
pub open spec fn number_spec(s: Seq<char>) -> Parsed {
    match number_end(s) {
        Some(e) => Ok((JsonValue::Number(s.take(e)), s.skip(e))),
        None => Err(ParseError::ValueError),
    }
}

/// `m` with `(name, v)` put in: where a member already has that name its
/// value is replaced, else the member is added at the end.
pub open spec fn put_member(
    m: Seq<(Seq<char>, JsonValue)>,
    name: Seq<char>,
    v: JsonValue,
) -> Seq<(Seq<char>, JsonValue)> {
    if exists|i: int| 0 <= i < m.len() && m[i].0 == name {
        m.map_values(|p: (Seq<char>, JsonValue)| if p.0 == name { (name, v) } else { p })
    } else {
        m.push((name, v))
    }
}

/// A value read from the front of `s`, after any white space: the first
/// character left chooses what is read.
pub open spec fn value_spec(s: Seq<char>) -> Parsed
    decreases s.len(), 2int,
{
    let t = skip_ws(s);
    proof {
        lemma_skip_ws(s);
    }
    if t.len() == 0 {
        Err(ParseError::ValueError)
    } else if t[0] == 'n' {
        literal_spec(t, null_text(), JsonValue::Null)
    } else if t[0] == 'f' {
        literal_spec(t, false_text(), JsonValue::Boolean(false))
    } else if t[0] == 't' {
        literal_spec(t, true_text(), JsonValue::Boolean(true))
    } else if t[0] == '"' {
        match string_spec(t) {
            Ok((c, rest)) => Ok((JsonValue::Str(c), rest)),
            Err(e) => Err(e),
        }
    } else if t[0] == '[' {
        array_spec(t)
    } else if t[0] == '{' {
        object_spec(t)
    } else {
        number_spec(t)
    }
}

/// An array read from the front of `s`, which must start with `[`.
pub open spec fn array_spec(s: Seq<char>) -> Parsed
    decreases s.len(), 1int,
{
    if s.len() > 0 && s[0] == '[' {
        elements_spec(s.drop_first(), Seq::empty())
    } else {
        Err(ParseError::ValueError)
    }
}

/// The rest of an array, after the elements `acc`: up to the next `]`,
/// with commas passed over and any other text read as an element.
/// (A value always takes at least one character, so the length test only
/// makes the recursion's end evident.)
pub open spec fn elements_spec(s: Seq<char>, acc: Seq<JsonValue>) -> Parsed
    decreases s.len(), 3int,
{
    let t = skip_ws(s);
    proof {
        lemma_skip_ws(s);
    }
    if t.len() == 0 {
        Err(ParseError::ValueError)
    } else if t[0] == ']' {
        Ok((JsonValue::Array(acc), t.drop_first()))
    } else if t[0] == ',' {
        elements_spec(t.drop_first(), acc)
    } else {
        match value_spec(t) {
            Ok((v, rest)) => if rest.len() < s.len() {
                elements_spec(rest, acc.push(v))
            } else {
                Err(ParseError::ValueError)
            },
            Err(e) => Err(e),
        }
    }
}

/// An object read from the front of `s`, which must start with `{` and hold
/// at least one member.
pub open spec fn object_spec(s: Seq<char>) -> Parsed
    decreases s.len(), 1int,
{
    if s.len() > 0 && s[0] == '{' {
        let body = s.drop_first();
        let t = skip_ws(body);
        if body.len() == 0 || (t.len() > 0 && t[0] == '}') {
            Err(ParseError::ValueError)
        } else {
            members_spec(body, Seq::empty())
        }
    } else {
        Err(ParseError::ValueError)
    }
}

/// The rest of an object, after the members `acc`: a name in quotes, a
/// colon, a value, then `}` to end or `,` to go on.
pub open spec fn members_spec(s: Seq<char>, acc: Seq<(Seq<char>, JsonValue)>) -> Parsed
    decreases s.len(), 3int,
{
    let t = skip_ws(s);
    proof {
        lemma_skip_ws(s);
    }
    if !(t.len() > 0 && t[0] == '"') {
        Err(ParseError::LeftQuotationMissing)
    } else {
        match string_spec(t) {
            Err(_) => Err(ParseError::ObjNameError),
            Ok((name, r1)) => {
                let t2 = skip_ws(r1);
                proof {
                    lemma_quote_at_or_after(t, 1);
                    lemma_skip_ws(r1);
                }
                if !(t2.len() > 0 && t2[0] == ':') {
                    Err(ParseError::ColonMissing)
                } else {
                    match value_spec(t2.drop_first()) {
                        Err(e) => Err(e),
                        Ok((v, r3)) => {
                            let m = put_member(acc, name, v);
                            if r3.len() > 0 && r3[0] == '}' {
                                Ok((JsonValue::Object(m), r3.drop_first()))
                            } else if r3.len() > 0 && r3[0] == ',' && r3.len() <= s.len() {
                                members_spec(r3.drop_first(), m)
                            } else {
                                Err(ParseError::ObjectContentIncomplete)
                            }
                        },
                    }
                }
            },
        }
    }
}

/// A whole text read as one value; an empty text reads as `null`, and
/// whatever follows the value is not looked at.
pub open spec fn parse_spec(s: Seq<char>) -> Result<JsonValue, ParseError> {
    if s.len() == 0 {
        Ok(JsonValue::Null)
    } else {
        match value_spec(s) {
            Ok((v, _)) => Ok(v),
            Err(e) => Err(e),
        }
    }
}

} // verus!
