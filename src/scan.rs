//! The leaf parsers: white space, keywords, numbers and strings.
use vstd::prelude::*;
use vstd::std_specs::iter::IteratorSpec;
use std::str::Chars;
use crate::value::{JsonStruct, JsonValue, ParseError, ParseResult, ParseStringResult, outcome};
use crate::grammar::{
    digits_end, is_digit_1_to_9, is_ws, literal_spec, number_end, number_spec, quote_at_or_after,
    skip_ws, string_spec, ws_end,
};

verus! {

broadcast use vstd::string::group_string_axioms, vstd::string::next_postcondition;

/// A reader of `s` stands at index `i`: `c` is the character there (`None`
/// at the end) and `rest` is what the reader has still to yield.
pub open spec fn reads_at(s: Seq<char>, rest: Seq<char>, c: Option<char>, i: int) -> bool {
    &&& s.len() <= usize::MAX
    &&& 0 <= i <= s.len()
    &&& if i < s.len() {
        c == Some(s[i]) && rest == s.skip(i + 1)
    } else {
        c is None && rest == Seq::<char>::empty()
    }
}

fn is_white(c: char) -> (r: bool)
    ensures
        r == is_ws(c),
{
    c == ' ' || c == '\t' || c == '\n' || c == '\r'
}

fn is_digit_1t9(d: &char) -> (r: bool)
    ensures
        r == is_digit_1_to_9(*d),
{
    *d >= '1' && *d <= '9'
}

fn is_digit(d: &char) -> (r: bool)
    ensures
        r == crate::grammar::is_digit(*d),
{
    *d >= '0' && *d <= '9'
}

/// Moves `chars` to the next character of `s`.
fn advance(
    Ghost(s): Ghost<Seq<char>>,
    chars: &mut Chars,
    check_c: &mut Option<char>,
    index: &mut usize,
)
    requires
        reads_at(s, (*old(chars)).remaining(), *old(check_c), *old(index) as int),
        *old(index) < s.len(),
    ensures
        reads_at(s, (*final(chars)).remaining(), *final(check_c), *final(index) as int),
        *final(index) == *old(index) + 1,
{
    proof {
        let i = *index + 1;
        if i < s.len() {
            assert(s.skip(i).drop_first() == s.skip(i + 1));
        } else {
            assert(s.skip(i) == Seq::<char>::empty());
        }
    }
    *index = *index + 1;
    *check_c = chars.next();
}

/// A reader standing at the first character of `json`, and the length of
/// `json` in characters.
fn start_reading<'a>(json: &'a str) -> (r: (Chars<'a>, Option<char>, usize))
    ensures
        r.2 == json@.len(),
        reads_at(json@, r.0.remaining(), r.1, 0),
{
    let n = json.unicode_len();
    let mut chars = json.chars();
    assert(chars.remaining() == json@);
    let check_c = chars.next();
    proof {
        if 0 < n {
            assert(json@.skip(1) == json@.drop_first());
        } else {
            assert(json@ == Seq::<char>::empty());
        }
    }
    (chars, check_c, n)
}

/// Passes over the digits from the current character on.
fn skip_for_num(
    Ghost(s): Ghost<Seq<char>>,
    chars: &mut Chars,
    check_c: &mut Option<char>,
    index: &mut usize,
)
    requires
        reads_at(s, (*old(chars)).remaining(), *old(check_c), *old(index) as int),
    ensures
        reads_at(s, (*final(chars)).remaining(), *final(check_c), *final(index) as int),
        *final(index) == digits_end(s, *old(index) as int),
        *old(index) <= *final(index),
{
    let ghost start = *index as int;
    loop
        invariant
            reads_at(s, (*chars).remaining(), *check_c, *index as int),
            start == *old(index) <= *index,
            digits_end(s, start) == digits_end(s, *index as int),
        decreases s.len() - *index,
    {
        match *check_c {
            Some(c) => {
                if is_digit(&c) {
                    advance(Ghost(s), chars, check_c, index);
                } else {
                    return;
                }
            },
            None => {
                return;
            },
        }
    }
}

/// The white space at the front of `json` passed over.
///
/// Never fails; the result is empty where `json` is all white space.
pub fn skip_white_space(json: &str) -> (r: Result<&str, ParseError>)
    ensures
        r matches Ok(rest) && rest@ == skip_ws(json@),
{
    let (mut chars, mut check_c, n) = start_reading(json);
    let mut index: usize = 0;
    loop
        invariant
            n == json@.len(),
            reads_at(json@, chars.remaining(), check_c, index as int),
            ws_end(json@, 0) == ws_end(json@, index as int),
        decreases n - index,
    {
        match check_c {
            Some(c) => {
                if is_white(c) {
                    advance(Ghost(json@), &mut chars, &mut check_c, &mut index);
                } else {
                    return Ok(json.substring_char(index, n));
                }
            },
            None => {
                return Ok(json.substring_char(index, n));
            },
        }
    }
}

/// A keyword read from the front of `json`; `json_struct` is the value it
/// stands for. The rest of `json` after the keyword, white space included,
/// is handed back untouched.
pub fn parse_for_literal<'a>(json: &'a str, literal: &str, json_struct: JsonStruct) -> (r: Result<
    ParseResult<'a>,
    ParseError,
>)
    ensures
        outcome(r) == literal_spec(json@, literal@, json_struct@),
{
    let n = json.unicode_len();
    let m = literal.unicode_len();
    if n < m {
        return Err(ParseError::ValueError);
    }
    let mut i: usize = 0;
    while i < m
        invariant
            m == literal@.len() <= n == json@.len(),
            i <= m,
            forall|k: int| 0 <= k < i ==> json@[k] == literal@[k],
        decreases m - i,
    {
        if json.get_char(i) != literal.get_char(i) {
            return Err(ParseError::ValueError);
        }
        i = i + 1;
    }
    assert(json@.take(m as int) == literal@);
    Ok(ParseResult { json: json.substring_char(m, n), json_struct })
}

/// A number read from the front of `json`: an optional `-`, an integer part
/// (`0`, or a digit 1 to 9 and more digits), an optional fraction (`.` and
/// digits) and an optional exponent (`e` or `E`, an optional sign, digits).
/// The value holds the number's text; the rest of `json` is handed back
/// without looking at it.
pub fn parse_for_number<'a>(json: &'a str) -> (r: Result<ParseResult<'a>, ParseError>)
    ensures
        outcome(r) == number_spec(json@),
        r matches Ok(p) ==> p.json@.len() < json@.len(),
{
    let ghost s = json@;
    let (mut chars, mut check_c, n) = start_reading(json);
    let mut index: usize = 0;

    if check_c == Some('-') {
        advance(Ghost(s), &mut chars, &mut check_c, &mut index);
    }

    match check_c {
        Some(c) => {
            if c == '0' {
                advance(Ghost(s), &mut chars, &mut check_c, &mut index);
            } else if is_digit_1t9(&c) {
                advance(Ghost(s), &mut chars, &mut check_c, &mut index);
                skip_for_num(Ghost(s), &mut chars, &mut check_c, &mut index);
            } else {
                return Err(ParseError::ValueError);
            }
        },
        None => {
            return Err(ParseError::ValueError);
        },
    }

    if check_c == Some('.') {
        advance(Ghost(s), &mut chars, &mut check_c, &mut index);
        match check_c {
            Some(c) => {
                if !is_digit(&c) {
                    return Err(ParseError::ValueError);
                }
                skip_for_num(Ghost(s), &mut chars, &mut check_c, &mut index);
            },
            None => {},
        }
    }

    if check_c == Some('e') || check_c == Some('E') {
        advance(Ghost(s), &mut chars, &mut check_c, &mut index);
        if check_c == Some('+') || check_c == Some('-') {
            advance(Ghost(s), &mut chars, &mut check_c, &mut index);
        }
        match check_c {
            Some(d) => {
                if !is_digit(&d) {
                    return Err(ParseError::ValueError);
                }
                assert(digits_end(s, index as int) == digits_end(s, index + 1));
                skip_for_num(Ghost(s), &mut chars, &mut check_c, &mut index);
            },
            None => {
                return Err(ParseError::ValueError);
            },
        }
    }
    assert(number_end(s) == Some(index as int));

    let text = json.substring_char(0, index).to_owned();
    Ok(ParseResult { json: json.substring_char(index, n), json_struct: JsonStruct::Number(text) })
}

/// A string read from the front of `json`, which must start with `"`: its
/// contents are everything up to the next `"`, taken as they stand.
pub fn parse_for_string_value<'a>(json: &'a str) -> (r: Result<ParseStringResult<'a>, ParseError>)
    ensures
        match r {
            Ok(p) => string_spec(json@) == Ok::<(Seq<char>, Seq<char>), ParseError>((p.str_value@, p.json@)),
            Err(e) => string_spec(json@) == Err::<(Seq<char>, Seq<char>), ParseError>(e),
        },
        r matches Ok(p) ==> p.json@.len() < json@.len(),
{
    let ghost s = json@;
    let (mut chars, mut check_c, n) = start_reading(json);
    let mut index: usize = 0;
    if check_c != Some('"') {
        return Err(ParseError::ValueError);
    }
    advance(Ghost(s), &mut chars, &mut check_c, &mut index);
    loop
        invariant
            s == json@,
            n == s.len(),
            1 <= index,
            s.len() > 0 && s[0] == '"',
            reads_at(s, chars.remaining(), check_c, index as int),
            quote_at_or_after(s, 1) == quote_at_or_after(s, index as int),
        decreases n - index,
    {
        match check_c {
            Some(c) => {
                if c == '"' {
                    return Ok(ParseStringResult {
                        json: json.substring_char(index + 1, n),
                        str_value: json.substring_char(1, index),
                    });
                }
                advance(Ghost(s), &mut chars, &mut check_c, &mut index);
            },
            None => {
                assert(quote_at_or_after(s, index as int) is None);
                return Err(ParseError::ValueError);
            },
        }
    }
}

/// A string read from the front of `json` as a value; see
/// `parse_for_string_value`.
pub fn parse_for_string<'a>(json: &'a str) -> (r: Result<ParseResult<'a>, ParseError>)
    ensures
        outcome(r) == match string_spec(json@) {
            Ok((c, rest)) => Ok((JsonValue::Str(c), rest)),
            Err(e) => Err(e),
        },
        r matches Ok(p) ==> p.json@.len() < json@.len(),
{
    match parse_for_string_value(json) {
        Ok(p) => Ok(ParseResult { json: p.json, json_struct: JsonStruct::Str(p.str_value.to_owned()) }),
        Err(e) => Err(e),
    }
}

} // verus!
