//! Facts about the language that `parse` reads.
use vstd::prelude::*;
use crate::value::{JsonStruct, JsonValue, ParseError, parse_outcome};
use crate::grammar::{
    digits_end, elements_spec, is_digit, is_digit_1_to_9, is_exp_mark, is_sign,
    lemma_quote_at_or_after, number_end, parse_spec, sign_len, skip_ws, value_spec, ws_end,
};

verus! {

/// Every character of `s` from `i` up to `j` is a digit.
pub open spec fn all_digits(s: Seq<char>, i: int, j: int) -> bool {
    forall|k: int| i <= k < j ==> is_digit(#[trigger] s[k])
}

/// `s` is a number in the strict JSON grammar, with its integer part ending
/// at `a` and its fraction at `b`: an optional `-`; `0`, or a digit 1 to 9
/// and more digits; optionally `.` and one or more digits; optionally `e` or
/// `E`, an optional sign and one or more digits.
pub open spec fn number_parts(s: Seq<char>, a: int, b: int) -> bool {
    let sg = sign_len(s);
    &&& sg < a <= b <= s.len()
    &&& ((a == sg + 1 && s[sg] == '0') || (is_digit_1_to_9(s[sg]) && all_digits(s, sg + 1, a)))
    &&& (b == a || (a + 2 <= b && s[a] == '.' && all_digits(s, a + 1, b)))
    &&& (b == s.len() || ({
        let e = if b + 1 < s.len() && is_sign(s[b + 1]) {
            b + 2
        } else {
            b + 1
        };
        is_exp_mark(s[b]) && e < s.len() && all_digits(s, e, s.len() as int)
    }))
}

/// `s` is a number in the strict JSON grammar.
pub open spec fn is_json_number(s: Seq<char>) -> bool {
    exists|a: int, b: int| number_parts(s, a, b)
}

proof fn lemma_digit_run(s: Seq<char>, i: int, j: int)
    requires
        0 <= i <= j <= s.len(),
        all_digits(s, i, j),
        j == s.len() || !is_digit(s[j]),
    ensures
        digits_end(s, i) == j,
    decreases j - i,
{
    if i < j {
        lemma_digit_run(s, i + 1, j);
    }
}

/// A character that cannot continue a number: no digit, `.`, `e` or `E`.
pub open spec fn ends_number(c: char) -> bool {
    !is_digit(c) && c != '.' && !is_exp_mark(c)
}

/// A number in the strict JSON grammar, followed by text that cannot
/// continue it, reads as a number whose text is exactly that number; the
/// text after it is left as it is.
pub proof fn lemma_number_then(s: Seq<char>, r: Seq<char>)
    requires
        is_json_number(s),
        r.len() == 0 || ends_number(r[0]),
    ensures
        value_spec(s + r) == Ok::<(JsonValue, Seq<char>), ParseError>((JsonValue::Number(s), r)),
{
    let (a, b) = choose|a: int, b: int| number_parts(s, a, b);
    let t = s + r;
    let n = s.len() as int;
    let sg = sign_len(s);
    assert forall|k: int| 0 <= k < n implies #[trigger] t[k] == s[k] by {}
    assert(n < t.len() ==> t[n] == r[0]);
    assert(sign_len(t) == sg);
    assert(ws_end(t, 0) == 0);
    assert(skip_ws(t) == t);
    if s[sg] != '0' {
        assert(all_digits(t, sg + 1, a));
        lemma_digit_run(t, sg + 1, a);
    }
    assert(crate::grammar::int_part_end(t, sg) == Some(a));
    if b != a {
        assert(all_digits(t, a + 2, b));
        lemma_digit_run(t, a + 2, b);
    }
    assert(crate::grammar::frac_part_end(t, a) == Some(b));
    if b != n {
        let e = if b + 1 < n && is_sign(s[b + 1]) {
            b + 2
        } else {
            b + 1
        };
        assert(all_digits(t, e + 1, n));
        lemma_digit_run(t, e + 1, n);
    }
    assert(crate::grammar::exp_part_end(t, b) == Some(n));
    assert(number_end(t) == Some(n));
    assert(t.take(n) == s);
    assert(t.skip(n) == r);
}

/// A number in the strict JSON grammar reads back as a number whose text is
/// the whole input.
pub proof fn lemma_number_reads_whole(s: Seq<char>)
    requires
        is_json_number(s),
    ensures
        parse_spec(s) == Ok::<JsonValue, ParseError>(JsonValue::Number(s)),
{
    lemma_number_then(s, Seq::empty());
    assert(s + Seq::<char>::empty() == s);
}

proof fn lemma_number_starts(s: Seq<char>)
    requires
        is_json_number(s),
    ensures
        s.len() > 0,
        s[0] == '-' || is_digit(s[0]),
{
    let (a, b) = choose|a: int, b: int| number_parts(s, a, b);
}

/// The texts `ts` one after another, with a comma between each two.
pub open spec fn comma_list(ts: Seq<Seq<char>>) -> Seq<char>
    decreases ts.len(),
{
    if ts.len() == 0 {
        Seq::empty()
    } else if ts.len() == 1 {
        ts[0]
    } else {
        ts[0] + seq![','] + comma_list(ts.drop_first())
    }
}

/// The numbers whose texts are `ts`, in order.
pub open spec fn numbers(ts: Seq<Seq<char>>) -> Seq<JsonValue> {
    ts.map_values(|t: Seq<char>| JsonValue::Number(t))
}

proof fn lemma_number_elements(ts: Seq<Seq<char>>, acc: Seq<JsonValue>)
    requires
        forall|i: int| 0 <= i < ts.len() ==> is_json_number(#[trigger] ts[i]),
    ensures
        elements_spec(comma_list(ts) + seq![']'], acc) == Ok::<(JsonValue, Seq<char>), ParseError>(
            (JsonValue::Array(acc + numbers(ts)), Seq::empty()),
        ),
    decreases ts.len(),
{
    let close = seq![']'];
    if ts.len() == 0 {
        let s = comma_list(ts) + close;
        assert(s == close);
        assert(ws_end(s, 0) == 0);
        assert(skip_ws(s) == s);
        assert(acc + numbers(ts) == acc);
        assert(s.drop_first() == Seq::<char>::empty());
    } else {
        let h = ts[0];
        let rest = ts.drop_first();
        let after = if ts.len() == 1 {
            close
        } else {
            seq![','] + comma_list(rest) + close
        };
        let s = comma_list(ts) + close;
        assert(s == h + after);
        lemma_number_starts(h);
        lemma_number_then(h, after);
        assert(s[0] == h[0]);
        assert(ws_end(s, 0) == 0);
        assert(skip_ws(s) == s);
        let acc2 = acc.push(JsonValue::Number(h));
        assert(ws_end(after, 0) == 0);
        assert(skip_ws(after) == after);
        if ts.len() == 1 {
            assert(acc2 == acc + numbers(ts));
            assert(after.drop_first() == Seq::<char>::empty());
            assert(elements_spec(after, acc2) == Ok::<(JsonValue, Seq<char>), ParseError>(
                (JsonValue::Array(acc2), Seq::empty()),
            ));
        } else {
            assert(after.drop_first() == comma_list(rest) + close);
            lemma_number_elements(rest, acc2);
            assert(acc2 + numbers(rest) == acc + numbers(ts));
            assert(elements_spec(after, acc2) == elements_spec(comma_list(rest) + close, acc2));
        }
        assert(elements_spec(s, acc) == elements_spec(after, acc2));
    }
}

/// Numbers in the strict JSON grammar, written between `[` and `]` with
/// commas between them, read as an array of exactly those numbers, in the
/// same order.
pub proof fn lemma_number_array(ts: Seq<Seq<char>>)
    requires
        forall|i: int| 0 <= i < ts.len() ==> is_json_number(#[trigger] ts[i]),
    ensures
        parse_spec(seq!['['] + comma_list(ts) + seq![']']) == Ok::<JsonValue, ParseError>(
            JsonValue::Array(numbers(ts)),
        ),
{
    let s = seq!['['] + comma_list(ts) + seq![']'];
    lemma_number_elements(ts, Seq::empty());
    assert(Seq::<JsonValue>::empty() + numbers(ts) == numbers(ts));
    assert(ws_end(s, 0) == 0);
    assert(skip_ws(s) == s);
    assert(s.drop_first() == comma_list(ts) + seq![']']);
}

/// A text that holds no `"`, put between two quotes, reads back as a string
/// with exactly that text; a backslash in it stays as it is.
pub proof fn lemma_string_reads_back(c: Seq<char>)
    requires
        forall|k: int| 0 <= k < c.len() ==> c[k] != '"',
    ensures
        parse_spec(seq!['"'] + c + seq!['"']) == Ok::<JsonValue, ParseError>(JsonValue::Str(c)),
{
    let s = seq!['"'] + c + seq!['"'];
    assert(ws_end(s, 0) == 0);
    assert(skip_ws(s) == s);
    lemma_quote_at_or_after(s, 1);
    assert(s[s.len() - 1] == '"');
    assert forall|k: int| 1 <= k < s.len() - 1 implies s[k] != '"' by {
        assert(s[k] == c[k - 1]);
    }
    assert(s.subrange(1, s.len() - 1) == c);
}

/// A text whose first character is `+` is not read: a number may not start
/// with a plus sign.
pub proof fn lemma_plus_sign_rejected(s: Seq<char>)
    requires
        s.len() > 0,
        s[0] == '+',
    ensures
        parse_spec(s) == Err::<JsonValue, ParseError>(ParseError::ValueError),
{
    assert(ws_end(s, 0) == 0);
    assert(skip_ws(s) == s);
}

/// Reading the same text twice gives equal values, or the same error: what
/// `parse` returns depends on the characters of the text alone.
pub proof fn lemma_parse_deterministic(
    t1: &str,
    t2: &str,
    r1: Result<JsonStruct, ParseError>,
    r2: Result<JsonStruct, ParseError>,
)
    requires
        t1@ == t2@,
        parse_outcome(r1) == parse_spec(t1@),
        parse_outcome(r2) == parse_spec(t2@),
    ensures
        parse_outcome(r1) == parse_outcome(r2),
{
}

} // verus!
