//! Basic JSON parser: builds a value tree from the tokens of a text.
//!
//! Objects and arrays are parsed by recursive descent. A number is checked
//! against the JSON number grammar and kept as its raw text; `null`, `true`
//! and `false` are the other literals.
use crate::json::errors::{JSONError, SpecJSONError};
use crate::json::structs::{tokens_view, JSONToken, SpecToken, SpecTokenData, TokenMetaData};
use crate::json::tokenizer::{tokenize, tokenize_spec};
use vstd::prelude::*;

verus! {

/// A member `key: value` of an object.
#[derive(Debug)]
pub struct JSONMember {
    pub key: String,
    pub value: JSONValue,
}

/// A number, kept as its raw text.
#[derive(Debug)]
pub struct JSONNumber {
    pub raw: String,
}

/// A JSON value.
#[derive(Debug)]
pub enum JSONValue {
    Object { members: Vec<JSONMember> },
    Array { elements: Vec<JSONValue> },
    Bool(bool),
    String(String),
    Number(JSONNumber),
    Null,
}

/// The mathematical value of an object member.
pub struct SpecMember {
    pub key: Seq<char>,
    pub value: SpecJSONValue,
}

/// The mathematical value of a JSON value.
pub enum SpecJSONValue {
    Object(Seq<SpecMember>),
    Array(Seq<SpecJSONValue>),
    Bool(bool),
    Str(Seq<char>),
    Number(Seq<char>),
    Null,
}

/// The mathematical value of `v`.
pub open spec fn value_view(v: JSONValue) -> SpecJSONValue
    decreases v,
{
    match v {
        JSONValue::Object { members } => SpecJSONValue::Object(
            Seq::new(
                members@.len(),
                |i: int|
                    if 0 <= i < members@.len() {
                        SpecMember { key: members@[i].key@, value: value_view(members@[i].value) }
                    } else {
                        SpecMember { key: Seq::empty(), value: SpecJSONValue::Null }
                    },
            ),
        ),
        JSONValue::Array { elements } => SpecJSONValue::Array(
            Seq::new(
                elements@.len(),
                |i: int|
                    if 0 <= i < elements@.len() {
                        value_view(elements@[i])
                    } else {
                        SpecJSONValue::Null
                    },
            ),
        ),
        JSONValue::Bool(b) => SpecJSONValue::Bool(b),
        JSONValue::String(s) => SpecJSONValue::Str(s@),
        JSONValue::Number(n) => SpecJSONValue::Number(n.raw@),
        JSONValue::Null => SpecJSONValue::Null,
    }
}

/// The mathematical value of an object member.
pub open spec fn member_view(m: JSONMember) -> SpecMember {
    SpecMember { key: m.key@, value: value_view(m.value) }
}

proof fn lemma_array_view(elements: Vec<JSONValue>)
    ensures
        value_view(JSONValue::Array { elements }) == SpecJSONValue::Array(
            elements@.map_values(|e: JSONValue| value_view(e)),
        ),
{
    let v = JSONValue::Array { elements };
    assert(value_view(v)->Array_0 =~= elements@.map_values(|e: JSONValue| value_view(e)));
}

proof fn lemma_object_view(members: Vec<JSONMember>)
    ensures
        value_view(JSONValue::Object { members }) == SpecJSONValue::Object(
            members@.map_values(|m: JSONMember| member_view(m)),
        ),
{
    let v = JSONValue::Object { members };
    assert(value_view(v)->Object_0 =~= members@.map_values(|m: JSONMember| member_view(m)));
}

/// The outcome of parsing from a token position: the value and the position
/// after it, or the error and the position where the parser stopped.
pub type ParseOutcome<T> = Result<(T, int), (SpecJSONError, int)>;

/// `c` is one of the digits `0`-`9`.
pub open spec fn is_digit(c: char) -> bool {
    '0' <= c && c <= '9'
}

/// The end of the run of digits of `s` that starts at `i`.
pub open spec fn digits_end(s: Seq<char>, i: int) -> int
    decreases s.len() - i,
{
    if 0 <= i < s.len() && is_digit(s[i]) {
        digits_end(s, i + 1)
    } else {
        i
    }
}

/// The end of the integer part of a number that starts at `i`: a lone `0`,
/// or a digit from `1` to `9` and the digits after it.
pub open spec fn int_part_end(s: Seq<char>, i: int) -> Option<int> {
    if 0 <= i < s.len() && s[i] == '0' {
        Some(i + 1)
    } else if 0 <= i < s.len() && '1' <= s[i] && s[i] <= '9' {
        Some(digits_end(s, i + 1))
    } else {
        None
    }
}

/// The end of the fraction that may start at `i`: none, or `.` and at least
/// one digit.
pub open spec fn frac_part_end(s: Seq<char>, i: int) -> Option<int> {
    if 0 <= i < s.len() && s[i] == '.' {
        if digits_end(s, i + 1) > i + 1 {
            Some(digits_end(s, i + 1))
        } else {
            None
        }
    } else {
        Some(i)
    }
}

/// The end of the exponent that may start at `i`: none, or `e` or `E`, an
/// optional sign and at least one digit.
pub open spec fn exp_part_end(s: Seq<char>, i: int) -> Option<int> {
    if 0 <= i < s.len() && (s[i] == 'e' || s[i] == 'E') {
        let k = if i + 1 < s.len() && (s[i + 1] == '+' || s[i + 1] == '-') {
            i + 2
        } else {
            i + 1
        };
        if digits_end(s, k) > k {
            Some(digits_end(s, k))
        } else {
            None
        }
    } else {
        Some(i)
    }
}

/// `s` is a JSON number: an optional `-`, an integer part without leading
/// zeros, an optional fraction and an optional exponent, and nothing more.
/// So `123`, `-0.34`, `5.6e+3` and `5e-3` are numbers, and `012`, `+45` and
/// `5.6e+3.6` are not.
pub open spec fn is_json_number(s: Seq<char>) -> bool {
    let a: int = if s.len() > 0 && s[0] == '-' {
        1
    } else {
        0
    };
    match int_part_end(s, a) {
        None => false,
        Some(b) => match frac_part_end(s, b) {
            None => false,
            Some(c) => exp_part_end(s, c) == Some(s.len() as int),
        },
    }
}

/// Every character of `d` is a digit.
pub open spec fn all_digits(d: Seq<char>) -> bool {
    forall|i: int| 0 <= i < d.len() ==> is_digit(#[trigger] d[i])
}

/// An integer part: `0`, or a digit from `1` to `9` followed by any digits.
pub open spec fn is_int_part(d: Seq<char>) -> bool {
    d == seq!['0'] || (d.len() >= 1 && '1' <= d[0] && d[0] <= '9' && all_digits(d))
}

/// A fraction: nothing, or `.` followed by one or more digits.
pub open spec fn is_frac_part(d: Seq<char>) -> bool {
    d.len() == 0 || (d.len() >= 2 && d[0] == '.' && all_digits(d.drop_first()))
}

/// An exponent: nothing, or `e` or `E`, an optional sign and one or more
/// digits.
pub open spec fn is_exp_part(d: Seq<char>) -> bool {
    d.len() == 0 || (d.len() >= 2 && (d[0] == 'e' || d[0] == 'E') && (all_digits(d.drop_first()) || (
    d.len() >= 3 && (d[1] == '+' || d[1] == '-') && all_digits(d.subrange(2, d.len() as int)))))
}

/// `s` is an optional minus sign, an integer part, a fraction and an
/// exponent, in this order: the JSON number grammar.
pub open spec fn number_parts(
    s: Seq<char>,
    sign: Seq<char>,
    int_part: Seq<char>,
    frac: Seq<char>,
    exp: Seq<char>,
) -> bool {
    &&& s == sign + int_part + frac + exp
    &&& (sign.len() == 0 || sign == seq!['-'])
    &&& is_int_part(int_part)
    &&& is_frac_part(frac)
    &&& is_exp_part(exp)
}

proof fn lemma_digits_end_props(s: Seq<char>, i: int)
    requires
        0 <= i <= s.len(),
    ensures
        i <= digits_end(s, i) <= s.len(),
        forall|k: int| i <= k < digits_end(s, i) ==> is_digit(#[trigger] s[k]),
        digits_end(s, i) == s.len() || !is_digit(s[digits_end(s, i)]),
    decreases s.len() - i,
{
    if i < s.len() && is_digit(s[i]) {
        lemma_digits_end_props(s, i + 1);
    }
}

proof fn lemma_digits_end_of_run(s: Seq<char>, i: int, j: int)
    requires
        0 <= i <= j <= s.len(),
        forall|k: int| i <= k < j ==> is_digit(#[trigger] s[k]),
        j == s.len() || !is_digit(s[j]),
    ensures
        digits_end(s, i) == j,
    decreases j - i,
{
    if i < j {
        lemma_digits_end_of_run(s, i + 1, j);
    }
}

proof fn lemma_number_parts_of_number(s: Seq<char>) -> (parts: (Seq<char>, Seq<char>, Seq<char>, Seq<char>))
    requires
        is_json_number(s),
    ensures
        number_parts(s, parts.0, parts.1, parts.2, parts.3),
{
    let n = s.len() as int;
    let a: int = if s.len() > 0 && s[0] == '-' {
        1
    } else {
        0
    };
    let b = int_part_end(s, a)->Some_0;
    let c = frac_part_end(s, b)->Some_0;
    if s[a] != '0' {
        lemma_digits_end_props(s, a + 1);
    }
    if c != b {
        lemma_digits_end_props(s, b + 1);
    }
    if c < n {
        lemma_digits_end_props(s, c + 1);
        if c + 1 < n {
            lemma_digits_end_props(s, c + 2);
        }
    }
    let sign = s.subrange(0, a);
    let ip = s.subrange(a, b);
    let fp = s.subrange(b, c);
    let ep = s.subrange(c, n);
    assert(s =~= sign + ip + fp + ep);
    if a == 1 {
        assert(sign =~= seq!['-']);
    }
    if s[a] == '0' {
        assert(ip =~= seq!['0']);
    } else {
        assert(all_digits(ip));
    }
    if c != b {
        assert(all_digits(fp.drop_first()));
    }
    if c < n {
        if c + 1 < n && (s[c + 1] == '+' || s[c + 1] == '-') {
            assert(all_digits(ep.subrange(2, ep.len() as int)));
        } else {
            assert(all_digits(ep.drop_first()));
        }
    }
    (sign, ip, fp, ep)
}

#[verifier::rlimit(30)]
proof fn lemma_number_of_number_parts(
    s: Seq<char>,
    sign: Seq<char>,
    ip: Seq<char>,
    fp: Seq<char>,
    ep: Seq<char>,
)
    requires
        number_parts(s, sign, ip, fp, ep),
    ensures
        is_json_number(s),
{
    let n = s.len() as int;
    let a = sign.len() as int;
    let b = a + ip.len();
    let c = b + fp.len();
    assert(forall|k: int| 0 <= k < ip.len() ==> s[a + k] == ip[k]);
    assert(forall|k: int| 0 <= k < fp.len() ==> s[b + k] == fp[k]);
    assert(forall|k: int| 0 <= k < ep.len() ==> s[c + k] == ep[k]);
    assert(s[a] == ip[0]);
    if ip != seq!['0'] {
        assert forall|k: int| a + 1 <= k < b implies is_digit(#[trigger] s[k]) by {
            assert(s[k] == ip[k - a]);
        }
        lemma_digits_end_of_run(s, a + 1, b);
    } else {
        assert(ip[0] == '0');
    }
    assert(int_part_end(s, a) == Some(b));
    if fp.len() > 0 {
        assert forall|k: int| b + 1 <= k < c implies is_digit(#[trigger] s[k]) by {
            assert(s[k] == fp[k - b]);
            assert(fp.drop_first()[k - b - 1] == fp[k - b]);
        }
        lemma_digits_end_of_run(s, b + 1, c);
    } else if b < n {
        assert(s[b] == ep[0]);
    }
    assert(frac_part_end(s, b) == Some(c));
    if ep.len() > 0 {
        if ep.len() >= 3 && (ep[1] == '+' || ep[1] == '-') && all_digits(
            ep.subrange(2, ep.len() as int),
        ) {
            assert forall|k: int| c + 2 <= k < n implies is_digit(#[trigger] s[k]) by {
                assert(s[k] == ep[k - c]);
                assert(ep.subrange(2, ep.len() as int)[k - c - 2] == ep[k - c]);
            }
            lemma_digits_end_of_run(s, c + 2, n);
        } else {
            assert(all_digits(ep.drop_first()));
            assert(is_digit(ep.drop_first()[0]));
            assert forall|k: int| c + 1 <= k < n implies is_digit(#[trigger] s[k]) by {
                assert(s[k] == ep[k - c]);
                assert(ep.drop_first()[k - c - 1] == ep[k - c]);
            }
            lemma_digits_end_of_run(s, c + 1, n);
        }
    }
    assert(exp_part_end(s, c) == Some(n));
}

/// `is_json_number` accepts exactly the texts of the JSON number grammar:
/// an optional `-`, an integer part without leading zeros, then an optional
/// fraction (`.` and any digits) and an optional exponent (`e` or `E`, an
/// optional sign and any digits).
pub proof fn lemma_json_number_grammar(s: Seq<char>)
    ensures
        is_json_number(s) <==> exists|sign: Seq<char>, ip: Seq<char>, fp: Seq<char>, ep: Seq<char>|
            #[trigger] number_parts(s, sign, ip, fp, ep),
{
    if is_json_number(s) {
        let parts = lemma_number_parts_of_number(s);
        assert(number_parts(s, parts.0, parts.1, parts.2, parts.3));
    }
    if exists|sign: Seq<char>, ip: Seq<char>, fp: Seq<char>, ep: Seq<char>|
        #[trigger] number_parts(s, sign, ip, fp, ep) {
        let (sign, ip, fp, ep) = choose|sign: Seq<char>, ip: Seq<char>, fp: Seq<char>, ep: Seq<char>|
            #[trigger] number_parts(s, sign, ip, fp, ep);
        lemma_number_of_number_parts(s, sign, ip, fp, ep);
    }
}

/// The value that the literal token `t`, with text `l`, stands for, or the
/// error for a text that is neither `null`, `true`, `false` nor a number.
pub open spec fn literal_value(t: SpecTokenData, l: Seq<char>) -> Result<SpecJSONValue, SpecJSONError> {
    if l == "null"@ {
        Ok(SpecJSONValue::Null)
    } else if l == "true"@ {
        Ok(SpecJSONValue::Bool(true))
    } else if l == "false"@ {
        Ok(SpecJSONValue::Bool(false))
    } else if is_json_number(l) {
        Ok(SpecJSONValue::Number(l))
    } else {
        Err(SpecJSONError::ParserError { message: "Invalid number"@, token: t })
    }
}

/// A literal token other than `null`, `true` and `false` parses to the
/// number with its text exactly when the text follows the JSON number
/// grammar, and is an error otherwise.
pub proof fn lemma_parse_number_token(ts: Seq<SpecTokenData>, p: int, l: Seq<char>)
    requires
        0 <= p < ts.len(),
        ts[p].token == SpecToken::Literal(l),
        l != "null"@,
        l != "true"@,
        l != "false"@,
    ensures
        (exists|sign: Seq<char>, ip: Seq<char>, fp: Seq<char>, ep: Seq<char>|
            #[trigger] number_parts(l, sign, ip, fp, ep)) ==> parse_node(ts, p) == Ok::<
            _,
            (SpecJSONError, int),
        >((SpecJSONValue::Number(l), p + 1)),
        !(exists|sign: Seq<char>, ip: Seq<char>, fp: Seq<char>, ep: Seq<char>|
            #[trigger] number_parts(l, sign, ip, fp, ep)) ==> parse_node(ts, p) is Err,
{
    lemma_json_number_grammar(l);
}

/// The value that starts at token `p`.
pub open spec fn parse_node(ts: Seq<SpecTokenData>, p: int) -> ParseOutcome<SpecJSONValue>
    decreases ts.len() - p, 0nat,
{
    if p < 0 || p >= ts.len() {
        Err((SpecJSONError::UnexpectedEOF, p))
    } else {
        let t = ts[p];
        match t.token {
            SpecToken::CurlyOpen => parse_object(ts, p + 1, Seq::empty()),
            SpecToken::BracketOpen => parse_array(ts, p + 1),
            SpecToken::Str(s) => Ok((SpecJSONValue::Str(s), p + 1)),
            SpecToken::Literal(l) => match literal_value(t, l) {
                Ok(v) => Ok((v, p + 1)),
                Err(e) => Err((e, p + 1)),
            },
            _ => Err(
                (SpecJSONError::ParserError { message: "Unexpected token"@, token: t }, p + 1),
            ),
        }
    }
}

/// The array whose elements start at token `p` (after `[`): empty if token
/// `p` is `]`, else a first element and the rest.
///
/// The position check after the first element always passes
/// (`lemma_parse_node_advances`); it only makes the recursion visibly
/// terminate.
pub open spec fn parse_array(ts: Seq<SpecTokenData>, p: int) -> ParseOutcome<SpecJSONValue>
    decreases ts.len() - p, 1nat,
{
    if 0 <= p < ts.len() && ts[p].token is BracketClose {
        Ok((SpecJSONValue::Array(Seq::empty()), p + 1))
    } else {
        match parse_node(ts, p) {
            Ok((v, q)) => if p < q <= ts.len() {
                parse_array_rest(ts, q, seq![v])
            } else {
                Err((SpecJSONError::UnexpectedEOF, q))
            },
            Err(e) => Err(e),
        }
    }
}

/// The rest of an array after the elements `elems`, from token `p`.
pub open spec fn parse_array_rest(
    ts: Seq<SpecTokenData>,
    p: int,
    elems: Seq<SpecJSONValue>,
) -> ParseOutcome<SpecJSONValue>
    decreases ts.len() - p, 2nat,
{
    if p < 0 || p >= ts.len() {
        Err((SpecJSONError::UnexpectedEOF, p))
    } else {
        let t = ts[p];
        match t.token {
            SpecToken::BracketClose => Ok((SpecJSONValue::Array(elems), p + 1)),
            SpecToken::Comma => match parse_node(ts, p + 1) {
                Ok((v, q)) => if p < q <= ts.len() {
                    parse_array_rest(ts, q, elems.push(v))
                } else {
                    Err((SpecJSONError::UnexpectedEOF, q))
                },
                Err(e) => Err(e),
            },
            _ => Err(
                (
                    SpecJSONError::ParserError { message: "Unexpected token in array"@, token: t },
                    p + 1,
                ),
            ),
        }
    }
}

/// The next member of an object from token `p`, or `None` at a `}`.
pub open spec fn parse_member(ts: Seq<SpecTokenData>, p: int) -> ParseOutcome<Option<SpecMember>>
    decreases ts.len() - p, 1nat,
{
    if p < 0 || p >= ts.len() {
        Err((SpecJSONError::UnexpectedEOF, p))
    } else {
        let t = ts[p];
        match t.token {
            SpecToken::CurlyClose => Ok((None, p + 1)),
            SpecToken::Str(key) => if p + 1 >= ts.len() {
                Err((SpecJSONError::UnexpectedEOF, p + 1))
            } else {
                let t2 = ts[p + 1];
                match t2.token {
                    SpecToken::Colon => match parse_node(ts, p + 2) {
                        Ok((v, q)) => Ok((Some(SpecMember { key, value: v }), q)),
                        Err(e) => Err(e),
                    },
                    _ => Err((SpecJSONError::UnexpectedToken { token: t2 }, p + 2)),
                }
            },
            _ => Err((SpecJSONError::UnexpectedToken { token: t }, p + 1)),
        }
    }
}

/// The rest of an object after the members `members`, from token `p`. A `}`
/// ends the object only where no member has been read yet or right after a
/// member: after a comma a member must follow.
///
/// As in `parse_array`, the check `p <= q` always passes.
pub open spec fn parse_object(
    ts: Seq<SpecTokenData>,
    p: int,
    members: Seq<SpecMember>,
) -> ParseOutcome<SpecJSONValue>
    decreases ts.len() - p, 2nat,
{
    match parse_member(ts, p) {
        Ok((None, q)) => if members.len() == 0 {
            Ok((SpecJSONValue::Object(members), q))
        } else {
            Err((SpecJSONError::UnexpectedToken { token: ts[p] }, q))
        },
        Ok((Some(m), q)) => if q < 0 || q >= ts.len() {
            Err((SpecJSONError::UnexpectedEOF, q))
        } else {
            let t = ts[q];
            match t.token {
                SpecToken::Comma => if p <= q {
                    parse_object(ts, q + 1, members.push(m))
                } else {
                    Err((SpecJSONError::UnexpectedEOF, q))
                },
                SpecToken::CurlyClose => Ok((SpecJSONValue::Object(members.push(m)), q + 1)),
                _ => Err((SpecJSONError::UnexpectedToken { token: t }, q + 1)),
            }
        },
        Err(e) => Err(e),
    }
}

/// The value of a whole text: its tokens must form exactly one value.
pub open spec fn parse_data_spec(chars: Seq<char>) -> Result<SpecJSONValue, SpecJSONError> {
    match tokenize_spec(chars) {
        Err(e) => Err(e),
        Ok(ts) => match parse_node(ts, 0) {
            Err((e, _)) => Err(e),
            Ok((v, q)) => if q < ts.len() {
                Err(SpecJSONError::UnexpectedToken { token: ts[q] })
            } else {
                Ok(v)
            },
        },
    }
}

/// The token position at which a parse stopped.
pub open spec fn outcome_pos<T>(r: ParseOutcome<T>) -> int {
    match r {
        Ok((_, q)) => q,
        Err((_, q)) => q,
    }
}

/// A parse that starts at token `p` stops at or after `p` and within the
/// tokens; a value read from an existing token ends after it. So the
/// position checks in `parse_array`, `parse_array_rest` and `parse_object`
/// always pass on the positions the parser reaches.
pub proof fn lemma_parse_node_advances(ts: Seq<SpecTokenData>, p: int)
    requires
        0 <= p <= ts.len(),
    ensures
        p <= outcome_pos(parse_node(ts, p)) <= ts.len(),
        p < ts.len() ==> p < outcome_pos(parse_node(ts, p)),
        parse_node(ts, p) is Ok ==> p < outcome_pos(parse_node(ts, p)),
    decreases ts.len() - p, 0nat,
{
    if p < ts.len() {
        match ts[p].token {
            SpecToken::CurlyOpen => lemma_parse_object_advances(ts, p + 1, Seq::empty()),
            SpecToken::BracketOpen => lemma_parse_array_advances(ts, p + 1),
            _ => {},
        }
    }
}

proof fn lemma_parse_array_advances(ts: Seq<SpecTokenData>, p: int)
    requires
        0 <= p <= ts.len(),
    ensures
        p <= outcome_pos(parse_array(ts, p)) <= ts.len(),
        parse_array(ts, p) is Ok ==> p < outcome_pos(parse_array(ts, p)),
    decreases ts.len() - p, 1nat,
{
    lemma_parse_node_advances(ts, p);
    match parse_node(ts, p) {
        Ok((v, q)) => lemma_parse_array_rest_advances(ts, q, seq![v]),
        Err(_) => {},
    }
}

proof fn lemma_parse_array_rest_advances(ts: Seq<SpecTokenData>, p: int, elems: Seq<SpecJSONValue>)
    requires
        0 <= p <= ts.len(),
    ensures
        p <= outcome_pos(parse_array_rest(ts, p, elems)) <= ts.len(),
        parse_array_rest(ts, p, elems) is Ok ==> p < outcome_pos(parse_array_rest(ts, p, elems)),
    decreases ts.len() - p, 2nat,
{
    if p < ts.len() {
        if ts[p].token is Comma {
            lemma_parse_node_advances(ts, p + 1);
            match parse_node(ts, p + 1) {
                Ok((v, q)) => lemma_parse_array_rest_advances(ts, q, elems.push(v)),
                Err(_) => {},
            }
        }
    }
}

proof fn lemma_parse_member_advances(ts: Seq<SpecTokenData>, p: int)
    requires
        0 <= p <= ts.len(),
    ensures
        p <= outcome_pos(parse_member(ts, p)) <= ts.len(),
        parse_member(ts, p) is Ok ==> p < outcome_pos(parse_member(ts, p)),
    decreases ts.len() - p, 1nat,
{
    if p + 1 < ts.len() && ts[p].token is Str && ts[p + 1].token is Colon {
        lemma_parse_node_advances(ts, p + 2);
    }
}

proof fn lemma_parse_object_advances(ts: Seq<SpecTokenData>, p: int, members: Seq<SpecMember>)
    requires
        0 <= p <= ts.len(),
    ensures
        p <= outcome_pos(parse_object(ts, p, members)) <= ts.len(),
        parse_object(ts, p, members) is Ok ==> p < outcome_pos(parse_object(ts, p, members)),
    decreases ts.len() - p, 2nat,
{
    lemma_parse_member_advances(ts, p);
    match parse_member(ts, p) {
        Ok((Some(m), q)) => {
            if q < ts.len() && ts[q].token is Comma {
                lemma_parse_object_advances(ts, q + 1, members.push(m));
            }
        },
        _ => {},
    }
}

/// The end of the run of digits of `cs` that starts at `i`.
fn digits_end_at(cs: &Vec<char>, i: usize) -> (r: usize)
    requires
        i <= cs@.len(),
    ensures
        r == digits_end(cs@, i as int),
        i <= r <= cs@.len(),
{
    let mut j = i;
    while j < cs.len() && '0' <= cs[j] && cs[j] <= '9'
        invariant
            i <= j <= cs@.len(),
            digits_end(cs@, i as int) == digits_end(cs@, j as int),
        decreases cs@.len() - j,
    {
        j = j + 1;
    }
    j
}

/// Whether `raw` follows the JSON number grammar.
fn is_number_text(raw: &String) -> (r: bool)
    ensures
        r == is_json_number(raw@),
{
    let mut cs: Vec<char> = Vec::new();
    for c in it: raw.as_str().chars()
        invariant
            it.seq() == raw@,
            cs@ == raw@.take(it.index() as int),
    {
        assert(raw@.take(it.index() + 1) =~= cs@.push(c));
        cs.push(c);
    }
    assert(cs@ =~= raw@);
    let n = cs.len();
    let a: usize = if n > 0 && cs[0] == '-' {
        1
    } else {
        0
    };
    let b: usize = if a < n && cs[a] == '0' {
        a + 1
    } else if a < n && '1' <= cs[a] && cs[a] <= '9' {
        digits_end_at(&cs, a + 1)
    } else {
        return false;
    };
    let c: usize = if b < n && cs[b] == '.' {
        let j = digits_end_at(&cs, b + 1);
        if j == b + 1 {
            return false;
        }
        j
    } else {
        b
    };
    let d: usize = if c < n && (cs[c] == 'e' || cs[c] == 'E') {
        let k: usize = if c + 1 < n && (cs[c + 1] == '+' || cs[c + 1] == '-') {
            c + 2
        } else {
            c + 1
        };
        let j = digits_end_at(&cs, k);
        if j == k {
            return false;
        }
        j
    } else {
        c
    };
    d == n
}

/// Parses a JSON number from the raw text of the literal token
/// `token_data`; the text is kept as it is. A text that does not follow the
/// JSON number grammar is an error.
fn parse_number(raw: String, token_data: &TokenMetaData) -> (r: Result<JSONNumber, JSONError>)
    ensures
        is_json_number(raw@) ==> (r matches Ok(n) && n.raw == raw),
        !is_json_number(raw@) ==> (r matches Err(e) && e@ == (SpecJSONError::ParserError {
            message: "Invalid number"@,
            token: token_data@,
        })),
{
    if is_number_text(&raw) {
        Ok(JSONNumber { raw })
    } else {
        let message = String::from_str("Invalid number");
        proof {
            reveal_strlit("Invalid number");
        }
        Err(JSONError::ParserError { message, token: token_data.duplicate() })
    }
}

/// The value of a literal token.
fn construct_literal(token_data: TokenMetaData) -> (r: Result<JSONValue, JSONError>)
    ensures
        match token_data.token@ {
            SpecToken::Literal(l) => match literal_value(token_data@, l) {
                Ok(v) => r matches Ok(x) && value_view(x) == v,
                Err(e) => r matches Err(x) && x@ == e,
            },
            _ => r matches Err(e) && e@ == (SpecJSONError::ParserError {
                message: "Unexpected literal token"@,
                token: token_data@,
            }),
        },
{
    let value = match &token_data.token {
        JSONToken::Literal(value) => value.clone(),
        _ => {
            return Err(
                JSONError::ParserError {
                    message: String::from_str("Unexpected literal token"),
                    token: token_data,
                },
            );
        },
    };
    if value == String::from_str("null") {
        Ok(JSONValue::Null)
    } else if value == String::from_str("true") {
        Ok(JSONValue::Bool(true))
    } else if value == String::from_str("false") {
        Ok(JSONValue::Bool(false))
    } else {
        match parse_number(value, &token_data) {
            Ok(n) => Ok(JSONValue::Number(n)),
            Err(e) => Err(e),
        }
    }
}

/// Parses the value that starts at token `pos`; returns the position after
/// it.
fn construct_next_node(tokens: &Vec<TokenMetaData>, pos: usize) -> (r: (
    Result<JSONValue, JSONError>,
    usize,
))
    requires
        pos <= tokens@.len(),
    ensures
        pos <= r.1 <= tokens@.len(),
        match r.0 {
            Ok(v) => pos < r.1 && parse_node(tokens_view(tokens@), pos as int) == Ok::<
                _,
                (SpecJSONError, int),
            >((value_view(v), r.1 as int)),
            Err(e) => parse_node(tokens_view(tokens@), pos as int) == Err::<(SpecJSONValue, int), _>(
                (e@, r.1 as int),
            ),
        },
    decreases tokens@.len() - pos, 0nat,
{
    if pos >= tokens.len() {
        return (Err(JSONError::UnexpectedEOF), pos);
    }
    let token_data = &tokens[pos];
    let next = pos + 1;
    match &token_data.token {
        JSONToken::CurlyOpen => construct_object(tokens, next),
        JSONToken::BracketOpen => construct_array(tokens, next),
        JSONToken::String(value) => (Ok(JSONValue::String(value.clone())), next),
        JSONToken::Literal(_) => (construct_literal(token_data.duplicate()), next),
        _ => (
            Err(
                JSONError::ParserError {
                    message: String::from_str("Unexpected token"),
                    token: token_data.duplicate(),
                },
            ),
            next,
        ),
    }
}

/// Parses an array whose elements start at token `pos` (after `[`).
fn construct_array(tokens: &Vec<TokenMetaData>, pos: usize) -> (r: (
    Result<JSONValue, JSONError>,
    usize,
))
    requires
        pos <= tokens@.len(),
    ensures
        pos <= r.1 <= tokens@.len(),
        match r.0 {
            Ok(v) => parse_array(tokens_view(tokens@), pos as int) == Ok::<
                _,
                (SpecJSONError, int),
            >((value_view(v), r.1 as int)),
            Err(e) => parse_array(tokens_view(tokens@), pos as int) == Err::<
                (SpecJSONValue, int),
                _,
            >((e@, r.1 as int)),
        },
    decreases tokens@.len() - pos, 1nat,
{
    let ghost ts = tokens_view(tokens@);
    let mut elements: Vec<JSONValue> = Vec::new();
    if pos < tokens.len() {
        if let JSONToken::BracketClose = tokens[pos].token {
            proof {
                lemma_array_view(elements);
            }
            assert(elements@.map_values(|e: JSONValue| value_view(e)) =~= Seq::<
                SpecJSONValue,
            >::empty());
            return (Ok(JSONValue::Array { elements }), pos + 1);
        }
    }
    let (first, mut cur) = construct_next_node(tokens, pos);
    match first {
        Ok(value) => elements.push(value),
        Err(err) => {
            return (Err(err), cur);
        },
    }
    assert(elements@.map_values(|e: JSONValue| value_view(e)) =~= seq![
        value_view(elements@[0]),
    ]);
    while cur < tokens.len()
        invariant
            ts == tokens_view(tokens@),
            pos < cur <= tokens@.len(),
            parse_array(ts, pos as int) == parse_array_rest(
                ts,
                cur as int,
                elements@.map_values(|e: JSONValue| value_view(e)),
            ),
        decreases tokens@.len() - cur,
    {
        let token_data = &tokens[cur];
        let next = cur + 1;
        match &token_data.token {
            JSONToken::BracketClose => {
                proof {
                    lemma_array_view(elements);
                }
                let v = JSONValue::Array { elements };
                return (Ok(v), next);
            },
            JSONToken::Comma => {
                let (item, after) = construct_next_node(tokens, next);
                match item {
                    Ok(value) => {
                        let ghost old_ev = elements@.map_values(|e: JSONValue| value_view(e));
                        let ghost vv = value_view(value);
                        elements.push(value);
                        assert(elements@.map_values(|e: JSONValue| value_view(e)) =~= old_ev.push(
                            vv,
                        ));
                        cur = after;
                    },
                    Err(e) => {
                        return (Err(e), after);
                    },
                }
            },
            _ => {
                return (
                    Err(
                        JSONError::ParserError {
                            message: String::from_str("Unexpected token in array"),
                            token: token_data.duplicate(),
                        },
                    ),
                    next,
                );
            },
        }
    }
    (Err(JSONError::UnexpectedEOF), cur)
}

/// Parses the next member of an object from token `pos`; `None` at a `}`.
fn construct_next_object_member(tokens: &Vec<TokenMetaData>, pos: usize) -> (r: (
    Result<Option<JSONMember>, JSONError>,
    usize,
))
    requires
        pos <= tokens@.len(),
    ensures
        pos <= r.1 <= tokens@.len(),
        match r.0 {
            Ok(m) => pos < r.1 && parse_member(tokens_view(tokens@), pos as int) == Ok::<
                _,
                (SpecJSONError, int),
            >(
                (
                    match m {
                        Some(m) => Some(member_view(m)),
                        None => None,
                    },
                    r.1 as int,
                ),
            ),
            Err(e) => parse_member(tokens_view(tokens@), pos as int) == Err::<
                (Option<SpecMember>, int),
                _,
            >((e@, r.1 as int)),
        },
    decreases tokens@.len() - pos, 1nat,
{
    if pos >= tokens.len() {
        return (Err(JSONError::UnexpectedEOF), pos);
    }
    let token_data = &tokens[pos];
    let key = match &token_data.token {
        JSONToken::CurlyClose => {
            return (Ok(None), pos + 1);
        },
        JSONToken::String(key) => key.clone(),
        _ => {
            return (Err(JSONError::UnexpectedToken { token: token_data.duplicate() }), pos + 1);
        },
    };
    if pos + 1 >= tokens.len() {
        return (Err(JSONError::UnexpectedEOF), pos + 1);
    }
    let token_data = &tokens[pos + 1];
    match token_data.token {
        JSONToken::Colon => {},
        _ => {
            return (Err(JSONError::UnexpectedToken { token: token_data.duplicate() }), pos + 2);
        },
    }
    let (value, after) = construct_next_node(tokens, pos + 2);
    match value {
        Ok(value) => (Ok(Some(JSONMember { key, value })), after),
        Err(e) => (Err(e), after),
    }
}

/// Parses an object whose members start at token `pos` (after `{`).
fn construct_object(tokens: &Vec<TokenMetaData>, pos: usize) -> (r: (
    Result<JSONValue, JSONError>,
    usize,
))
    requires
        pos <= tokens@.len(),
    ensures
        pos <= r.1 <= tokens@.len(),
        match r.0 {
            Ok(v) => parse_object(tokens_view(tokens@), pos as int, Seq::empty()) == Ok::<
                _,
                (SpecJSONError, int),
            >((value_view(v), r.1 as int)),
            Err(e) => parse_object(tokens_view(tokens@), pos as int, Seq::empty()) == Err::<
                (SpecJSONValue, int),
                _,
            >((e@, r.1 as int)),
        },
    decreases tokens@.len() - pos, 2nat,
{
    let ghost ts = tokens_view(tokens@);
    let mut members: Vec<JSONMember> = Vec::new();
    let mut cur = pos;
    assert(members@.map_values(|m: JSONMember| member_view(m)) =~= Seq::<SpecMember>::empty());
    loop
        invariant
            ts == tokens_view(tokens@),
            pos <= cur <= tokens@.len(),
            parse_object(ts, pos as int, Seq::empty()) == parse_object(
                ts,
                cur as int,
                members@.map_values(|m: JSONMember| member_view(m)),
            ),
        decreases tokens@.len() - cur,
    {
        let ghost mv = members@.map_values(|m: JSONMember| member_view(m));
        let (member, after) = construct_next_object_member(tokens, cur);
        match member {
            Err(e) => {
                return (Err(e), after);
            },
            Ok(None) => {
                if members.len() > 0 {
                    return (
                        Err(JSONError::UnexpectedToken { token: tokens[cur].duplicate() }),
                        after,
                    );
                }
                proof {
                    lemma_object_view(members);
                }
                let v = JSONValue::Object { members };
                return (Ok(v), after);
            },
            Ok(Some(member)) => {
                let ghost m = member_view(member);
                members.push(member);
                assert(members@.map_values(|m: JSONMember| member_view(m)) =~= mv.push(m));
                if after >= tokens.len() {
                    return (Err(JSONError::UnexpectedEOF), after);
                }
                let token_data = &tokens[after];
                match &token_data.token {
                    JSONToken::Comma => {
                        cur = after + 1;
                    },
                    JSONToken::CurlyClose => {
                        proof {
                            lemma_object_view(members);
                        }
                        let v = JSONValue::Object { members };
                        return (Ok(v), after + 1);
                    },
                    _ => {
                        return (
                            Err(JSONError::UnexpectedToken { token: token_data.duplicate() }),
                            after + 1,
                        );
                    },
                }
            },
        }
    }
}

/// Parses a JSON text into a value.
pub fn parse_data(raw: &str) -> (r: Result<JSONValue, JSONError>)
    requires
        raw@.len() <= i32::MAX,
    ensures
        match r {
            Ok(v) => parse_data_spec(raw@) == Ok::<_, SpecJSONError>(value_view(v)),
            Err(e) => parse_data_spec(raw@) == Err::<SpecJSONValue, _>(e@),
        },
{
    let tokens = match tokenize(raw) {
        Ok(tokens) => tokens,
        Err(e) => {
            return Err(e);
        },
    };
    let (root, after) = construct_next_node(&tokens, 0);
    let root = match root {
        Ok(root) => root,
        Err(e) => {
            return Err(e);
        },
    };
    if after < tokens.len() {
        return Err(JSONError::UnexpectedToken { token: tokens[after].duplicate() });
    }
    Ok(root)
}

} // verus!
