pub mod identifier_parser;
pub mod number_parser;
pub mod string_parser;

use vstd::prelude::*;

use crate::json::field::{
    model_members, obj_insert_exec, JsonField, ParseJsonError, ParseJsonResult, SpecField,
};
use vstd::string::StrSliceExecFns;

verus! {

/// Whether the parser skips this character between tokens.
pub open spec fn is_ws(c: char) -> bool {
    c == ' ' || c == '\n'
}

/// Whether this character is a decimal digit.
pub open spec fn is_digit(c: char) -> bool {
    '0' <= c && c <= '9'
}

/// Whether this character can stand in an identifier literal.
pub open spec fn is_ident_char(c: char) -> bool {
    'a' <= c && c <= 'z'
}

/// The numeric value of a digit character; ten marks a non-digit.
pub open spec fn char_digit(c: char) -> u8 {
    match c {
        '0' => 0u8,
        '1' => 1u8,
        '2' => 2u8,
        '3' => 3u8,
        '4' => 4u8,
        '5' => 5u8,
        '6' => 6u8,
        '7' => 7u8,
        '8' => 8u8,
        '9' => 9u8,
        _ => 10u8,
    }
}

/// How many whitespace characters run from index `i`.
pub open spec fn ws_count(s: Seq<char>, i: int) -> int
    decreases s.len() - i,
{
    if i < 0 || i >= s.len() || !is_ws(s[i]) {
        0
    } else {
        1 + ws_count(s, i + 1)
    }
}

/// How many characters before the next double quote, starting at `i`.
pub open spec fn str_body_count(s: Seq<char>, i: int) -> int
    decreases s.len() - i,
{
    if i < 0 || i >= s.len() || s[i] == '"' {
        0
    } else {
        1 + str_body_count(s, i + 1)
    }
}

/// How many digit characters run from index `i`.
pub open spec fn digits_count(s: Seq<char>, i: int) -> int
    decreases s.len() - i,
{
    if i < 0 || i >= s.len() || !is_digit(s[i]) {
        0
    } else {
        1 + digits_count(s, i + 1)
    }
}

/// How many identifier characters run from index `i`.
pub open spec fn ident_count(s: Seq<char>, i: int) -> int
    decreases s.len() - i,
{
    if i < 0 || i >= s.len() || !is_ident_char(s[i]) {
        0
    } else {
        1 + ident_count(s, i + 1)
    }
}

/// The number a run of digit characters denotes, most significant first.
pub open spec fn digits_val(digits: Seq<char>) -> int
    decreases digits.len(),
{
    if digits.len() == 0 {
        0
    } else {
        digits_val(digits.drop_last()) * 10 + char_digit(digits.last()) as int
    }
}

/// The digit values of a run of digit characters.
pub open spec fn digit_bytes(digits: Seq<char>) -> Seq<u8> {
    digits.map_values(|c: char| char_digit(c))
}

/// A whitespace run has a non-negative length.
pub proof fn lemma_ws_count_nonneg(s: Seq<char>, i: int)
    ensures
        ws_count(s, i) >= 0,
    decreases s.len() - i,
{
    if !(i < 0 || i >= s.len() || !is_ws(s[i])) {
        lemma_ws_count_nonneg(s, i + 1);
    }
}

/// A string body has a non-negative length.
pub proof fn lemma_str_body_count_nonneg(s: Seq<char>, i: int)
    ensures
        str_body_count(s, i) >= 0,
    decreases s.len() - i,
{
    if !(i < 0 || i >= s.len() || s[i] == '"') {
        lemma_str_body_count_nonneg(s, i + 1);
    }
}

/// A digit run has a non-negative length.
pub proof fn lemma_digits_count_nonneg(s: Seq<char>, i: int)
    ensures
        digits_count(s, i) >= 0,
    decreases s.len() - i,
{
    if !(i < 0 || i >= s.len() || !is_digit(s[i])) {
        lemma_digits_count_nonneg(s, i + 1);
    }
}

/// An identifier run has a non-negative length.
pub proof fn lemma_ident_count_nonneg(s: Seq<char>, i: int)
    ensures
        ident_count(s, i) >= 0,
    decreases s.len() - i,
{
    if !(i < 0 || i >= s.len() || !is_ident_char(s[i])) {
        lemma_ident_count_nonneg(s, i + 1);
    }
}

/// What the specification parser returns: the parsed model value and the
/// index of the last character consumed, or the error.
pub type SpecParse = Result<(SpecField, int), ParseJsonError>;

/// The meaning of a number literal starting at `i`: an optional minus
/// sign, a digit run, and at most one fractional digit run. A second
/// decimal point, a missing digit, or a magnitude beyond the 64-bit
/// range is an error.
pub open spec fn spec_number(s: Seq<char>, i: int) -> SpecParse {
    let neg = 0 <= i < s.len() && s[i] == '-';
    let i1 = if neg {
        i + 1
    } else {
        i
    };
    if i1 >= s.len() {
        Result::Err(ParseJsonError::UnexpectedEndOfInput)
    } else if !is_digit(s[i1]) {
        Result::Err(ParseJsonError::UnexpectedCharacter(s[i1]))
    } else {
        let d1 = i1 + digits_count(s, i1);
        let whole = digits_val(s.subrange(i1, d1));
        if d1 < s.len() && s[d1] == '.' {
            let d2 = d1 + 1 + digits_count(s, d1 + 1);
            if d2 < s.len() && s[d2] == '.' {
                Result::Err(ParseJsonError::DuplicateDecimalPoint)
            } else if d2 == d1 + 1 {
                if d2 >= s.len() {
                    Result::Err(ParseJsonError::UnexpectedEndOfInput)
                } else {
                    Result::Err(ParseJsonError::UnexpectedCharacter(s[d2]))
                }
            } else if whole > u64::MAX {
                Result::Err(ParseJsonError::NumberOutOfRange)
            } else {
                Result::Ok(
                    (
                        SpecField::Float(neg, whole as u64, digit_bytes(s.subrange(d1 + 1, d2))),
                        d2 - 1,
                    ),
                )
            }
        } else if neg {
            if whole > 0x8000_0000_0000_0000 {
                Result::Err(ParseJsonError::NumberOutOfRange)
            } else {
                Result::Ok((SpecField::Int((-whole) as i64), d1 - 1))
            }
        } else {
            if whole > i64::MAX {
                Result::Err(ParseJsonError::NumberOutOfRange)
            } else {
                Result::Ok((SpecField::Int(whole as i64), d1 - 1))
            }
        }
    }
}

/// The meaning of an identifier literal starting at `i`: exactly `true`,
/// `false` or `null`.
pub open spec fn spec_identifier(s: Seq<char>, i: int) -> SpecParse {
    if i < 0 || i > s.len() {
        Result::Err(ParseJsonError::UnrecognizedIdentifier)
    } else {
        spec_identifier_at(s, i)
    }
}

/// The meaning of an identifier literal at a position inside the input.
pub open spec fn spec_identifier_at(s: Seq<char>, i: int) -> SpecParse {
    let n = ident_count(s, i);
    let word = s.subrange(i, i + n);
    if word == seq!['t', 'r', 'u', 'e'] {
        Result::Ok((SpecField::Boolean(true), i + n - 1))
    } else if word == seq!['f', 'a', 'l', 's', 'e'] {
        Result::Ok((SpecField::Boolean(false), i + n - 1))
    } else if word == seq!['n', 'u', 'l', 'l'] {
        Result::Ok((SpecField::Null, i + n - 1))
    } else {
        Result::Err(ParseJsonError::UnrecognizedIdentifier)
    }
}

/// The meaning of a value starting at or after `i`: whitespace, then one
/// dispatch on the first significant character. On success the returned
/// index is that of the value's last character, the closing delimiter for
/// containers.
pub open spec fn spec_value(s: Seq<char>, i: int) -> SpecParse
    decreases s.len() - i, 0int
    via Self_value_decreases
{
    let j = i + ws_count(s, i);
    if j >= s.len() {
        Result::Err(ParseJsonError::UnexpectedEndOfInput)
    } else {
        let c = s[j];
        if c == '{' {
            match spec_members(s, j + 1, Seq::empty(), true) {
                Result::Ok((members, end)) => Result::Ok((SpecField::Object(members), end)),
                Result::Err(e) => Result::Err(e),
            }
        } else if c == '[' {
            match spec_elems(s, j + 1, Seq::empty(), true) {
                Result::Ok((elems, end)) => Result::Ok((SpecField::Array(elems), end)),
                Result::Err(e) => Result::Err(e),
            }
        } else if c == '"' {
            let q = j + 1 + str_body_count(s, j + 1);
            if q >= s.len() {
                Result::Err(ParseJsonError::UnterminatedString)
            } else {
                Result::Ok((SpecField::String(s.subrange(j + 1, q)), q))
            }
        } else if c == '-' || is_digit(c) {
            spec_number(s, j)
        } else if is_ident_char(c) {
            spec_identifier(s, j)
        } else if c == '}' {
            Result::Err(ParseJsonError::UnmatchedClosingBrace)
        } else if c == ']' {
            Result::Err(ParseJsonError::UnmatchedClosingBracket)
        } else {
            Result::Err(ParseJsonError::UnexpectedCharacter(c))
        }
    }
}

/// The meaning of an object body from `i` on: members accumulated with
/// map semantics until the closing brace. A closing brace right away is
/// accepted only where no comma demands another member; every key must be
/// a non-empty quoted string followed directly by a colon.
pub open spec fn spec_members(
    s: Seq<char>,
    i: int,
    acc: Seq<(Seq<char>, SpecField)>,
    allow_close: bool,
) -> Result<(Seq<(Seq<char>, SpecField)>, int), ParseJsonError>
    decreases s.len() - i, 1int
    via Self_members_decreases
{
    let j = i + ws_count(s, i);
    if j >= s.len() {
        Result::Err(ParseJsonError::UnexpectedEndOfInput)
    } else if allow_close && s[j] == '}' {
        Result::Ok((acc, j))
    } else if s[j] != '"' {
        Result::Err(ParseJsonError::NonStringObjectKey)
    } else {
        let q = j + 1 + str_body_count(s, j + 1);
        if q >= s.len() {
            Result::Err(ParseJsonError::UnterminatedString)
        } else if q == j + 1 {
            Result::Err(ParseJsonError::EmptyObjectKey)
        } else if q + 1 >= s.len() {
            Result::Err(ParseJsonError::UnexpectedEndOfInput)
        } else if s[q + 1] != ':' {
            Result::Err(ParseJsonError::UnexpectedCharacter(s[q + 1]))
        } else {
            let key = s.subrange(j + 1, q);
            match spec_value(s, q + 2) {
                Result::Err(e) => Result::Err(e),
                Result::Ok((v, end)) => {
                    let grown = crate::json::field::sobj_insert(acc, key, v);
                    let t = end + 1 + ws_count(s, end + 1);
                    if t >= s.len() {
                        Result::Err(ParseJsonError::UnexpectedEndOfInput)
                    } else if s[t] == '}' {
                        Result::Ok((grown, t))
                    } else if s[t] == ',' {
                        let next = if t + 1 > i {
                            t + 1
                        } else {
                            i + 1
                        };
                        spec_members(s, next, grown, false)
                    } else {
                        Result::Err(ParseJsonError::UnexpectedCharacter(s[t]))
                    }
                },
            }
        }
    }
}

/// The meaning of an array body from `i` on: elements in order until the
/// closing bracket. A closing bracket right away is accepted only where
/// no comma demands another element.
pub open spec fn spec_elems(
    s: Seq<char>,
    i: int,
    acc: Seq<SpecField>,
    allow_close: bool,
) -> Result<(Seq<SpecField>, int), ParseJsonError>
    decreases s.len() - i, 1int
    via Self_elems_decreases
{
    let j = i + ws_count(s, i);
    if j >= s.len() {
        Result::Err(ParseJsonError::UnexpectedEndOfInput)
    } else if allow_close && s[j] == ']' {
        Result::Ok((acc, j))
    } else {
        match spec_value(s, i) {
            Result::Err(e) => Result::Err(e),
            Result::Ok((v, end)) => {
                let grown = acc.push(v);
                let t = end + 1 + ws_count(s, end + 1);
                if t >= s.len() {
                    Result::Err(ParseJsonError::UnexpectedEndOfInput)
                } else if s[t] == ']' {
                    Result::Ok((grown, t))
                } else if s[t] == ',' {
                    let next = if t + 1 > i {
                        t + 1
                    } else {
                        i + 1
                    };
                    spec_elems(s, next, grown, false)
                } else {
                    Result::Err(ParseJsonError::UnexpectedCharacter(s[t]))
                }
            },
        }
    }
}

/// Whether an executable parse result and a specification parse result
/// say the same thing.
pub open spec fn value_matches(r: ParseJsonResult, sr: SpecParse) -> bool {
    match (r, sr) {
        (Result::Ok(p), Result::Ok(q)) => p.0.model() == q.0 && p.1 as int == q.1,
        (Result::Err(a), Result::Err(b)) => a == b,
        _ => false,
    }
}

/// The characters of a string slice, one per Unicode scalar value.
pub(crate) fn str_to_chars(s: &str) -> (r: Vec<char>)
    ensures
        r@ == s@,
{
    let len = s.unicode_len();
    let mut v: Vec<char> = Vec::new();
    let mut k: usize = 0;
    while k < len
        invariant
            0 <= k <= len,
            len == s@.len(),
            v@ == s@.subrange(0, k as int),
        decreases len - k,
    {
        v.push(s.get_char(k));
        k = k + 1;
        proof {
            assert(v@ =~= s@.subrange(0, k as int));
        }
    }
    proof {
        assert(v@ =~= s@);
    }
    v
}

/// The index of the first non-whitespace character at or after `i`.
fn skip_ws(chars: &Vec<char>, i: usize) -> (j: usize)
    ensures
        i <= j,
        j as int == i + ws_count(chars@, i as int),
        i as int <= chars@.len() ==> j as int <= chars@.len(),
{
    let mut j = i;
    while j < chars.len() && (chars[j] == ' ' || chars[j] == '\n')
        invariant
            i <= j,
            i + ws_count(chars@, i as int) == j + ws_count(chars@, j as int),
            i as int <= chars@.len() ==> j as int <= chars@.len(),
        decreases chars@.len() - j,
    {
        j = j + 1;
    }
    j
}

/// The first character after `start_index` that is not whitespace, with
/// its index, if the input holds one.
pub fn peek_next_non_white_space_char(start_index: usize, chars: &Vec<char>) -> (r: Option<
    (char, usize),
>)
    requires
        start_index < usize::MAX,
    ensures
        ({
            let j = start_index + 1 + ws_count(chars@, start_index as int + 1);
            match r {
                Option::Some(p) => j < chars@.len() && p.0 == chars@[j] && p.1 as int == j,
                Option::None => j >= chars@.len(),
            }
        }),
{
    let j = skip_ws(chars, start_index + 1);
    if j < chars.len() {
        Option::Some((chars[j], j))
    } else {
        Option::None
    }
}

/// Reads one value beginning at or after `i`, exactly as `spec_value`
/// describes it.
fn parse_value(chars: &Vec<char>, i: usize) -> (r: ParseJsonResult)
    ensures
        value_matches(r, spec_value(chars@, i as int)),
        r matches Ok(p) ==> i <= p.1 && (p.1 as int) < chars@.len(),
    decreases chars@.len() - i, 0int,
{
    let j = skip_ws(chars, i);
    if j >= chars.len() {
        return Result::Err(ParseJsonError::UnexpectedEndOfInput);
    }
    let c = chars[j];
    if c == '{' {
        match parse_members(chars, j + 1, Vec::new(), true) {
            Result::Ok((members, end)) => Result::Ok((JsonField::Object(members), end)),
            Result::Err(e) => Result::Err(e),
        }
    } else if c == '[' {
        match parse_elems(chars, j + 1, Vec::new(), true) {
            Result::Ok((elems, end)) => Result::Ok((JsonField::Array(elems), end)),
            Result::Err(e) => Result::Err(e),
        }
    } else if c == '"' {
        match string_parser::parse(j, chars) {
            Result::Ok((content, q)) => Result::Ok((JsonField::String(content), q)),
            Result::Err(e) => Result::Err(e),
        }
    } else if c == '-' || (c >= '0' && c <= '9') {
        let mut cursor = j;
        match number_parser::parse(&mut cursor, chars) {
            Result::Ok(v) => Result::Ok((v, cursor - 1)),
            Result::Err(e) => Result::Err(e),
        }
    } else if c >= 'a' && c <= 'z' {
        match identifier_parser::parse(j, chars) {
            Result::Ok((v, after)) => Result::Ok((v, after - 1)),
            Result::Err(e) => Result::Err(e),
        }
    } else if c == '}' {
        Result::Err(ParseJsonError::UnmatchedClosingBrace)
    } else if c == ']' {
        Result::Err(ParseJsonError::UnmatchedClosingBracket)
    } else {
        Result::Err(ParseJsonError::UnexpectedCharacter(c))
    }
}

/// Reads an object body from `i` on, exactly as `spec_members` describes
/// it.
fn parse_members(chars: &Vec<char>, i: usize, acc: Vec<(String, JsonField)>, allow_close: bool) -> (r:
    Result<(Vec<(String, JsonField)>, usize), ParseJsonError>)
    ensures
        ({
            let sr = spec_members(chars@, i as int, model_members(acc@), allow_close);
            match (r, sr) {
                (Result::Ok(p), Result::Ok(q)) => model_members(p.0@) == q.0 && p.1 as int == q.1
                    && i <= p.1 && (p.1 as int) < chars@.len(),
                (Result::Err(a), Result::Err(b)) => a == b,
                _ => false,
            }
        }),
    decreases chars@.len() - i, 1int,
{
    let j = skip_ws(chars, i);
    if j >= chars.len() {
        return Result::Err(ParseJsonError::UnexpectedEndOfInput);
    }
    if allow_close && chars[j] == '}' {
        return Result::Ok((acc, j));
    }
    if chars[j] != '"' {
        return Result::Err(ParseJsonError::NonStringObjectKey);
    }
    match string_parser::parse(j, chars) {
        Result::Err(e) => Result::Err(e),
        Result::Ok((key, q)) => {
            if q == j + 1 {
                return Result::Err(ParseJsonError::EmptyObjectKey);
            }
            if q + 1 >= chars.len() {
                return Result::Err(ParseJsonError::UnexpectedEndOfInput);
            }
            if chars[q + 1] != ':' {
                return Result::Err(ParseJsonError::UnexpectedCharacter(chars[q + 1]));
            }
            match parse_value(chars, q + 2) {
                Result::Err(e) => Result::Err(e),
                Result::Ok((v, end)) => {
                    let mut grown = acc;
                    obj_insert_exec(&mut grown, key.as_str(), v);
                    let t = skip_ws(chars, end + 1);
                    if t >= chars.len() {
                        Result::Err(ParseJsonError::UnexpectedEndOfInput)
                    } else if chars[t] == '}' {
                        Result::Ok((grown, t))
                    } else if chars[t] == ',' {
                        parse_members(chars, t + 1, grown, false)
                    } else {
                        Result::Err(ParseJsonError::UnexpectedCharacter(chars[t]))
                    }
                },
            }
        },
    }
}

/// Reads an array body from `i` on, exactly as `spec_elems` describes it.
fn parse_elems(chars: &Vec<char>, i: usize, acc: Vec<JsonField>, allow_close: bool) -> (r: Result<
    (Vec<JsonField>, usize),
    ParseJsonError,
>)
    ensures
        ({
            let sr = spec_elems(chars@, i as int, crate::json::field::model_elems(acc@), allow_close);
            match (r, sr) {
                (Result::Ok(p), Result::Ok(q)) => crate::json::field::model_elems(p.0@) == q.0
                    && p.1 as int == q.1 && i <= p.1 && (p.1 as int) < chars@.len(),
                (Result::Err(a), Result::Err(b)) => a == b,
                _ => false,
            }
        }),
    decreases chars@.len() - i, 1int,
{
    let j = skip_ws(chars, i);
    if j >= chars.len() {
        return Result::Err(ParseJsonError::UnexpectedEndOfInput);
    }
    if allow_close && chars[j] == ']' {
        return Result::Ok((acc, j));
    }
    match parse_value(chars, i) {
        Result::Err(e) => Result::Err(e),
        Result::Ok((v, end)) => {
            let mut grown = acc;
            proof {
                crate::json::field::lemma_model_elems_push(grown@, v);
            }
            grown.push(v);
            let t = skip_ws(chars, end + 1);
            if t >= chars.len() {
                Result::Err(ParseJsonError::UnexpectedEndOfInput)
            } else if chars[t] == ']' {
                Result::Ok((grown, t))
            } else if chars[t] == ',' {
                parse_elems(chars, t + 1, grown, false)
            } else {
                Result::Err(ParseJsonError::UnexpectedCharacter(chars[t]))
            }
        },
    }
}

/// Reads one JSON value from `content`, starting at `starting_index`:
/// the parsed value and the index of its last character, the closing
/// delimiter for objects and arrays. What is returned on every input is
/// exactly what `spec_value` states.
pub fn parse_json(content: &str, starting_index: usize) -> (r: ParseJsonResult)
    ensures
        value_matches(r, spec_value(content@, starting_index as int)),
        r matches Ok(p) ==> starting_index <= p.1 && (p.1 as int) < content@.len(),
{
    let chars = str_to_chars(content);
    parse_value(&chars, starting_index)
}

#[via_fn]
proof fn Self_value_decreases(s: Seq<char>, i: int) {
    lemma_ws_count_nonneg(s, i);
}

#[via_fn]
proof fn Self_members_decreases(
    s: Seq<char>,
    i: int,
    acc: Seq<(Seq<char>, SpecField)>,
    allow_close: bool,
) {
    lemma_ws_count_nonneg(s, i);
    lemma_str_body_count_nonneg(s, i + ws_count(s, i) + 1);
}

#[via_fn]
proof fn Self_elems_decreases(s: Seq<char>, i: int, acc: Seq<SpecField>, allow_close: bool) {
    lemma_ws_count_nonneg(s, i);
}

} // verus!
