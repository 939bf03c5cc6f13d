use vstd::prelude::*;

use crate::json::field::{Decimal, JsonField, ParseJsonError};
use crate::json::parser::{char_digit, digit_bytes, digits_count, digits_val, lemma_digits_count_nonneg, spec_number};

verus! {

/// The numeric value of one digit character; ten marks a non-digit.
fn digit_val(c: char) -> (r: u8)
    ensures
        r == char_digit(c),
{
    match c {
        '0' => 0u8,
        '1' => 1u8,
        '2' => 2u8,
        '3' => 3u8,
        '4' => 4u8,
        '5' => 5u8,
        '6' => 6u8,
        '7' => 7u8,
        '8' => 8u8,
        '9' => 9u8,
        _ => 10u8,
    }
}

/// Reads the digit run that starts at `from`, returning the index past
/// the run, the run's value, and whether that value no longer fits in
/// an unsigned 64-bit word.
fn scan_digits(chars: &Vec<char>, from: usize) -> (r: (usize, u64, bool))
    requires
        from as int <= chars@.len(),
    ensures
        r.0 as int == from + digits_count(chars@, from as int),
        from <= r.0 <= chars@.len(),
        r.2 ==> digits_val(chars@.subrange(from as int, r.0 as int)) > u64::MAX,
        !r.2 ==> r.1 == digits_val(chars@.subrange(from as int, r.0 as int)),
{
    let mut j = from;
    let mut acc: u64 = 0;
    let mut over = false;
    while j < chars.len() && chars[j] >= '0' && chars[j] <= '9'
        invariant
            from <= j <= chars@.len(),
            from + digits_count(chars@, from as int) == j + digits_count(chars@, j as int),
            over ==> digits_val(chars@.subrange(from as int, j as int)) > u64::MAX,
            !over ==> acc == digits_val(chars@.subrange(from as int, j as int)),
        decreases chars@.len() - j,
    {
        let d = digit_val(chars[j]);
        proof {
            let run1 = chars@.subrange(from as int, j + 1);
            assert(run1.drop_last() =~= chars@.subrange(from as int, j as int));
            assert(run1.last() == chars@[j as int]);
        }
        if over || acc > (u64::MAX - (d as u64)) / 10 {
            proof {
                if !over {
                    let q = ((u64::MAX - (d as u64)) / 10) as int;
                    assert(q * 10 <= u64::MAX - d);
                    assert(acc as int * 10 >= (q + 1) * 10);
                }
            }
            over = true;
        } else {
            proof {
                let q = ((u64::MAX - (d as u64)) / 10) as int;
                assert(q * 10 <= u64::MAX - d);
                assert(acc as int * 10 <= q * 10);
            }
            acc = acc * 10 + (d as u64);
        }
        j = j + 1;
    }
    (j, acc, over)
}

/// Reads a number literal that starts at the cursor: an optional minus
/// sign, a digit run, and at most one fractional digit run. On success
/// the cursor moves just past the literal; on an error it stays.
pub fn parse(cur_index: &mut usize, chars: &Vec<char>) -> (r: Result<JsonField, ParseJsonError>)
    ensures
        match spec_number(chars@, *old(cur_index) as int) {
            Result::Ok(p) => r matches Ok(v) && v.model() == p.0 && *final(cur_index) as int == p.1
                + 1 && *old(cur_index) < *final(cur_index) && *final(cur_index) as int
                <= chars@.len(),
            Result::Err(e) => r == Err::<JsonField, ParseJsonError>(e) && *final(cur_index) == *old(
                cur_index,
            ),
        },
{
    let i = *cur_index;
    let len = chars.len();
    let neg = i < len && chars[i] == '-';
    let i1 = if neg {
        i + 1
    } else {
        i
    };
    if i1 >= len {
        return Result::Err(ParseJsonError::UnexpectedEndOfInput);
    }
    let c1 = chars[i1];
    if !(c1 >= '0' && c1 <= '9') {
        return Result::Err(ParseJsonError::UnexpectedCharacter(c1));
    }
    let (d1, whole, over) = scan_digits(chars, i1);
    proof {
        lemma_digits_count_nonneg(chars@, i1 as int + 1);
        assert(digits_count(chars@, i1 as int) == 1 + digits_count(chars@, i1 as int + 1));
    }
    if d1 < len && chars[d1] == '.' {
        let mut frac: Vec<u8> = Vec::new();
        let mut k = d1 + 1;
        while k < len && chars[k] >= '0' && chars[k] <= '9'
            invariant
                d1 + 1 <= k <= chars@.len(),
                len == chars@.len(),
                d1 + 1 + digits_count(chars@, d1 as int + 1) == k + digits_count(
                    chars@,
                    k as int,
                ),
                frac@ == digit_bytes(chars@.subrange(d1 as int + 1, k as int)),
            decreases chars@.len() - k,
        {
            frac.push(digit_val(chars[k]));
            k = k + 1;
            proof {
                assert(chars@.subrange(d1 as int + 1, k as int) =~= chars@.subrange(
                    d1 as int + 1,
                    k - 1,
                ).push(chars@[k - 1]));
                assert(frac@ =~= digit_bytes(chars@.subrange(d1 as int + 1, k as int)));
            }
        }
        let d2 = k;
        if d2 < len && chars[d2] == '.' {
            return Result::Err(ParseJsonError::DuplicateDecimalPoint);
        }
        if d2 == d1 + 1 {
            if d2 >= len {
                return Result::Err(ParseJsonError::UnexpectedEndOfInput);
            } else {
                return Result::Err(ParseJsonError::UnexpectedCharacter(chars[d2]));
            }
        }
        if over {
            return Result::Err(ParseJsonError::NumberOutOfRange);
        }
        *cur_index = d2;
        Result::Ok(JsonField::Float(Decimal { neg, whole, frac }))
    } else {
        if over {
            return Result::Err(ParseJsonError::NumberOutOfRange);
        }
        if neg {
            if whole > 9223372036854775808u64 {
                return Result::Err(ParseJsonError::NumberOutOfRange);
            }
            let v: i64 = if whole == 9223372036854775808u64 {
                i64::MIN
            } else {
                -(whole as i64)
            };
            *cur_index = d1;
            Result::Ok(JsonField::Int(v))
        } else {
            if whole > 9223372036854775807u64 {
                return Result::Err(ParseJsonError::NumberOutOfRange);
            }
            *cur_index = d1;
            Result::Ok(JsonField::Int(whole as i64))
        }
    }
}

} // verus!
