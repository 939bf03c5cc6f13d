use vstd::prelude::*;

use crate::json::field::ParseJsonError;
use crate::json::parser::str_body_count;
use crate::json::stringify::push_char;

verus! {

/// Reads a quoted string whose opening quote stands at `cur_index`:
/// every character up to the next double quote becomes part of the
/// content, and the returned index is that of the closing quote. A
/// string that reaches the end of the input unterminated is an error.
pub fn parse(cur_index: usize, chars: &Vec<char>) -> (r: Result<(String, usize), ParseJsonError>)
    ensures
        ({
            let q = cur_index + 1 + str_body_count(chars@, cur_index as int + 1);
            match r {
                Result::Ok(p) => q < chars@.len() && p.0@ == chars@.subrange(
                    cur_index as int + 1,
                    q,
                ) && p.1 as int == q && cur_index < p.1,
                Result::Err(e) => q >= chars@.len() && e == ParseJsonError::UnterminatedString,
            }
        }),
{
    let ghost s = chars@;
    if cur_index >= chars.len() {
        return Result::Err(ParseJsonError::UnterminatedString);
    }
    let mut content = String::new();
    let mut j = cur_index + 1;
    while j < chars.len() && chars[j] != '"'
        invariant
            cur_index + 1 <= j <= s.len(),
            chars@ == s,
            content@ == s.subrange(cur_index as int + 1, j as int),
            cur_index + 1 + str_body_count(s, cur_index as int + 1) == j + str_body_count(
                s,
                j as int,
            ),
        decreases s.len() - j,
    {
        push_char(&mut content, chars[j]);
        j = j + 1;
        proof {
            assert(content@ =~= s.subrange(cur_index as int + 1, j as int));
        }
    }
    if j >= chars.len() {
        Result::Err(ParseJsonError::UnterminatedString)
    } else {
        Result::Ok((content, j))
    }
}

} // verus!
