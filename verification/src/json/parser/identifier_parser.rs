use vstd::prelude::*;

use crate::json::field::{JsonField, ParseJsonError};
use crate::json::parser::{ident_count, spec_identifier};

verus! {

/// Reads the lowercase identifier that starts at `cur_index` and matches
/// it against the literals `true`, `false` and `null`; any other run is
/// an error. The returned index is the one just past the identifier.
pub fn parse(cur_index: usize, chars: &Vec<char>) -> (r: Result<
    (JsonField, usize),
    ParseJsonError,
>)
    ensures
        match spec_identifier(chars@, cur_index as int) {
            Result::Ok(p) => r matches Ok(q) && q.0.model() == p.0 && q.1 as int == p.1 + 1
                && cur_index < q.1 && q.1 as int <= chars@.len(),
            Result::Err(e) => r == Err::<(JsonField, usize), ParseJsonError>(e),
        },
{
    let ghost s = chars@;
    let mut e = cur_index;
    while e < chars.len() && chars[e] >= 'a' && chars[e] <= 'z'
        invariant
            cur_index <= e,
            e == cur_index || e as int <= s.len(),
            chars@ == s,
            cur_index + ident_count(s, cur_index as int) == e + ident_count(s, e as int),
        decreases s.len() - e,
    {
        e = e + 1;
    }
    proof {
        assert(ident_count(s, e as int) == 0);
        assert(e as int == cur_index + ident_count(s, cur_index as int));
    }
    let ghost word = s.subrange(cur_index as int, e as int);
    let n = e - cur_index;
    if n == 4 && chars[cur_index] == 't' && chars[cur_index + 1] == 'r' && chars[cur_index + 2]
        == 'u' && chars[cur_index + 3] == 'e' {
        proof {
            assert(word =~= seq!['t', 'r', 'u', 'e']);
        }
        Result::Ok((JsonField::Boolean(true), e))
    } else if n == 5 && chars[cur_index] == 'f' && chars[cur_index + 1] == 'a' && chars[cur_index
        + 2] == 'l' && chars[cur_index + 3] == 's' && chars[cur_index + 4] == 'e' {
        proof {
            assert(word =~= seq!['f', 'a', 'l', 's', 'e']);
        }
        Result::Ok((JsonField::Boolean(false), e))
    } else if n == 4 && chars[cur_index] == 'n' && chars[cur_index + 1] == 'u' && chars[cur_index
        + 2] == 'l' && chars[cur_index + 3] == 'l' {
        proof {
            assert(word =~= seq!['n', 'u', 'l', 'l']);
        }
        Result::Ok((JsonField::Null, e))
    } else {
        proof {
            if cur_index as int <= s.len() {
            assert forall|k: int| 0 <= k < word.len() implies word[k] == s[cur_index + k] by {}
            if word == seq!['t', 'r', 'u', 'e'] {
                assert(word.len() == 4);
                assert(word[0] == 't' && word[1] == 'r' && word[2] == 'u' && word[3] == 'e');
                assert(s[cur_index as int] == 't' && s[cur_index + 1] == 'r' && s[cur_index + 2]
                    == 'u' && s[cur_index + 3] == 'e');
                assert(false);
            }
            if word == seq!['f', 'a', 'l', 's', 'e'] {
                assert(word.len() == 5);
                assert(word[0] == 'f' && word[1] == 'a' && word[2] == 'l' && word[3] == 's'
                    && word[4] == 'e');
                assert(s[cur_index as int] == 'f' && s[cur_index + 1] == 'a' && s[cur_index + 2]
                    == 'l' && s[cur_index + 3] == 's' && s[cur_index + 4] == 'e');
                assert(false);
            }
            if word == seq!['n', 'u', 'l', 'l'] {
                assert(word.len() == 4);
                assert(word[0] == 'n' && word[1] == 'u' && word[2] == 'l' && word[3] == 'l');
                assert(s[cur_index as int] == 'n' && s[cur_index + 1] == 'u' && s[cur_index + 2]
                    == 'l' && s[cur_index + 3] == 'l');
                assert(false);
            }
            }
        }
        Result::Err(ParseJsonError::UnrecognizedIdentifier)
    }
}

} // verus!
