use vstd::prelude::*;

use crate::json::field::{
    equiv, key_ok, lemma_equiv_elems_pointwise, lemma_keys_included_pointwise,
    lemma_members_included_pointwise, lemma_sobj_get_at, member_ok, sobj_insert, ParseJsonError,
    SpecField,
};
use crate::json::parser::{
    char_digit, digit_bytes, digits_count, digits_val, ident_count, is_digit, is_ident_char,
    is_ws, spec_elems, spec_members, spec_number, spec_value, str_body_count, ws_count,
};
use crate::json::stringify::{
    digit_char, elems_text_from, frac_chars, members_text_from, nat_chars, spec_stringify,
};

verus! {

/// Whether a model value can come out of the supported grammar: strings
/// and keys carry no embedded double quote, keys are non-empty and
/// distinct within an object, and a decimal literal has at least one
/// fraction digit, every digit below ten.
pub open spec fn grammar_wf(v: SpecField) -> bool
    decreases v,
{
    match v {
        SpecField::Int(_) => true,
        SpecField::Boolean(_) => true,
        SpecField::Null => true,
        SpecField::Float(_, _, frac) => frac.len() >= 1 && (forall|k: int|
            0 <= k < frac.len() ==> frac[k] < 10),
        SpecField::String(text) => forall|k: int| 0 <= k < text.len() ==> text[k] != '"',
        SpecField::Array(elems) => grammar_wf_elems(elems),
        SpecField::Object(members) => {
            &&& grammar_wf_members(members)
            &&& forall|k: int|
                0 <= k < members.len() ==> {
                    &&& (#[trigger] members[k].0).len() >= 1
                    &&& forall|c: int| 0 <= c < members[k].0.len() ==> members[k].0[c] != '"'
                }
            &&& forall|a: int, b: int|
                0 <= a < b < members.len() ==> (#[trigger] members[a].0) != (
                #[trigger] members[b].0)
        },
    }
}

/// Whether every element of an array body satisfies `grammar_wf`.
pub open spec fn grammar_wf_elems(elems: Seq<SpecField>) -> bool
    decreases elems,
{
    if elems.len() == 0 {
        true
    } else {
        grammar_wf(elems[0]) && grammar_wf_elems(elems.drop_first())
    }
}

/// Whether every member value of an object body satisfies `grammar_wf`.
pub open spec fn grammar_wf_members(members: Seq<(Seq<char>, SpecField)>) -> bool
    decreases members,
{
    if members.len() == 0 {
        true
    } else {
        grammar_wf(members[0].1) && grammar_wf_members(members.drop_first())
    }
}

/// `grammar_wf_elems`, element by element.
pub proof fn lemma_grammar_wf_elems_pointwise(elems: Seq<SpecField>)
    ensures
        grammar_wf_elems(elems) <==> (forall|k: int|
            0 <= k < elems.len() ==> grammar_wf(#[trigger] elems[k])),
    decreases elems.len(),
{
    if elems.len() > 0 {
        lemma_grammar_wf_elems_pointwise(elems.drop_first());
        if grammar_wf_elems(elems) {
            assert forall|k: int| 0 <= k < elems.len() implies grammar_wf(
                #[trigger] elems[k],
            ) by {
                if k > 0 {
                    assert(elems.drop_first()[k - 1] == elems[k]);
                }
            }
        } else {
            if grammar_wf(elems[0]) {
                let k = choose|k: int|
                    0 <= k < elems.drop_first().len() && !grammar_wf(
                        #[trigger] elems.drop_first()[k],
                    );
                assert(elems[k + 1] == elems.drop_first()[k]);
            }
        }
    }
}

/// `grammar_wf_members`, member by member.
pub proof fn lemma_grammar_wf_members_pointwise(members: Seq<(Seq<char>, SpecField)>)
    ensures
        grammar_wf_members(members) <==> (forall|k: int|
            0 <= k < members.len() ==> grammar_wf(#[trigger] members[k].1)),
    decreases members.len(),
{
    if members.len() > 0 {
        lemma_grammar_wf_members_pointwise(members.drop_first());
        if grammar_wf_members(members) {
            assert forall|k: int| 0 <= k < members.len() implies grammar_wf(
                #[trigger] members[k].1,
            ) by {
                if k > 0 {
                    assert(members.drop_first()[k - 1] == members[k]);
                }
            }
        } else {
            if grammar_wf(members[0].1) {
                let k = choose|k: int|
                    0 <= k < members.drop_first().len() && !grammar_wf(
                        #[trigger] members.drop_first()[k].1,
                    );
                assert(members[k + 1] == members.drop_first()[k]);
            }
        }
    }
}

/// The decimal rendering of a natural number is a non-empty digit run
/// that reads back as the same number.
pub proof fn lemma_nat_chars(m: nat)
    ensures
        nat_chars(m).len() >= 1,
        forall|k: int| 0 <= k < nat_chars(m).len() ==> is_digit(#[trigger] nat_chars(m)[k]),
        digits_val(nat_chars(m)) == m,
    decreases m,
{
    if m < 10 {
        assert(char_digit(digit_char(m as u8)) == m);
        assert(digits_val(nat_chars(m)) == digits_val(nat_chars(m).drop_last()) * 10
            + char_digit(nat_chars(m).last()));
        assert(nat_chars(m).drop_last() =~= Seq::<char>::empty());
    } else {
        lemma_nat_chars(m / 10);
        let whole = nat_chars(m);
        assert(whole == nat_chars(m / 10).push(digit_char((m % 10) as u8)));
        assert(whole.drop_last() =~= nat_chars(m / 10));
        assert(char_digit(digit_char((m % 10) as u8)) == m % 10);
        assert(digits_val(whole) == (m / 10) * 10 + m % 10);
        assert forall|k: int| 0 <= k < whole.len() implies is_digit(#[trigger] whole[k]) by {
            if k < whole.len() - 1 {
                assert(whole[k] == nat_chars(m / 10)[k]);
            }
        }
    }
}

/// A digit run of length `n`, bounded by a non-digit or the end of the
/// input, is exactly what `digits_count` measures.
pub proof fn lemma_digits_count_exact(s: Seq<char>, i: int, n: int)
    requires
        0 <= i,
        0 <= n,
        i + n <= s.len(),
        forall|k: int| 0 <= k < n ==> is_digit(#[trigger] s[i + k]),
        i + n == s.len() || !is_digit(s[i + n]),
    ensures
        digits_count(s, i) == n,
    decreases n,
{
    if n == 0 {
    } else {
        assert(is_digit(s[i + 0]));
        assert forall|k: int| 0 <= k < n - 1 implies is_digit(#[trigger] s[(i + 1) + k]) by {
            assert(s[(i + 1) + k] == s[i + (k + 1)]);
        }
        lemma_digits_count_exact(s, i + 1, n - 1);
    }
}

/// An identifier run of length `n`, bounded by a non-letter or the end
/// of the input, is exactly what `ident_count` measures.
pub proof fn lemma_ident_count_exact(s: Seq<char>, i: int, n: int)
    requires
        0 <= i,
        0 <= n,
        i + n <= s.len(),
        forall|k: int| 0 <= k < n ==> is_ident_char(#[trigger] s[i + k]),
        i + n == s.len() || !is_ident_char(s[i + n]),
    ensures
        ident_count(s, i) == n,
    decreases n,
{
    if n == 0 {
    } else {
        assert(is_ident_char(s[i + 0]));
        assert forall|k: int| 0 <= k < n - 1 implies is_ident_char(#[trigger] s[(i + 1) + k]) by {
            assert(s[(i + 1) + k] == s[i + (k + 1)]);
        }
        lemma_ident_count_exact(s, i + 1, n - 1);
    }
}

/// A quote-free run of length `n` closed by a double quote is exactly
/// what `str_body_count` measures.
pub proof fn lemma_str_body_count_exact(s: Seq<char>, i: int, n: int)
    requires
        0 <= i,
        0 <= n,
        i + n < s.len(),
        forall|k: int| 0 <= k < n ==> #[trigger] s[i + k] != '"',
        s[i + n] == '"',
    ensures
        str_body_count(s, i) == n,
    decreases n,
{
    if n == 0 {
    } else {
        assert(s[i + 0] != '"');
        assert forall|k: int| 0 <= k < n - 1 implies #[trigger] s[(i + 1) + k] != '"' by {
            assert(s[(i + 1) + k] == s[i + (k + 1)]);
        }
        lemma_str_body_count_exact(s, i + 1, n - 1);
    }
}

/// The fraction digits of a well-formed decimal render as digits and
/// read back unchanged.
pub proof fn lemma_frac_chars(frac: Seq<u8>)
    requires
        forall|k: int| 0 <= k < frac.len() ==> frac[k] < 10,
    ensures
        frac_chars(frac).len() == frac.len(),
        forall|k: int| 0 <= k < frac.len() ==> is_digit(#[trigger] frac_chars(frac)[k]),
        digit_bytes(frac_chars(frac)) == frac,
{
    assert forall|k: int| 0 <= k < frac.len() implies is_digit(#[trigger] frac_chars(frac)[k]) by {
        assert(frac_chars(frac)[k] == digit_char(frac[k]));
        assert(char_digit(digit_char(frac[k])) == frac[k]);
    }
    assert forall|k: int| 0 <= k < frac.len() implies digit_bytes(frac_chars(frac))[k] == frac[k] by {
        assert(frac_chars(frac)[k] == digit_char(frac[k]));
        assert(char_digit(digit_char(frac[k])) == frac[k]);
    }
    assert(digit_bytes(frac_chars(frac)) =~= frac);
}

/// The first character of a well-formed value's rendering: never
/// whitespace, a comma or a closing delimiter.
pub proof fn lemma_render_first(v: SpecField)
    requires
        grammar_wf(v),
    ensures
        spec_stringify(v).len() >= 1,
        !is_ws(spec_stringify(v)[0]),
        spec_stringify(v)[0] != ']',
        spec_stringify(v)[0] != '}',
        spec_stringify(v)[0] != ',',
        spec_stringify(v)[0] != ':',
{
    match v {
        SpecField::Int(n) => {
            lemma_nat_chars((if n < 0 {
                -(n as int)
            } else {
                n as int
            }) as nat);
            if n >= 0 {
                assert(is_digit(spec_stringify(v)[0]));
            }
        }
        SpecField::Float(neg, whole, frac) => {
            lemma_nat_chars(whole as nat);
            if !neg {
                assert(spec_stringify(v)[0] == nat_chars(whole as nat)[0]);
                assert(is_digit(spec_stringify(v)[0]));
            }
        }
        _ => {}
    }
}

/// Whether a character could extend a number or identifier token to
/// its left.
pub open spec fn extends_token(c: char) -> bool {
    is_digit(c) || c == '.' || is_ident_char(c)
}

/// Parsing at `i` in a text that carries the rendering of a well-formed
/// value there, bounded by the end of the input or a character that
/// cannot extend a token, yields exactly that value, ending on the
/// rendering's last character.
/// The round-trip step for `null` and the boolean literals.
proof fn lemma_value_round_ident(s: Seq<char>, i: int, v: SpecField)
    requires
        grammar_wf(v),
        v is Null || v is Boolean,
        0 <= i,
        i + spec_stringify(v).len() <= s.len(),
        forall|k: int|
            0 <= k < spec_stringify(v).len() ==> s[i + k] == #[trigger] spec_stringify(v)[k],
        i + spec_stringify(v).len() == s.len() || !extends_token(s[i + spec_stringify(v).len()]),
    ensures
        spec_value(s, i) == Result::<(SpecField, int), ParseJsonError>::Ok(
            (v, i + spec_stringify(v).len() - 1),
        ),
{
    let text = spec_stringify(v);
    let n = text.len() as int;
    lemma_render_first(v);
    assert(s[i + 0] == text[0]);
    assert(ws_count(s, i) == 0);
    assert forall|k: int| 0 <= k < n implies is_ident_char(#[trigger] s[i + k]) by {
        assert(s[i + k] == text[k]);
    }
    lemma_ident_count_exact(s, i, n);
    let word = s.subrange(i, i + n);
    assert forall|c: int| 0 <= c < n implies word[c] == text[c] by {
        assert(word[c] == s[i + c]);
    }
    assert(word =~= text);
    match v {
        SpecField::Null => {
            assert(word != seq!['t', 'r', 'u', 'e']) by {
                if word == seq!['t', 'r', 'u', 'e'] {
                    assert(word[0] == 't');
                }
            }
            assert(word != seq!['f', 'a', 'l', 's', 'e']) by {
                if word == seq!['f', 'a', 'l', 's', 'e'] {
                    assert(word.len() == 5);
                }
            }
        }
        SpecField::Boolean(b) => {
            if !b {
                assert(word != seq!['t', 'r', 'u', 'e']) by {
                    if word == seq!['t', 'r', 'u', 'e'] {
                        assert(word.len() == 4);
                    }
                }
            }
        }
        _ => {}
    }
}

/// The round-trip step for integer literals.
proof fn lemma_value_round_int(s: Seq<char>, i: int, num: i64)
    requires
        0 <= i,
        i + spec_stringify(SpecField::Int(num)).len() <= s.len(),
        forall|k: int|
            0 <= k < spec_stringify(SpecField::Int(num)).len() ==> s[i + k]
                == #[trigger] spec_stringify(SpecField::Int(num))[k],
        i + spec_stringify(SpecField::Int(num)).len() == s.len() || !extends_token(
            s[i + spec_stringify(SpecField::Int(num)).len()],
        ),
    ensures
        spec_value(s, i) == Result::<(SpecField, int), ParseJsonError>::Ok(
            (SpecField::Int(num), i + spec_stringify(SpecField::Int(num)).len() - 1),
        ),
{
    let v = SpecField::Int(num);
    let text = spec_stringify(v);
    let n = text.len() as int;
    lemma_render_first(v);
    assert(s[i + 0] == text[0]);
    assert(ws_count(s, i) == 0);
    let mag = (if num < 0 {
        -(num as int)
    } else {
        num as int
    }) as nat;
    lemma_nat_chars(mag);
    let wl = nat_chars(mag).len() as int;
    let i1 = if num < 0 {
        i + 1
    } else {
        i
    };
    assert forall|k: int| 0 <= k < wl implies s[i1 + k] == nat_chars(mag)[k] by {
        if num < 0 {
            assert(s[i + (k + 1)] == text[k + 1]);
            assert(text[k + 1] == nat_chars(mag)[k]);
        } else {
            assert(s[i + k] == text[k]);
        }
    }
    assert forall|k: int| 0 <= k < wl implies is_digit(#[trigger] s[i1 + k]) by {
        assert(s[i1 + k] == nat_chars(mag)[k]);
    }
    lemma_digits_count_exact(s, i1, wl);
    let d1 = i1 + wl;
    assert(d1 == i + n);
    assert forall|c: int| 0 <= c < wl implies s.subrange(i1, d1)[c] == nat_chars(mag)[c] by {
        assert(s.subrange(i1, d1)[c] == s[i1 + c]);
    }
    assert(s.subrange(i1, d1) =~= nat_chars(mag));
    assert(digits_val(s.subrange(i1, d1)) == mag);
    if num < 0 {
        assert(s[i + 0] == '-');
        assert(mag <= 0x8000_0000_0000_0000);
        assert((-(mag as int)) as i64 == num);
    } else {
        assert(is_digit(s[i + 0]));
        assert(mag <= i64::MAX);
        assert((mag as int) as i64 == num);
    }
}

/// The round-trip step for decimal literals.
proof fn lemma_value_round_float(s: Seq<char>, i: int, neg: bool, whole: u64, frac: Seq<u8>)
    requires
        grammar_wf(SpecField::Float(neg, whole, frac)),
        0 <= i,
        i + spec_stringify(SpecField::Float(neg, whole, frac)).len() <= s.len(),
        forall|k: int|
            0 <= k < spec_stringify(SpecField::Float(neg, whole, frac)).len() ==> s[i + k]
                == #[trigger] spec_stringify(SpecField::Float(neg, whole, frac))[k],
        i + spec_stringify(SpecField::Float(neg, whole, frac)).len() == s.len() || !extends_token(
            s[i + spec_stringify(SpecField::Float(neg, whole, frac)).len()],
        ),
    ensures
        spec_value(s, i) == Result::<(SpecField, int), ParseJsonError>::Ok(
            (
                SpecField::Float(neg, whole, frac),
                i + spec_stringify(SpecField::Float(neg, whole, frac)).len() - 1,
            ),
        ),
{
    let v = SpecField::Float(neg, whole, frac);
    let text = spec_stringify(v);
    let n = text.len() as int;
    lemma_render_first(v);
    assert(s[i + 0] == text[0]);
    assert(ws_count(s, i) == 0);
    lemma_nat_chars(whole as nat);
    lemma_frac_chars(frac);
    let o1 = if neg {
        1int
    } else {
        0int
    };
    let wl = nat_chars(whole as nat).len() as int;
    let fl = frac.len() as int;
    let i1 = i + o1;
    assert(n == o1 + wl + 1 + fl);
    assert forall|k: int| 0 <= k < wl implies s[i1 + k] == nat_chars(whole as nat)[k] by {
        assert(s[i + (o1 + k)] == text[o1 + k]);
        assert(text[o1 + k] == nat_chars(whole as nat)[k]);
    }
    assert forall|k: int| 0 <= k < wl implies is_digit(#[trigger] s[i1 + k]) by {
        assert(s[i1 + k] == nat_chars(whole as nat)[k]);
    }
    let d1 = i1 + wl;
    assert(s[i + (o1 + wl)] == text[o1 + wl]);
    assert(s[d1] == '.');
    lemma_digits_count_exact(s, i1, wl);
    assert forall|c: int| 0 <= c < wl implies s.subrange(i1, d1)[c] == nat_chars(
        whole as nat,
    )[c] by {
        assert(s.subrange(i1, d1)[c] == s[i1 + c]);
    }
    assert(s.subrange(i1, d1) =~= nat_chars(whole as nat));
    assert(digits_val(s.subrange(i1, d1)) == whole as nat);
    assert forall|k: int| 0 <= k < fl implies s[(d1 + 1) + k] == frac_chars(frac)[k] by {
        assert(s[i + (o1 + wl + 1 + k)] == text[o1 + wl + 1 + k]);
        assert(text[o1 + wl + 1 + k] == frac_chars(frac)[k]);
    }
    assert forall|k: int| 0 <= k < fl implies is_digit(#[trigger] s[(d1 + 1) + k]) by {
        assert(s[(d1 + 1) + k] == frac_chars(frac)[k]);
    }
    lemma_digits_count_exact(s, d1 + 1, fl);
    let d2 = d1 + 1 + fl;
    assert(d2 == i + n);
    assert forall|c: int| 0 <= c < fl implies s.subrange(d1 + 1, d2)[c] == frac_chars(
        frac,
    )[c] by {
        assert(s.subrange(d1 + 1, d2)[c] == s[(d1 + 1) + c]);
    }
    assert(s.subrange(d1 + 1, d2) =~= frac_chars(frac));
    assert(digit_bytes(s.subrange(d1 + 1, d2)) == frac);
    if neg {
        assert(s[i + 0] == '-');
    }
    assert(spec_value(s, i) == spec_number(s, i));
    assert((digits_val(s.subrange(i1, d1)) as u64) == whole);
}

/// The round-trip step for string literals.
proof fn lemma_value_round_string(s: Seq<char>, i: int, content: Seq<char>)
    requires
        grammar_wf(SpecField::String(content)),
        0 <= i,
        i + spec_stringify(SpecField::String(content)).len() <= s.len(),
        forall|k: int|
            0 <= k < spec_stringify(SpecField::String(content)).len() ==> s[i + k]
                == #[trigger] spec_stringify(SpecField::String(content))[k],
    ensures
        spec_value(s, i) == Result::<(SpecField, int), ParseJsonError>::Ok(
            (
                SpecField::String(content),
                i + spec_stringify(SpecField::String(content)).len() - 1,
            ),
        ),
{
    let v = SpecField::String(content);
    let text = spec_stringify(v);
    let n = text.len() as int;
    assert(s[i + 0] == text[0]);
    assert(text[0] == '"');
    assert(ws_count(s, i) == 0);
    assert forall|k: int| 0 <= k < content.len() implies #[trigger] s[(i + 1) + k]
        == content[k] by {
        assert(s[i + (k + 1)] == text[k + 1]);
        assert(text[k + 1] == content[k]);
    }
    assert forall|k: int| 0 <= k < content.len() implies #[trigger] s[(i + 1) + k] != '"' by {}
    assert(s[i + (n - 1)] == text[n - 1]);
    assert(text[n - 1] == '"');
    assert(s[(i + 1) + content.len()] == '"');
    lemma_str_body_count_exact(s, i + 1, content.len() as int);
    let q = i + 1 + content.len();
    assert forall|c: int| 0 <= c < content.len() implies s.subrange(i + 1, q)[c]
        == content[c] by {
        assert(s.subrange(i + 1, q)[c] == s[(i + 1) + c]);
    }
    assert(s.subrange(i + 1, q) =~= content);
}

pub proof fn lemma_value_round(s: Seq<char>, i: int, v: SpecField)
    requires
        grammar_wf(v),
        0 <= i,
        i + spec_stringify(v).len() <= s.len(),
        s.subrange(i, i + spec_stringify(v).len()) == spec_stringify(v),
        i + spec_stringify(v).len() == s.len() || !extends_token(s[i + spec_stringify(v).len()]),
    ensures
        spec_value(s, i) == Result::<(SpecField, int), ParseJsonError>::Ok(
            (v, i + spec_stringify(v).len() - 1),
        ),
    decreases v, 0int,
{
    let text = spec_stringify(v);
    let n = text.len() as int;
    assert forall|k: int| 0 <= k < n implies s[i + k] == text[k] by {
        assert(s.subrange(i, i + n)[k] == s[i + k]);
    }
    lemma_render_first(v);
    assert(s[i + 0] == text[0]);
    assert(ws_count(s, i) == 0);
    match v {
        SpecField::Null => {
            lemma_value_round_ident(s, i, v);
        }
        SpecField::Boolean(_) => {
            lemma_value_round_ident(s, i, v);
        }
        SpecField::Int(num) => {
            lemma_value_round_int(s, i, num);
        }
        SpecField::Float(neg, whole, frac) => {
            lemma_value_round_float(s, i, neg, whole, frac);
        }
        SpecField::String(content) => {
            lemma_value_round_string(s, i, content);
        }
        SpecField::Array(elems) => {
            assert(s[i + 0] == '[');
            assert(s[i + (n - 1)] == text[n - 1]);
            assert(s[i + n - 1] == ']');
            lemma_grammar_wf_elems_pointwise(elems);
            if elems.len() == 0 {
                assert(elems_text_from(elems, 0) =~= Seq::<char>::empty());
                assert(n == 2);
                assert(s[i + 1] == ']');
                assert(ws_count(s, i + 1) == 0);
                assert(spec_elems(s, i + 1, Seq::empty(), true) == Result::<(
                    Seq<SpecField>,
                    int,
                ), ParseJsonError>::Ok((Seq::<SpecField>::empty(), i + 1)));
                assert(elems =~= Seq::<SpecField>::empty());
            } else {
                let body = elems_text_from(elems, 0);
                assert forall|k: int| 0 <= k < body.len() implies s[(i + 1) + k] == body[k] by {
                    assert(s[i + (k + 1)] == text[k + 1]);
                    assert(text[k + 1] == body[k]);
                }
                assert forall|c: int| 0 <= c < body.len() implies s.subrange(
                    i + 1,
                    i + 1 + body.len(),
                )[c] == body[c] by {
                    assert(s.subrange(i + 1, i + 1 + body.len())[c] == s[(i + 1) + c]);
                }
                assert(s.subrange(i + 1, i + 1 + body.len()) =~= body);
                assert(s[(i + 1) + body.len()] == ']') by {
                    assert(s[i + (n - 1)] == text[n - 1]);
                }
                lemma_elems_round(s, i + 1, elems, 0, Seq::empty(), true);
                assert(Seq::<SpecField>::empty() + elems.subrange(0, elems.len() as int)
                    =~= elems);
            }
        }
        SpecField::Object(members) => {
            assert(s[i + 0] == '{');
            assert(s[i + (n - 1)] == text[n - 1]);
            assert(s[i + n - 1] == '}');
            lemma_grammar_wf_members_pointwise(members);
            if members.len() == 0 {
                assert(members_text_from(members, 0) =~= Seq::<char>::empty());
                assert(n == 2);
                assert(s[i + 1] == '}');
                assert(ws_count(s, i + 1) == 0);
                assert(spec_members(s, i + 1, Seq::empty(), true) == Result::<(
                    Seq<(Seq<char>, SpecField)>,
                    int,
                ), ParseJsonError>::Ok((Seq::<(Seq<char>, SpecField)>::empty(), i + 1)));
                assert(members =~= Seq::<(Seq<char>, SpecField)>::empty());
            } else {
                let body = members_text_from(members, 0);
                assert forall|k: int| 0 <= k < body.len() implies s[(i + 1) + k] == body[k] by {
                    assert(s[i + (k + 1)] == text[k + 1]);
                    assert(text[k + 1] == body[k]);
                }
                assert forall|c: int| 0 <= c < body.len() implies s.subrange(
                    i + 1,
                    i + 1 + body.len(),
                )[c] == body[c] by {
                    assert(s.subrange(i + 1, i + 1 + body.len())[c] == s[(i + 1) + c]);
                }
                assert(s.subrange(i + 1, i + 1 + body.len()) =~= body);
                assert(s[(i + 1) + body.len()] == '}') by {
                    assert(s[i + (n - 1)] == text[n - 1]);
                }
                assert(members.subrange(0, 0) =~= Seq::<(Seq<char>, SpecField)>::empty());
                lemma_members_round(s, i + 1, members, 0, true);
            }
        }
    }
}

/// Parsing an array body at `p`, where the renderings of the elements
/// from `k` on stand comma-joined and closed by a bracket, collects
/// exactly those elements after the ones already accumulated.
pub proof fn lemma_elems_round(
    s: Seq<char>,
    p: int,
    elems: Seq<SpecField>,
    k: int,
    acc: Seq<SpecField>,
    ac: bool,
)
    requires
        forall|j: int| 0 <= j < elems.len() ==> grammar_wf(#[trigger] elems[j]),
        0 <= k < elems.len(),
        0 <= p,
        p + elems_text_from(elems, k).len() < s.len(),
        s.subrange(p, p + elems_text_from(elems, k).len()) == elems_text_from(elems, k),
        s[p + elems_text_from(elems, k).len()] == ']',
    ensures
        spec_elems(s, p, acc, ac) == Result::<(Seq<SpecField>, int), ParseJsonError>::Ok(
            (acc + elems.subrange(k, elems.len() as int), p + elems_text_from(elems, k).len()),
        ),
    decreases elems, elems.len() - k,
{
    let rest = elems_text_from(elems, k);
    let rl = rest.len() as int;
    assert forall|c: int| 0 <= c < rl implies s[p + c] == rest[c] by {
        assert(s.subrange(p, p + rl)[c] == s[p + c]);
    }
    let head = spec_stringify(elems[k]);
    let hl = head.len() as int;
    lemma_render_first(elems[k]);
    assert(s[p + 0] == rest[0]);
    assert(rest[0] == head[0]);
    assert(ws_count(s, p) == 0);
    assert forall|c: int| 0 <= c < hl implies s[p + c] == head[c] by {
        assert(rest[c] == head[c]);
    }
    assert(s.subrange(p, p + hl) =~= head);
    if k == elems.len() - 1 {
        assert(rest == head);
        assert(s[p + hl] == ']');
        lemma_value_round(s, p, elems[k]);
        let end = p + hl - 1;
        assert(ws_count(s, end + 1) == 0);
        assert(acc.push(elems[k]) =~= acc + elems.subrange(k, elems.len() as int));
    } else {
        assert(rest == head + seq![','] + elems_text_from(elems, k + 1));
        assert(s[p + hl] == rest[hl]);
        assert(rest[hl] == ',');
        lemma_value_round(s, p, elems[k]);
        let end = p + hl - 1;
        assert(ws_count(s, end + 1) == 0);
        let t = p + hl;
        let tail = elems_text_from(elems, k + 1);
        assert forall|c: int| 0 <= c < tail.len() implies s[(t + 1) + c] == tail[c] by {
            assert(s[p + (hl + 1 + c)] == rest[hl + 1 + c]);
            assert(rest[hl + 1 + c] == tail[c]);
        }
        assert(s.subrange(t + 1, t + 1 + tail.len()) =~= tail);
        assert(s[(t + 1) + tail.len()] == ']') by {
            assert(s[p + rl] == ']');
        }
        lemma_elems_round(s, t + 1, elems, k + 1, acc.push(elems[k]), false);
        assert(acc.push(elems[k]) + elems.subrange(k + 1, elems.len() as int) =~= acc
            + elems.subrange(k, elems.len() as int));
    }
}

/// Parsing an object body at `p`, where the renderings of the members
/// from `k` on stand comma-joined and closed by a brace, collects
/// exactly the whole member sequence when the first `k` members are the
/// ones already accumulated.
pub proof fn lemma_members_round(
    s: Seq<char>,
    p: int,
    members: Seq<(Seq<char>, SpecField)>,
    k: int,
    ac: bool,
)
    requires
        forall|j: int| 0 <= j < members.len() ==> grammar_wf(#[trigger] members[j].1),
        forall|j: int|
            0 <= j < members.len() ==> {
                &&& (#[trigger] members[j].0).len() >= 1
                &&& forall|c: int| 0 <= c < members[j].0.len() ==> members[j].0[c] != '"'
            },
        forall|a: int, b: int|
            0 <= a < b < members.len() ==> (#[trigger] members[a].0) != (#[trigger] members[b].0),
        0 <= k < members.len(),
        0 <= p,
        p + members_text_from(members, k).len() < s.len(),
        s.subrange(p, p + members_text_from(members, k).len()) == members_text_from(members, k),
        s[p + members_text_from(members, k).len()] == '}',
    ensures
        spec_members(s, p, members.subrange(0, k), ac) == Result::<(
            Seq<(Seq<char>, SpecField)>,
            int,
        ), ParseJsonError>::Ok((members, p + members_text_from(members, k).len())),
    decreases members, members.len() - k,
{
    let rest = members_text_from(members, k);
    let rl = rest.len() as int;
    assert forall|c: int| 0 <= c < rl implies s[p + c] == rest[c] by {
        assert(s.subrange(p, p + rl)[c] == s[p + c]);
    }
    let key = members[k].0;
    let kl = key.len() as int;
    let val = members[k].1;
    let vtext = spec_stringify(val);
    let vl = vtext.len() as int;
    let head = seq!['"'] + key + seq!['"', ':'] + vtext;
    assert(rest == if k == members.len() - 1 {
        head
    } else {
        head + seq![','] + members_text_from(members, k + 1)
    });
    assert(s[p + 0] == rest[0]);
    assert(rest[0] == '"');
    assert(ws_count(s, p) == 0);
    assert forall|c: int| 0 <= c < kl implies #[trigger] s[(p + 1) + c] == key[c] by {
        assert(s[p + (c + 1)] == rest[c + 1]);
        assert(rest[c + 1] == head[c + 1]);
        assert(head[c + 1] == key[c]);
    }
    assert forall|c: int| 0 <= c < kl implies #[trigger] s[(p + 1) + c] != '"' by {}
    assert(s[p + (kl + 1)] == rest[kl + 1]);
    assert(rest[kl + 1] == head[kl + 1]);
    assert(head[kl + 1] == '"');
    assert(s[(p + 1) + kl] == '"');
    lemma_str_body_count_exact(s, p + 1, kl);
    let q = p + 1 + kl;
    assert forall|c: int| 0 <= c < kl implies s.subrange(p + 1, q)[c] == key[c] by {
        assert(s.subrange(p + 1, q)[c] == s[(p + 1) + c]);
    }
    assert(s.subrange(p + 1, q) =~= key);
    assert(s[p + (kl + 2)] == rest[kl + 2]);
    assert(rest[kl + 2] == head[kl + 2]);
    assert(head[kl + 2] == ':');
    assert(s[q + 1] == ':');
    assert forall|c: int| 0 <= c < vl implies s[(q + 2) + c] == vtext[c] by {
        assert(s[p + (kl + 3 + c)] == rest[kl + 3 + c]);
        assert(rest[kl + 3 + c] == head[kl + 3 + c]);
        assert(head[kl + 3 + c] == vtext[c]);
    }
    assert(s.subrange(q + 2, q + 2 + vl) =~= vtext);
    let hl = head.len() as int;
    assert(hl == kl + 3 + vl);
    if k == members.len() - 1 {
        assert(s[p + hl] == '}');
        lemma_value_round(s, q + 2, val);
    } else {
        assert(s[p + hl] == rest[hl]);
        assert(rest[hl] == ',');
        lemma_value_round(s, q + 2, val);
    }
    let end = q + 2 + vl - 1;
    assert(ws_count(s, end + 1) == 0);
    let t = q + 2 + vl;
    assert(t == p + hl);
    let before = members.subrange(0, k);
    assert forall|j: int| 0 <= j < before.len() implies #[trigger] before[j].0 != key by {
        assert(before[j] == members[j]);
    }
    crate::json::field::lemma_sobj_insert_none(before, key, val);
    let grown = sobj_insert(before, key, val);
    assert(grown == before.push((key, val)));
    assert((key, val) == members[k]);
    assert(grown =~= members.subrange(0, k + 1));
    if k == members.len() - 1 {
        assert(s[t] == '}');
        assert(grown =~= members);
    } else {
        let tail = members_text_from(members, k + 1);
        assert forall|c: int| 0 <= c < tail.len() implies s[(t + 1) + c] == tail[c] by {
            assert(s[p + (hl + 1 + c)] == rest[hl + 1 + c]);
            assert(rest[hl + 1 + c] == tail[c]);
        }
        assert(s.subrange(t + 1, t + 1 + tail.len()) =~= tail);
        assert(s[(t + 1) + tail.len()] == '}') by {
            assert(s[p + rl] == '}');
        }
        assert(s[t] == ',');
        lemma_members_round(s, t + 1, members, k + 1, false);
    }
}

/// Structural equality is reflexive on every value the grammar can
/// produce: the order-insensitive object comparison finds each key at
/// its own member, keys being distinct.
pub proof fn lemma_equiv_reflexive(v: SpecField)
    requires
        grammar_wf(v),
    ensures
        equiv(v, v),
    decreases v,
{
    match v {
        SpecField::Array(elems) => {
            lemma_grammar_wf_elems_pointwise(elems);
            assert forall|i: int| 0 <= i < elems.len() implies equiv(
                #[trigger] elems[i],
                elems[i],
            ) by {
                lemma_equiv_reflexive(elems[i]);
            }
            lemma_equiv_elems_pointwise(elems, elems);
        }
        SpecField::Object(members) => {
            lemma_grammar_wf_members_pointwise(members);
            assert forall|i: int| 0 <= i < members.len() implies member_ok(
                members,
                #[trigger] members[i],
            ) by {
                lemma_sobj_get_at(members, members[i].0, i);
                lemma_equiv_reflexive(members[i].1);
            }
            lemma_members_included_pointwise(members, members);
            assert forall|i: int| 0 <= i < members.len() implies key_ok(
                members,
                #[trigger] members[i],
            ) by {
                lemma_sobj_get_at(members, members[i].0, i);
            }
            lemma_keys_included_pointwise(members, members);
        }
        _ => {}
    }
}

/// Round trip: parsing the rendering of any value the supported grammar
/// can produce yields a structurally identical value and consumes the
/// whole text, its last character included.
pub proof fn lemma_parse_stringify_round_trip(v: SpecField)
    requires
        grammar_wf(v),
    ensures
        spec_value(spec_stringify(v), 0) == Result::<(SpecField, int), ParseJsonError>::Ok(
            (v, spec_stringify(v).len() - 1),
        ),
        equiv(spec_value(spec_stringify(v), 0)->Ok_0.0, v),
{
    let s = spec_stringify(v);
    assert(s.subrange(0, s.len() as int) =~= s);
    lemma_value_round(s, 0, v);
    lemma_equiv_reflexive(v);
}

} // verus!
