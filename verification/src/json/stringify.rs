use vstd::prelude::*;

use crate::json::field::{lemma_model_elems, lemma_model_members, model_elems, model_members, JsonField, SpecField};

verus! {

/// The character that renders one decimal digit; values above nine wrap
/// around so that the function stays total.
pub open spec fn digit_char(d: u8) -> char {
    match d % 10 {
        0u8 => '0',
        1u8 => '1',
        2u8 => '2',
        3u8 => '3',
        4u8 => '4',
        5u8 => '5',
        6u8 => '6',
        7u8 => '7',
        8u8 => '8',
        _ => '9',
    }
}

/// The decimal rendering of a natural number, most significant digit first.
pub open spec fn nat_chars(n: nat) -> Seq<char>
    decreases n,
{
    if n < 10 {
        seq![digit_char(n as u8)]
    } else {
        nat_chars(n / 10).push(digit_char((n % 10) as u8))
    }
}

/// The decimal rendering of an integer: a minus sign before the magnitude
/// when it is negative.
pub open spec fn int_chars(n: int) -> Seq<char> {
    if n < 0 {
        seq!['-'] + nat_chars((-n) as nat)
    } else {
        nat_chars(n as nat)
    }
}

/// The rendering of the fraction digits of a decimal literal.
pub open spec fn frac_chars(digits: Seq<u8>) -> Seq<char> {
    digits.map_values(|d: u8| digit_char(d))
}

/// The compact text of a model value: no whitespace, strings quoted
/// verbatim, object members in container order.
pub open spec fn spec_stringify(v: SpecField) -> Seq<char>
    decreases v, 0int,
{
    match v {
        SpecField::Null => seq!['n', 'u', 'l', 'l'],
        SpecField::Boolean(b) => if b {
            seq!['t', 'r', 'u', 'e']
        } else {
            seq!['f', 'a', 'l', 's', 'e']
        },
        SpecField::Int(i) => int_chars(i as int),
        SpecField::Float(neg, whole, frac) => (if neg {
            seq!['-']
        } else {
            Seq::empty()
        }) + nat_chars(whole as nat) + seq!['.'] + frac_chars(frac),
        SpecField::String(s) => seq!['"'] + s + seq!['"'],
        SpecField::Array(elems) => seq!['['] + elems_text_from(elems, 0) + seq![']'],
        SpecField::Object(members) => seq!['{'] + members_text_from(members, 0) + seq!['}'],
    }
}

/// The comma-joined renderings of the elements from index `i` on.
pub open spec fn elems_text_from(elems: Seq<SpecField>, i: int) -> Seq<char>
    decreases elems, elems.len() - i,
{
    if i < 0 || i >= elems.len() {
        Seq::empty()
    } else if i == elems.len() - 1 {
        spec_stringify(elems[i])
    } else {
        spec_stringify(elems[i]) + seq![','] + elems_text_from(elems, i + 1)
    }
}

/// The comma-joined renderings of the members from index `i` on, each as
/// a quoted key, a colon and the value.
pub open spec fn members_text_from(members: Seq<(Seq<char>, SpecField)>, i: int) -> Seq<char>
    decreases members, members.len() - i,
{
    if i < 0 || i >= members.len() {
        Seq::empty()
    } else {
        let head = seq!['"'] + members[i].0 + seq!['"', ':'] + spec_stringify(members[i].1);
        if i == members.len() - 1 {
            head
        } else {
            head + seq![','] + members_text_from(members, i + 1)
        }
    }
}

/// Relies on String::push: appends exactly the given character at the end.
#[verifier::external_body]
pub(crate) fn push_char(out: &mut String, c: char)
    ensures
        final(out)@ == old(out)@.push(c),
{
    out.push(c);
}

/// The rendering of one decimal digit; values above nine wrap around.
fn push_digit(out: &mut String, d: u8)
    ensures
        final(out)@ == old(out)@.push(digit_char(d)),
{
    let c = match d % 10 {
        0u8 => '0',
        1u8 => '1',
        2u8 => '2',
        3u8 => '3',
        4u8 => '4',
        5u8 => '5',
        6u8 => '6',
        7u8 => '7',
        8u8 => '8',
        _ => '9',
    };
    push_char(out, c);
}

/// Appends the decimal rendering of `n`.
pub(crate) fn push_u64(out: &mut String, n: u64)
    ensures
        final(out)@ == old(out)@ + nat_chars(n as nat),
    decreases n,
{
    if n < 10 {
        push_digit(out, n as u8);
        proof {
            assert(out@ =~= old(out)@ + nat_chars(n as nat));
        }
    } else {
        push_u64(out, n / 10);
        push_digit(out, (n % 10) as u8);
        proof {
            assert(out@ =~= old(out)@ + nat_chars(n as nat));
        }
    }
}

/// Appends the decimal rendering of `n`, sign included.
fn push_i64(out: &mut String, n: i64)
    ensures
        final(out)@ == old(out)@ + int_chars(n as int),
{
    if n >= 0 {
        push_u64(out, n as u64);
    } else {
        push_char(out, '-');
        let mag: u64 = if n == i64::MIN {
            9223372036854775808u64
        } else {
            (-n) as u64
        };
        proof {
            assert(mag as nat == (-(n as int)) as nat);
        }
        push_u64(out, mag);
        proof {
            assert(out@ =~= old(out)@ + int_chars(n as int));
        }
    }
}

/// Appends the compact rendering of one value.
fn push_value(out: &mut String, v: &JsonField)
    ensures
        final(out)@ == old(out)@ + spec_stringify(v.model()),
    decreases *v, 0int,
{
    match v {
        JsonField::Null => {
            push_char(out, 'n');
            push_char(out, 'u');
            push_char(out, 'l');
            push_char(out, 'l');
            proof {
                assert(out@ =~= old(out)@ + spec_stringify(v.model()));
            }
        }
        JsonField::Boolean(b) => {
            if *b {
                push_char(out, 't');
                push_char(out, 'r');
                push_char(out, 'u');
                push_char(out, 'e');
            } else {
                push_char(out, 'f');
                push_char(out, 'a');
                push_char(out, 'l');
                push_char(out, 's');
                push_char(out, 'e');
            }
            proof {
                assert(out@ =~= old(out)@ + spec_stringify(v.model()));
            }
        }
        JsonField::Int(i) => {
            push_i64(out, *i);
        }
        JsonField::Float(d) => {
            if d.neg {
                push_char(out, '-');
            }
            push_u64(out, d.whole);
            push_char(out, '.');
            let mut k: usize = 0;
            let ghost mid = out@;
            while k < d.frac.len()
                invariant
                    0 <= k <= d.frac@.len(),
                    out@ == mid + frac_chars(d.frac@.take(k as int)),
                decreases d.frac@.len() - k,
            {
                push_digit(out, d.frac[k]);
                proof {
                    assert(d.frac@.take(k + 1) =~= d.frac@.take(k as int).push(
                        d.frac@[k as int],
                    ));
                    assert(frac_chars(d.frac@.take(k + 1)) =~= frac_chars(
                        d.frac@.take(k as int),
                    ).push(digit_char(d.frac@[k as int])));
                }
                k = k + 1;
            }
            proof {
                assert(d.frac@.take(d.frac@.len() as int) =~= d.frac@);
                assert(out@ =~= old(out)@ + spec_stringify(v.model()));
            }
        }
        JsonField::String(s) => {
            push_char(out, '"');
            out.append(s.as_str());
            push_char(out, '"');
            proof {
                assert(out@ =~= old(out)@ + spec_stringify(v.model()));
            }
        }
        JsonField::Array(elems) => {
            push_char(out, '[');
            push_elems(out, elems, 0);
            push_char(out, ']');
            proof {
                lemma_model_elems(elems@);
                assert(out@ =~= old(out)@ + spec_stringify(v.model()));
            }
        }
        JsonField::Object(members) => {
            push_char(out, '{');
            push_members(out, members, 0);
            push_char(out, '}');
            proof {
                lemma_model_members(members@);
                assert(out@ =~= old(out)@ + spec_stringify(v.model()));
            }
        }
    }
}

/// Appends the comma-joined renderings of the elements from index `i` on.
fn push_elems(out: &mut String, elems: &Vec<JsonField>, i: usize)
    ensures
        final(out)@ == old(out)@ + elems_text_from(model_elems(elems@), i as int),
    decreases *elems, elems@.len() - i,
{
    proof {
        lemma_model_elems(elems@);
    }
    if i < elems.len() {
        push_value(out, &elems[i]);
        if i + 1 < elems.len() {
            push_char(out, ',');
            push_elems(out, elems, i + 1);
        }
        proof {
            assert(out@ =~= old(out)@ + elems_text_from(model_elems(elems@), i as int));
        }
    }
}

/// Appends the comma-joined renderings of the members from index `i` on.
fn push_members(out: &mut String, members: &Vec<(String, JsonField)>, i: usize)
    ensures
        final(out)@ == old(out)@ + members_text_from(model_members(members@), i as int),
    decreases *members, members@.len() - i,
{
    proof {
        lemma_model_members(members@);
    }
    if i < members.len() {
        push_char(out, '"');
        out.append(members[i].0.as_str());
        push_char(out, '"');
        push_char(out, ':');
        push_value(out, &members[i].1);
        if i + 1 < members.len() {
            push_char(out, ',');
            push_members(out, members, i + 1);
        }
        proof {
            assert(out@ =~= old(out)@ + members_text_from(
                model_members(members@),
                i as int,
            ));
        }
    }
}

impl JsonField {
    /// The compact JSON text of this value: no whitespace, strings written
    /// verbatim between quotes, members and elements in container order,
    /// empty containers as a bare pair of brackets or braces.
    pub fn stringify(&self) -> (r: String)
        ensures
            r@ == spec_stringify(self.model()),
    {
        let mut out = String::new();
        push_value(&mut out, self);
        out
    }
}

} // verus!
