use vstd::prelude::*;

use crate::db::connection::{idx_get, idx_insert, Connection};
use crate::json::field::{sobj_insert, SpecField};
use crate::json::parser::{digits_val, is_digit, parse_json, spec_value, str_to_chars};
use crate::json::stringify::spec_stringify;
use crate::server::request::spec_segments;
use crate::server::request::path_segments;
use crate::server::response::{Response, ResponseBuilder};
use crate::server::status_code::StatusCode;

verus! {

/// Whether every character of the text is a decimal digit.
pub open spec fn all_digits(s: Seq<char>) -> bool {
    forall|k: int| 0 <= k < s.len() ==> is_digit(#[trigger] s[k])
}

/// Whether a token starts with a minus sign.
pub open spec fn has_minus(s: Seq<char>) -> bool {
    s.len() >= 1 && s[0] == '-'
}

/// The digit run of a signed token: everything after an optional
/// leading minus sign.
pub open spec fn i64_digits(s: Seq<char>) -> Seq<char> {
    if has_minus(s) {
        s.skip(1)
    } else {
        s
    }
}

/// The signed number a token denotes: an optional minus sign before a
/// non-empty digit run whose value fits a 64-bit signed word.
pub open spec fn spec_parse_i64(s: Seq<char>) -> Option<i64> {
    if i64_digits(s).len() >= 1 && all_digits(i64_digits(s)) {
        let v = digits_val(i64_digits(s));
        if has_minus(s) {
            if v <= 0x8000_0000_0000_0000 {
                Option::Some((-v) as i64)
            } else {
                Option::None
            }
        } else {
            if v <= i64::MAX {
                Option::Some(v as i64)
            } else {
                Option::None
            }
        }
    } else {
        Option::None
    }
}

/// Reads a token as a signed 64-bit number, or nothing where it is not
/// one.
pub fn parse_i64(value: &str) -> (r: Option<i64>)
    ensures
        r == spec_parse_i64(value@),
{
    let chars = str_to_chars(value);
    let neg = chars.len() >= 1 && chars[0] == '-';
    let start: usize = if neg {
        1
    } else {
        0
    };
    let ghost digits = if neg {
        value@.skip(1)
    } else {
        value@
    };
    proof {
        assert forall|k: int| 0 <= k < digits.len() implies digits[k] == chars@[start + k] by {}
    }
    if start >= chars.len() {
        return Option::None;
    }
    let mut k: usize = start;
    let mut acc: u64 = 0;
    while k < chars.len()
        invariant
            start <= k <= chars@.len(),
            start == if neg {
                1int
            } else {
                0int
            },
            chars@ == value@,
            neg == (value@.len() >= 1 && value@[0] == '-'),
            digits == chars@.skip(start as int),
            digits == (if neg {
                value@.skip(1)
            } else {
                value@
            }),
            forall|j: int| start <= j < k ==> is_digit(#[trigger] chars@[j]),
            acc == digits_val(chars@.subrange(start as int, k as int)),
            digits_val(chars@.subrange(start as int, k as int)) <= u64::MAX,
        decreases chars@.len() - k,
    {
        let c = chars[k];
        if !(c >= '0' && c <= '9') {
            proof {
                assert(0 <= k - start < digits.len());
                assert(digits[k - start] == chars@[k as int]);
                assert(!is_digit(digits[k - start]));
                assert(has_minus(value@) == neg);
                assert(i64_digits(value@) == digits);
                assert(!all_digits(i64_digits(value@)));
                assert(spec_parse_i64(value@) is None);
            }
            return Option::None;
        }
        let d: u64 = match c {
            '0' => 0,
            '1' => 1,
            '2' => 2,
            '3' => 3,
            '4' => 4,
            '5' => 5,
            '6' => 6,
            '7' => 7,
            '8' => 8,
            _ => 9,
        };
        proof {
            assert(d == crate::json::parser::char_digit(c));
            let run1 = chars@.subrange(start as int, k + 1);
            assert(run1.drop_last() =~= chars@.subrange(start as int, k as int));
            assert(run1.last() == chars@[k as int]);
        }
        if acc > (u64::MAX - d) / 10 {
            proof {
                let q = ((u64::MAX - d) / 10) as int;
                assert(q * 10 <= u64::MAX - d);
                assert(acc as int * 10 >= (q + 1) * 10);
                assert(digits_val(chars@.subrange(start as int, k + 1)) > u64::MAX);
                assert(has_minus(value@) == neg);
                assert(i64_digits(value@) == digits);
                if all_digits(digits) {
                    crate::server::config::lemma_digits_val_grows(digits, k + 1 - start);
                    assert(chars@.subrange(start as int, k + 1) =~= digits.take(k + 1 - start));
                    assert(digits_val(digits) > u64::MAX);
                }
                assert(spec_parse_i64(value@) is None);
            }
            return Option::None;
        }
        proof {
            let q = ((u64::MAX - d) / 10) as int;
            assert(q * 10 <= u64::MAX - d);
            assert(acc as int * 10 <= q * 10);
        }
        acc = acc * 10 + d;
        k = k + 1;
    }
    proof {
        assert(chars@.subrange(start as int, chars@.len() as int) =~= digits);
    }
    if neg {
        if acc > 9223372036854775808u64 {
            return Option::None;
        }
        let v: i64 = if acc == 9223372036854775808u64 {
            i64::MIN
        } else {
            -(acc as i64)
        };
        Option::Some(v)
    } else {
        if acc > 9223372036854775807u64 {
            return Option::None;
        }
        Option::Some(acc as i64)
    }
}

/// Where a request path points: the whole table of a named store, one
/// record of it, or nowhere the server serves.
#[derive(Debug)]
pub enum RouteTarget {
    Invalid,
    Collection(String),
    Record(String, i64),
}

/// Routes a URL path: two segments address a store by its name, three
/// address one record by store name and numeric id, anything else is
/// invalid.
pub fn route_target(url: &str) -> (r: RouteTarget)
    ensures
        ({
            let segs = spec_segments(url@, 0);
            &&& segs.len() == 2 ==> ({
                &&& r matches RouteTarget::Collection(name) && name@ == segs[1]
            })
            &&& segs.len() == 3 && spec_parse_i64(segs[2]) is Some ==> ({
                &&& r matches RouteTarget::Record(name, id) && name@ == segs[1] && id
                    == spec_parse_i64(segs[2])->0
            })
            &&& segs.len() == 3 && spec_parse_i64(segs[2]) is None ==> r is Invalid
            &&& segs.len() != 2 && segs.len() != 3 ==> r is Invalid
        }),
{
    let mut segments = path_segments(url);
    proof {
        assert forall|k: int| 0 <= k < segments@.len() implies #[trigger] segments@[k]@
            == spec_segments(url@, 0)[k] by {
            assert(segments@.map_values(|seg: String| seg@)[k] == segments@[k]@);
        }
    }
    if segments.len() == 2 {
        let name = segments.pop().unwrap();
        proof {
            assert(name@ == spec_segments(url@, 0)[1]);
        }
        RouteTarget::Collection(name)
    } else if segments.len() == 3 {
        let id_text = segments.pop().unwrap();
        let name = segments.pop().unwrap();
        proof {
            assert(id_text@ == spec_segments(url@, 0)[2]);
            assert(name@ == spec_segments(url@, 0)[1]);
        }
        match parse_i64(id_text.as_str()) {
            Option::Some(id) => RouteTarget::Record(name, id),
            Option::None => RouteTarget::Invalid,
        }
    } else {
        RouteTarget::Invalid
    }
}

/// Answers a whole-table read: the serialized current table under a
/// success status.
pub fn get(version: String, connection: &Connection) -> (r: Response)
    ensures
        r.spec_status() == StatusCode::Okay,
        r.spec_protocol() == version@,
        r.spec_content() == spec_stringify(connection.root()),
        r.spec_content_length() == spec_stringify(connection.root()).len(),
        r.spec_content_type() == Option::Some(("application/json")@),
{
    let content = connection.read();
    ResponseBuilder::new().set_status_code(StatusCode::Okay).set_protocol(version).set_content(
        content,
    ).set_content_type(String::from_str("application/json")).build()
}

/// Answers a one-record read: the record's cached text under a success
/// status, or the stock not-found response where no record carries the
/// id.
pub fn get_id(version: String, connection: &Connection, id: i64) -> (r: Response)
    ensures
        match idx_get(connection.index(), id) {
            Option::Some(text) => ({
                &&& r.spec_status() == StatusCode::Okay
                &&& r.spec_protocol() == version@
                &&& r.spec_content() == text
                &&& r.spec_content_length() == text.len()
                &&& r.spec_content_type() == Option::Some(("application/json")@)
            }),
            Option::None => ({
                &&& r.spec_status() == StatusCode::NotFound
                &&& r.spec_protocol() == version@
                &&& r.spec_content() == (r#"{ "message": "404 Not Found" }"#)@
            }),
        },
{
    match connection.get(id) {
        Result::Ok(content) => ResponseBuilder::new().set_status_code(
            StatusCode::Okay,
        ).set_protocol(version).set_content(content).set_content_type(
            String::from_str("application/json"),
        ).build(),
        Result::Err(_) => ResponseBuilder::build_404(version),
    }
}

/// Answers an insert: the body is parsed and appended to the table as
/// `insert` performs it, and the new record's text comes back under a
/// success status together with whether the table changed — the
/// caller persists the table where it did and the store is not in
/// dry-run mode. A body that does not parse, a record that is no
/// object, and a store whose id space is exhausted are answered with
/// the stock not-found response, the table untouched.
pub fn post(version: String, body: &str, connection: &mut Connection) -> (r: (Response, bool))
    requires
        old(connection).wf(),
    ensures
        final(connection).wf(),
        ({
            let parsed = spec_value(body@, 0);
            let ok = parsed is Ok && parsed->Ok_0.0 is Object && old(connection).next_id()
                < i64::MAX;
            &&& !ok ==> *final(connection) == *old(connection) && !r.1 && ({
                &&& r.0.spec_status() == StatusCode::NotFound
                &&& r.0.spec_protocol() == version@
                &&& r.0.spec_content() == (r#"{ "message": "404 Not Found" }"#)@
            })
            &&& ok ==> ({
                let ms = parsed->Ok_0.0->Object_0;
                let new_id = old(connection).next_id() as i64;
                let stamped = SpecField::Object(
                    sobj_insert(ms, seq!['i', 'd'], SpecField::Int(new_id)),
                );
                &&& r.1
                &&& final(connection).root() == SpecField::Array(
                    old(connection).root()->Array_0.push(stamped),
                )
                &&& final(connection).index() == idx_insert(
                    old(connection).index(),
                    new_id,
                    spec_stringify(stamped),
                )
                &&& idx_get(old(connection).index(), new_id) is None
                &&& final(connection).next_id() == old(connection).next_id() + 1
                &&& final(connection).is_dry() == old(connection).is_dry()
                &&& r.0.spec_status() == StatusCode::Okay
                &&& r.0.spec_protocol() == version@
                &&& r.0.spec_content() == spec_stringify(stamped)
                &&& r.0.spec_content_type() == Option::Some(("application/json")@)
            })
        }),
{
    match parse_json(body, 0) {
        Result::Err(_) => (ResponseBuilder::build_404(version), false),
        Result::Ok((value, _last)) => {
            if !connection.has_capacity() {
                return (ResponseBuilder::build_404(version), false);
            }
            match connection.insert(value) {
                Result::Ok(text) => {
                    let response = ResponseBuilder::new().set_status_code(
                        StatusCode::Okay,
                    ).set_protocol(version).set_content(text).set_content_type(
                        String::from_str("application/json"),
                    ).build();
                    (response, true)
                },
                Result::Err(_) => (ResponseBuilder::build_404(version), false),
            }
        },
    }
}

} // verus!
