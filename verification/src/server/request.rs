use vstd::prelude::*;

use crate::json::parser::str_to_chars;
use crate::server::config::{spec_parse_usize, parse_usize};

verus! {

/// The request methods the server distinguishes.
#[derive(Clone, Copy, Debug, PartialEq, Eq, Structural)]
pub enum RequestMethod {
    GET,
    POST,
    PUT,
    PATCH,
    DELETE,
}

/// The uppercase twin of an ASCII letter; any other character stays.
pub open spec fn ascii_upper(c: char) -> char {
    if 'a' <= c && c <= 'z' {
        (((c as u8) - 32) as u8) as char
    } else {
        c
    }
}

/// The method a token names, compared after uppercasing; an unknown
/// token falls back to `GET`.
pub open spec fn spec_method(s: Seq<char>) -> RequestMethod {
    let u = s.map_values(|c: char| ascii_upper(c));
    if u == seq!['G', 'E', 'T'] {
        RequestMethod::GET
    } else if u == seq!['P', 'O', 'S', 'T'] {
        RequestMethod::POST
    } else if u == seq!['P', 'U', 'T'] {
        RequestMethod::PUT
    } else if u == seq!['P', 'A', 'T', 'C', 'H'] {
        RequestMethod::PATCH
    } else if u == seq!['D', 'E', 'L', 'E', 'T', 'E'] {
        RequestMethod::DELETE
    } else {
        RequestMethod::GET
    }
}

impl From<&str> for RequestMethod {
    /// The method the token names, whatever its case.
    fn from(value: &str) -> (r: Self) {
        let chars = str_to_chars(value);
        let mut upper: Vec<char> = Vec::new();
        let mut k: usize = 0;
        while k < chars.len()
            invariant
                0 <= k <= chars@.len(),
                chars@ == value@,
                upper@ == chars@.take(k as int).map_values(|c: char| ascii_upper(c)),
            decreases chars@.len() - k,
        {
            let c = chars[k];
            let u: char = if c >= 'a' && c <= 'z' {
                (((c as u8) - 32) as u8) as char
            } else {
                c
            };
            upper.push(u);
            k = k + 1;
            proof {
                assert(chars@.take(k as int).drop_last() =~= chars@.take(k - 1));
                assert(upper@ =~= chars@.take(k as int).map_values(|c: char| ascii_upper(c)));
            }
        }
        proof {
            assert(chars@.take(chars@.len() as int) =~= chars@);
        }
        let ghost u = value@.map_values(|c: char| ascii_upper(c));
        let n = upper.len();
        if n == 3 && upper[0] == 'G' && upper[1] == 'E' && upper[2] == 'T' {
            proof {
                assert(u =~= seq!['G', 'E', 'T']);
            }
            RequestMethod::GET
        } else if n == 4 && upper[0] == 'P' && upper[1] == 'O' && upper[2] == 'S' && upper[3]
            == 'T' {
            proof {
                assert(u =~= seq!['P', 'O', 'S', 'T']);
            }
            RequestMethod::POST
        } else if n == 3 && upper[0] == 'P' && upper[1] == 'U' && upper[2] == 'T' {
            proof {
                assert(u =~= seq!['P', 'U', 'T']);
            }
            RequestMethod::PUT
        } else if n == 5 && upper[0] == 'P' && upper[1] == 'A' && upper[2] == 'T' && upper[3]
            == 'C' && upper[4] == 'H' {
            proof {
                assert(u =~= seq!['P', 'A', 'T', 'C', 'H']);
            }
            RequestMethod::PATCH
        } else if n == 6 && upper[0] == 'D' && upper[1] == 'E' && upper[2] == 'L' && upper[3]
            == 'E' && upper[4] == 'T' && upper[5] == 'E' {
            proof {
                assert(u =~= seq!['D', 'E', 'L', 'E', 'T', 'E']);
            }
            RequestMethod::DELETE
        } else {
            proof {
                lemma_method_fallback(u);
            }
            RequestMethod::GET
        }
    }
}

/// A token unequal to each method word under every pointwise check maps
/// to the fallback method.
proof fn lemma_method_fallback(u: Seq<char>)
    requires
        !(u.len() == 3 && u[0] == 'G' && u[1] == 'E' && u[2] == 'T'),
        !(u.len() == 4 && u[0] == 'P' && u[1] == 'O' && u[2] == 'S' && u[3] == 'T'),
        !(u.len() == 3 && u[0] == 'P' && u[1] == 'U' && u[2] == 'T'),
        !(u.len() == 5 && u[0] == 'P' && u[1] == 'A' && u[2] == 'T' && u[3] == 'C' && u[4] == 'H'),
        !(u.len() == 6 && u[0] == 'D' && u[1] == 'E' && u[2] == 'L' && u[3] == 'E' && u[4] == 'T'
            && u[5] == 'E'),
    ensures
        u != seq!['G', 'E', 'T'],
        u != seq!['P', 'O', 'S', 'T'],
        u != seq!['P', 'U', 'T'],
        u != seq!['P', 'A', 'T', 'C', 'H'],
        u != seq!['D', 'E', 'L', 'E', 'T', 'E'],
{
    if u == seq!['G', 'E', 'T'] {
        assert(u.len() == 3 && u[0] == 'G' && u[1] == 'E' && u[2] == 'T');
    }
    if u == seq!['P', 'O', 'S', 'T'] {
        assert(u.len() == 4 && u[0] == 'P' && u[1] == 'O' && u[2] == 'S' && u[3] == 'T');
    }
    if u == seq!['P', 'U', 'T'] {
        assert(u.len() == 3 && u[0] == 'P' && u[1] == 'U' && u[2] == 'T');
    }
    if u == seq!['P', 'A', 'T', 'C', 'H'] {
        assert(u.len() == 5 && u[0] == 'P' && u[1] == 'A' && u[2] == 'T' && u[3] == 'C' && u[4]
            == 'H');
    }
    if u == seq!['D', 'E', 'L', 'E', 'T', 'E'] {
        assert(u.len() == 6 && u[0] == 'D' && u[1] == 'E' && u[2] == 'L' && u[3] == 'E' && u[4]
            == 'T' && u[5] == 'E');
    }
}

impl vstd::std_specs::convert::FromSpecImpl<&str> for RequestMethod {
    open spec fn obeys_from_spec() -> bool {
        true
    }

    open spec fn from_spec(value: &str) -> Self {
        spec_method(value@)
    }
}

/// Whether trailing occurrences of this character are trimmed from a
/// read line.
pub open spec fn is_trim_ws(c: char) -> bool {
    c == ' ' || c == '\t' || c == '\r' || c == '\n'
}

/// The length a text keeps once trailing whitespace is trimmed.
pub open spec fn trimmed_len(s: Seq<char>) -> int
    decreases s.len(),
{
    if s.len() == 0 {
        0
    } else if is_trim_ws(s.last()) {
        trimmed_len(s.drop_last())
    } else {
        s.len() as int
    }
}

/// The text without its trailing whitespace.
pub open spec fn spec_trim_end(s: Seq<char>) -> Seq<char> {
    s.take(trimmed_len(s))
}

/// The trimmed length never exceeds the length.
pub proof fn lemma_trimmed_len_le(s: Seq<char>)
    ensures
        0 <= trimmed_len(s) <= s.len(),
    decreases s.len(),
{
    if s.len() > 0 && is_trim_ws(s.last()) {
        lemma_trimmed_len_le(s.drop_last());
    }
}

/// How many characters before the next space, starting at `i`.
pub open spec fn nonspace_count(s: Seq<char>, i: int) -> int
    decreases s.len() - i,
{
    if i < 0 || i >= s.len() || s[i] == ' ' {
        0
    } else {
        1 + nonspace_count(s, i + 1)
    }
}

/// What a request line says: its first three space-separated tokens,
/// read after trimming trailing whitespace, as the method, the URL and
/// the protocol version. A line with fewer than three tokens is
/// refused.
pub open spec fn spec_request_line(s: Seq<char>) -> Result<
    (RequestMethod, Seq<char>, Seq<char>),
    Seq<char>,
> {
    let t = spec_trim_end(s);
    let j0 = nonspace_count(t, 0);
    if j0 >= t.len() {
        Result::Err(("Empty Request URL")@)
    } else {
        let j1 = j0 + 1 + nonspace_count(t, j0 + 1);
        if j1 >= t.len() {
            Result::Err(("Empty Request Version")@)
        } else {
            let j2 = j1 + 1 + nonspace_count(t, j1 + 1);
            Result::Ok(
                (spec_method(t.take(j0)), t.subrange(j0 + 1, j1), t.subrange(j1 + 1, j2)),
            )
        }
    }
}

/// One parsed request: what the request line said, the headers, and
/// the body where one was sent.
pub struct Request {
    pub method: RequestMethod,
    pub url: String,
    pub version: String,
    pub headers: Vec<(String, String)>,
    pub body: Option<String>,
}

/// The reason a request could not be put together from its lines.
#[derive(Debug)]
pub struct RequestInitializationError(pub String);

/// Trims trailing whitespace from the characters of a line.
fn trim_end_chars(chars: &Vec<char>) -> (e: usize)
    ensures
        e as int == trimmed_len(chars@),
{
    let mut e = chars.len();
    proof {
        assert(chars@.take(chars@.len() as int) =~= chars@);
    }
    while e > 0 && (chars[e - 1] == ' ' || chars[e - 1] == '\t' || chars[e - 1] == '\r' || chars[e
        - 1] == '\n')
        invariant
            0 <= e <= chars@.len(),
            trimmed_len(chars@) == trimmed_len(chars@.take(e as int)),
        decreases e,
    {
        proof {
            assert(chars@.take(e as int).last() == chars@[e - 1]);
            assert(chars@.take(e as int).drop_last() =~= chars@.take(e - 1));
        }
        e = e - 1;
    }
    proof {
        if e > 0 {
            assert(chars@.take(e as int).last() == chars@[e - 1]);
        }
        assert(trimmed_len(chars@.take(e as int)) == e);
    }
    e
}

/// The index of the first space at or after `i`, capped at `hi`.
fn scan_token(chars: &Vec<char>, i: usize, hi: usize) -> (j: usize)
    requires
        i <= hi,
        hi as int <= chars@.len(),
    ensures
        j as int == i + nonspace_count(chars@.take(hi as int), i as int),
        i <= j <= hi,
{
    let ghost t = chars@.take(hi as int);
    let mut j = i;
    while j < hi && chars[j] != ' '
        invariant
            i <= j <= hi,
            hi as int <= chars@.len(),
            t == chars@.take(hi as int),
            i + nonspace_count(t, i as int) == j + nonspace_count(t, j as int),
        decreases hi - j,
    {
        proof {
            assert(t[j as int] == chars@[j as int]);
        }
        j = j + 1;
    }
    proof {
        if j < hi {
            assert(t[j as int] == chars@[j as int]);
        }
        assert(nonspace_count(t, j as int) == 0);
    }
    j
}

/// Reads a request line: after trimming trailing whitespace, the first
/// token names the method, the second is the URL, the third the
/// protocol version; a line with fewer than three tokens is refused.
pub fn parse_request_line(line: &str) -> (r: Result<(RequestMethod, String, String), String>)
    ensures
        match spec_request_line(line@) {
            Result::Ok(p) => r matches Ok(q) && q.0 == p.0 && q.1@ == p.1 && q.2@ == p.2,
            Result::Err(m) => r matches Err(e) && e@ == m,
        },
{
    let chars = str_to_chars(line);
    let e = trim_end_chars(&chars);
    proof {
        lemma_trimmed_len_le(chars@);
    }
    let ghost t = spec_trim_end(line@);
    let j0 = scan_token(&chars, 0, e);
    if j0 >= e {
        return Result::Err(String::from_str("Empty Request URL"));
    }
    let j1tok = scan_token(&chars, j0 + 1, e);
    if j1tok >= e {
        return Result::Err(String::from_str("Empty Request Version"));
    }
    let j2tok = scan_token(&chars, j1tok + 1, e);
    let method_str = line.substring_char(0, j0);
    let url = line.substring_char(j0 + 1, j1tok);
    let version = line.substring_char(j1tok + 1, j2tok);
    proof {
        assert(method_str@ =~= t.take(j0 as int));
        assert(url@ =~= t.subrange(j0 as int + 1, j1tok as int));
        assert(version@ =~= t.subrange(j1tok as int + 1, j2tok as int));
    }
    let method = RequestMethod::from(method_str);
    Result::Ok((method, String::from_str(url), String::from_str(version)))
}

/// How many characters before a colon-space separator starts, from `i`.
pub open spec fn sep_free_count(s: Seq<char>, i: int) -> int
    decreases s.len() - i,
{
    if i < 0 || i + 2 > s.len() || (s[i] == ':' && s[i + 1] == ' ') {
        0
    } else {
        1 + sep_free_count(s, i + 1)
    }
}

/// What a header line says: the key before the first colon-space
/// separator, and the value after it with trailing whitespace trimmed.
/// A line without the separator is refused.
pub open spec fn spec_header_line(s: Seq<char>) -> Result<(Seq<char>, Seq<char>), Seq<char>> {
    let j = sep_free_count(s, 0);
    if j + 2 > s.len() {
        Result::Err(("Expect header to be of format <key>: <value>")@)
    } else {
        Result::Ok((s.take(j), spec_trim_end(s.skip(j + 2))))
    }
}

/// Reads one header line into its key and its trimmed value; a line
/// without a colon-space separator is refused.
pub fn parse_header_line(line: &str) -> (r: Result<(String, String), String>)
    ensures
        match spec_header_line(line@) {
            Result::Ok(p) => r matches Ok(q) && q.0@ == p.0 && q.1@ == p.1,
            Result::Err(m) => r matches Err(e) && e@ == m,
        },
{
    let chars = str_to_chars(line);
    let mut j: usize = 0;
    while j < chars.len() && j + 1 < chars.len() && !(chars[j] == ':' && chars[j + 1] == ' ')
        invariant
            0 <= j,
            j <= chars@.len(),
            chars@ == line@,
            sep_free_count(chars@, 0) == j + sep_free_count(chars@, j as int),
        decreases chars@.len() - j,
    {
        j = j + 1;
    }
    if j >= chars.len() || j + 1 >= chars.len() {
        return Result::Err(String::from_str("Expect header to be of format <key>: <value>"));
    }
    let key = line.substring_char(0, j);
    let rest = line.substring_char(j + 2, chars.len());
    let rest_chars = str_to_chars(rest);
    let ve = trim_end_chars(&rest_chars);
    proof {
        lemma_trimmed_len_le(rest_chars@);
    }
    let value = rest.substring_char(0, ve);
    proof {
        assert(key@ =~= line@.take(j as int));
        assert(rest@ =~= line@.skip(j as int + 2));
        assert(value@ =~= spec_trim_end(line@.skip(j as int + 2)));
    }
    Result::Ok((String::from_str(key), String::from_str(value)))
}

/// The first header value stored under `key`, if any.
pub open spec fn find_header(headers: Seq<(Seq<char>, Seq<char>)>, key: Seq<char>) -> Option<
    Seq<char>,
>
    decreases headers,
{
    if headers.len() == 0 {
        Option::None
    } else if headers[0].0 == key {
        Option::Some(headers[0].1)
    } else {
        find_header(headers.drop_first(), key)
    }
}

/// The views of a header vector.
pub open spec fn headers_model(headers: Seq<(String, String)>) -> Seq<(Seq<char>, Seq<char>)> {
    headers.map_values(|p: (String, String)| (p.0@, p.1@))
}

/// `find_header` answers by the first entry whose key matches.
proof fn lemma_find_header_at(headers: Seq<(Seq<char>, Seq<char>)>, key: Seq<char>, j: int)
    requires
        0 <= j < headers.len(),
        headers[j].0 == key,
        forall|k: int| 0 <= k < j ==> (#[trigger] headers[k]).0 != key,
    ensures
        find_header(headers, key) == Option::Some(headers[j].1),
    decreases j,
{
    if j > 0 {
        assert forall|k: int| 0 <= k < j - 1 implies (#[trigger] headers.drop_first()[k]).0
            != key by {
            assert(headers.drop_first()[k] == headers[k + 1]);
        }
        assert(headers.drop_first()[j - 1] == headers[j]);
        lemma_find_header_at(headers.drop_first(), key, j - 1);
    }
}

/// `find_header` finds nothing when no entry's key matches.
proof fn lemma_find_header_none(headers: Seq<(Seq<char>, Seq<char>)>, key: Seq<char>)
    requires
        forall|k: int| 0 <= k < headers.len() ==> (#[trigger] headers[k]).0 != key,
    ensures
        find_header(headers, key) is None,
    decreases headers.len(),
{
    if headers.len() > 0 {
        assert forall|k: int| 0 <= k < headers.len() - 1 implies (
        #[trigger] headers.drop_first()[k]).0 != key by {
            assert(headers.drop_first()[k] == headers[k + 1]);
        }
        lemma_find_header_none(headers.drop_first(), key);
    }
}

/// The announced body length: the first `Content-Length` header value
/// read as a number, or nothing where the header is absent or does not
/// read as one.
pub open spec fn spec_content_length(headers: Seq<(Seq<char>, Seq<char>)>) -> Option<usize> {
    match find_header(headers, ("Content-Length")@) {
        Option::Some(v) => spec_parse_usize(v),
        Option::None => Option::None,
    }
}

impl Request {
    /// Puts a request together from its already parsed pieces.
    pub fn new(
        method: RequestMethod,
        url: String,
        version: String,
        headers: Vec<(String, String)>,
        body: Option<String>,
    ) -> (r: Request)
        ensures
            r.method == method,
            r.url == url,
            r.version == version,
            r.headers == headers,
            r.body == body,
    {
        Request { method, url, version, headers, body }
    }

    /// How many body characters the headers announce, if any.
    pub fn content_length(&self) -> (r: Option<usize>)
        ensures
            r == spec_content_length(headers_model(self.headers@)),
    {
        let wanted = String::from_str("Content-Length");
        let mut k: usize = 0;
        while k < self.headers.len()
            invariant
                0 <= k <= self.headers@.len(),
                wanted@ == ("Content-Length")@,
                forall|j: int| 0 <= j < k ==> (#[trigger] self.headers@[j]).0@ != wanted@,
            decreases self.headers@.len() - k,
        {
            if self.headers[k].0.eq(&wanted) {
                proof {
                    assert forall|j: int| 0 <= j < k implies (#[trigger] headers_model(
                        self.headers@,
                    )[j]).0 != wanted@ by {
                        assert(headers_model(self.headers@)[j] == (
                            self.headers@[j].0@,
                            self.headers@[j].1@,
                        ));
                    }
                    assert(headers_model(self.headers@)[k as int].0 == wanted@);
                    lemma_find_header_at(headers_model(self.headers@), wanted@, k as int);
                }
                return parse_usize(self.headers[k].1.as_str());
            }
            k = k + 1;
        }
        proof {
            assert forall|j: int| 0 <= j < headers_model(self.headers@).len() implies (
            #[trigger] headers_model(self.headers@)[j]).0 != wanted@ by {
                assert(headers_model(self.headers@)[j] == (
                    self.headers@[j].0@,
                    self.headers@[j].1@,
                ));
            }
            lemma_find_header_none(headers_model(self.headers@), wanted@);
        }
        Option::None
    }
}

/// How many characters before the next slash, starting at `i`.
pub open spec fn slash_free_count(s: Seq<char>, i: int) -> int
    decreases s.len() - i,
{
    if i < 0 || i >= s.len() || s[i] == '/' {
        0
    } else {
        1 + slash_free_count(s, i + 1)
    }
}

/// A slash run has a non-negative length.
proof fn lemma_slash_free_count_nonneg(s: Seq<char>, i: int)
    ensures
        slash_free_count(s, i) >= 0,
    decreases s.len() - i,
{
    if !(i < 0 || i >= s.len() || s[i] == '/') {
        lemma_slash_free_count_nonneg(s, i + 1);
    }
}

/// The slash-separated segments of a URL path from `i` on; a leading
/// slash contributes an empty first segment.
pub open spec fn spec_segments(s: Seq<char>, i: int) -> Seq<Seq<char>>
    decreases s.len() - i
    via Self_segments_decreases
{
    let j = i + slash_free_count(s, i);
    if j >= s.len() {
        seq![s.subrange(i, s.len() as int)]
    } else {
        seq![s.subrange(i, j)] + spec_segments(s, j + 1)
    }
}

#[via_fn]
proof fn Self_segments_decreases(s: Seq<char>, i: int) {
    lemma_slash_free_count_nonneg(s, i);
}

/// Splits a URL path at its slashes, empty segments kept.
pub fn path_segments(url: &str) -> (r: Vec<String>)
    ensures
        r@.map_values(|seg: String| seg@) == spec_segments(url@, 0),
{
    let chars = str_to_chars(url);
    let mut segments: Vec<String> = Vec::new();
    let mut cur: usize = 0;
    loop
        invariant
            0 <= cur,
            cur as int <= chars@.len(),
            chars@ == url@,
            spec_segments(url@, 0) == segments@.map_values(|seg: String| seg@) + spec_segments(
                url@,
                cur as int,
            ),
        decreases chars@.len() - cur,
    {
        let mut j = cur;
        while j < chars.len() && chars[j] != '/'
            invariant
                cur <= j,
                j == cur || j as int <= chars@.len(),
                chars@ == url@,
                cur + slash_free_count(chars@, cur as int) == j + slash_free_count(
                    chars@,
                    j as int,
                ),
            decreases chars@.len() - j,
        {
            j = j + 1;
        }
        if j >= chars.len() {
            let seg = url.substring_char(cur, chars.len());
            proof {
                assert(seg@ =~= url@.subrange(cur as int, url@.len() as int));
            }
            let ghost before = segments@;
            segments.push(String::from_str(seg));
            proof {
                assert(segments@.map_values(|s2: String| s2@) =~= before.map_values(
                    |s2: String| s2@,
                ) + seq![url@.subrange(cur as int, url@.len() as int)]);
                assert(spec_segments(url@, cur as int) =~= seq![
                    url@.subrange(cur as int, url@.len() as int),
                ]);
                assert(segments@.map_values(|s2: String| s2@) =~= spec_segments(url@, 0));
            }
            return segments;
        }
        let seg = url.substring_char(cur, j);
        proof {
            assert(seg@ =~= url@.subrange(cur as int, j as int));
        }
        let ghost before = segments@;
        segments.push(String::from_str(seg));
        proof {
            assert(segments@.map_values(|s2: String| s2@) =~= before.map_values(
                |s2: String| s2@,
            ) + seq![url@.subrange(cur as int, j as int)]);
            assert(spec_segments(url@, cur as int) == seq![url@.subrange(cur as int, j as int)]
                + spec_segments(url@, j + 1));
        }
        cur = j + 1;
    }
}

} // verus!
