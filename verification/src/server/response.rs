use vstd::prelude::*;

use crate::json::stringify::{nat_chars, push_char, push_u64};
use crate::server::status_code::StatusCode;

verus! {

/// An HTTP response about to be written out: status line pieces, the
/// body, and its length in characters.
pub struct Response {
    content_length: usize,
    content_type: Option<String>,
    content: String,
    protocol: String,
    status_code: StatusCode,
}

/// The header label before the body length.
pub open spec fn content_length_label() -> Seq<char> {
    seq![
        'C',
        'o',
        'n',
        't',
        'e',
        'n',
        't',
        '-',
        'L',
        'e',
        'n',
        'g',
        't',
        'h',
        ':',
        ' ',
    ]
}

/// The header label before the content type.
pub open spec fn content_type_label() -> Seq<char> {
    seq![
        'C',
        'o',
        'n',
        't',
        'e',
        'n',
        't',
        '-',
        'T',
        'y',
        'p',
        'e',
        ':',
        ' ',
    ]
}

/// The line break between header lines.
pub open spec fn crlf() -> Seq<char> {
    seq!['\r', '\n']
}

impl Response {
    /// The body text.
    pub closed spec fn spec_content(self) -> Seq<char> {
        self.content@
    }

    /// The body length the header announces.
    pub closed spec fn spec_content_length(self) -> int {
        self.content_length as int
    }

    /// The content type header value, where one is set.
    pub closed spec fn spec_content_type(self) -> Option<Seq<char>> {
        match self.content_type {
            Option::Some(t) => Option::Some(t@),
            Option::None => Option::None,
        }
    }

    /// The protocol the status line names.
    pub closed spec fn spec_protocol(self) -> Seq<char> {
        self.protocol@
    }

    /// The status.
    pub closed spec fn spec_status(self) -> StatusCode {
        self.status_code
    }

    /// The whole response text: status line, length header, content
    /// type header where one is set, a blank line, then the body.
    pub open spec fn spec_format(self) -> Seq<char> {
        self.spec_protocol() + seq![' '] + self.spec_status().spec_desc() + crlf()
            + content_length_label() + nat_chars(self.spec_content_length() as nat) + crlf() + (
        match self.spec_content_type() {
            Option::Some(t) => content_type_label() + t + crlf(),
            Option::None => Seq::empty(),
        }) + crlf() + self.spec_content()
    }

    /// Renders the response text exactly as `spec_format` lays it out.
    pub fn format(&self) -> (r: String)
        ensures
            r@ == self.spec_format(),
    {
        let mut out = String::new();
        out.append(self.protocol.as_str());
        push_char(&mut out, ' ');
        out.append(self.status_code.get_desc());
        push_char(&mut out, '\r');
        push_char(&mut out, '\n');
        out.append("Content-Length: ");
        proof {
            reveal_strlit("Content-Length: ");
            assert(("Content-Length: ")@ =~= content_length_label());
        }
        push_u64(&mut out, self.content_length as u64);
        push_char(&mut out, '\r');
        push_char(&mut out, '\n');
        match &self.content_type {
            Option::Some(t) => {
                out.append("Content-Type: ");
                proof {
                    reveal_strlit("Content-Type: ");
                    assert(("Content-Type: ")@ =~= content_type_label());
                }
                out.append(t.as_str());
                push_char(&mut out, '\r');
                push_char(&mut out, '\n');
            }
            Option::None => {}
        }
        push_char(&mut out, '\r');
        push_char(&mut out, '\n');
        out.append(self.content.as_str());
        proof {
            assert(out@ =~= self.spec_format());
        }
        out
    }
}

/// Builds a `Response` field by field, starting from an empty body, no
/// content type, an empty protocol and a success status.
pub struct ResponseBuilder {
    content_length: usize,
    content: String,
    protocol: String,
    status_code: StatusCode,
    content_type: Option<String>,
}

impl ResponseBuilder {
    /// The body text set so far.
    pub closed spec fn spec_content(self) -> Seq<char> {
        self.content@
    }

    /// The body length set so far.
    pub closed spec fn spec_content_length(self) -> int {
        self.content_length as int
    }

    /// The content type set so far, if any.
    pub closed spec fn spec_content_type(self) -> Option<Seq<char>> {
        match self.content_type {
            Option::Some(t) => Option::Some(t@),
            Option::None => Option::None,
        }
    }

    /// The protocol set so far.
    pub closed spec fn spec_protocol(self) -> Seq<char> {
        self.protocol@
    }

    /// The status set so far.
    pub closed spec fn spec_status(self) -> StatusCode {
        self.status_code
    }

    /// A builder with nothing set: empty body and protocol, no content
    /// type, success status.
    pub fn new() -> (r: ResponseBuilder)
        ensures
            r.spec_content() == Seq::<char>::empty(),
            r.spec_content_length() == 0,
            r.spec_content_type() is None,
            r.spec_protocol() == Seq::<char>::empty(),
            r.spec_status() == StatusCode::Okay,
    {
        ResponseBuilder {
            content: String::new(),
            content_length: 0,
            content_type: Option::None,
            protocol: String::new(),
            status_code: StatusCode::Okay,
        }
    }

    /// Sets the body and records its length in characters.
    pub fn set_content(self, content: String) -> (r: ResponseBuilder)
        ensures
            r.spec_content() == content@,
            r.spec_content_length() == content@.len(),
            r.spec_content_type() == self.spec_content_type(),
            r.spec_protocol() == self.spec_protocol(),
            r.spec_status() == self.spec_status(),
    {
        let length = content.as_str().unicode_len();
        ResponseBuilder { content_length: length, content, ..self }
    }

    /// Sets the content type header value.
    pub fn set_content_type(self, content_type: String) -> (r: ResponseBuilder)
        ensures
            r.spec_content_type() == Option::Some(content_type@),
            r.spec_content() == self.spec_content(),
            r.spec_content_length() == self.spec_content_length(),
            r.spec_protocol() == self.spec_protocol(),
            r.spec_status() == self.spec_status(),
    {
        ResponseBuilder { content_type: Option::Some(content_type), ..self }
    }

    /// Sets the protocol named in the status line.
    pub fn set_protocol(self, protocol: String) -> (r: ResponseBuilder)
        ensures
            r.spec_protocol() == protocol@,
            r.spec_content() == self.spec_content(),
            r.spec_content_length() == self.spec_content_length(),
            r.spec_content_type() == self.spec_content_type(),
            r.spec_status() == self.spec_status(),
    {
        ResponseBuilder { protocol, ..self }
    }

    /// Sets the status.
    pub fn set_status_code(self, status_code: StatusCode) -> (r: ResponseBuilder)
        ensures
            r.spec_status() == status_code,
            r.spec_content() == self.spec_content(),
            r.spec_content_length() == self.spec_content_length(),
            r.spec_content_type() == self.spec_content_type(),
            r.spec_protocol() == self.spec_protocol(),
    {
        ResponseBuilder { status_code, ..self }
    }

    /// The finished response, carrying every field as set.
    pub fn build(self) -> (r: Response)
        ensures
            r.spec_content() == self.spec_content(),
            r.spec_content_length() == self.spec_content_length(),
            r.spec_content_type() == self.spec_content_type(),
            r.spec_protocol() == self.spec_protocol(),
            r.spec_status() == self.spec_status(),
    {
        Response {
            content: self.content,
            content_length: self.content_length,
            content_type: self.content_type,
            status_code: self.status_code,
            protocol: self.protocol,
        }
    }

    /// The stock not-found response: a small JSON message under the
    /// given protocol.
    pub fn build_404(version: String) -> (r: Response)
        ensures
            r.spec_status() == StatusCode::NotFound,
            r.spec_protocol() == version@,
            r.spec_content() == (r#"{ "message": "404 Not Found" }"#)@,
            r.spec_content_length() == (r#"{ "message": "404 Not Found" }"#)@.len(),
            r.spec_content_type() == Option::Some(("application/json")@),
    {
        let body = String::from_str(r#"{ "message": "404 Not Found" }"#);
        let ct = String::from_str("application/json");
        Self::new().set_status_code(StatusCode::NotFound).set_protocol(version).set_content(
            body,
        ).set_content_type(ct).build()
    }
}

} // verus!
