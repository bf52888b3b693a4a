//! The response under construction, and its form on the wire.

use crate::json::encode_json;
use crate::json::EncodeError;
use crate::strmap::put;
use crate::strmap::Entries;
use crate::strmap::StrMap;
use crate::text::decimal;
use crate::text::decimal_string;
use serde::Serialize;
use vstd::prelude::*;
use vstd::string::StringExecFns;
use vstd::utf8::encode_utf8;

verus! {

/// What a [`Response`] holds.
pub struct ResponseView {
    pub status: u16,
    pub headers: Entries,
    pub body: Seq<char>,
}

/// The reason phrase that follows a status code on the status line.
pub open spec fn reason_phrase(code: u16) -> Seq<char> {
    if code == 200 {
        "OK"@
    } else if code == 201 {
        "Created"@
    } else if code == 400 {
        "Bad Request"@
    } else if code == 401 {
        "Unauthorized"@
    } else if code == 403 {
        "Forbidden"@
    } else if code == 404 {
        "Not Found"@
    } else if code == 500 {
        "Internal Server Error"@
    } else {
        "Unknown"@
    }
}

/// The first line of a response: protocol, status code, reason phrase.
pub open spec fn status_line(code: u16) -> Seq<char> {
    "HTTP/1.1 "@ + decimal(code as nat) + " "@ + reason_phrase(code) + "\r\n"@
}

/// One header as a line.
pub open spec fn header_line(key: Seq<char>, value: Seq<char>) -> Seq<char> {
    key + ": "@ + value + "\r\n"@
}

/// The header lines of `hs`, in order.
pub open spec fn header_lines(hs: Entries) -> Seq<char>
    decreases hs.len(),
{
    if hs.len() == 0 {
        Seq::empty()
    } else {
        header_lines(hs.drop_last()) + header_line(hs.last().0, hs.last().1)
    }
}

/// The value of the `Content-Length` header for `body`: the number of bytes
/// of its UTF-8 form, in decimal.
pub open spec fn content_length(body: Seq<char>) -> Seq<char> {
    decimal(encode_utf8(body).len())
}

/// The headers as they go on the wire: `Content-Length` is bound to the length
/// of the body, whatever it was bound to before.
pub open spec fn wire_headers(r: ResponseView) -> Entries {
    put(r.headers, "Content-Length"@, content_length(r.body))
}

/// The response as text on the wire: status line, header lines, an empty
/// line, the body.
pub open spec fn wire_text(r: ResponseView) -> Seq<char> {
    status_line(r.status) + header_lines(wire_headers(r)) + "\r\n"@ + r.body
}

/// `r` after `body` was sent on it.
pub open spec fn sent(r: ResponseView, body: Seq<char>) -> ResponseView {
    ResponseView {
        status: r.status,
        headers: put(r.headers, "Content-Length"@, content_length(body)),
        body,
    }
}

/// `r` after a JSON encoding, successful or not, was sent on it.
pub open spec fn json_sent(r: ResponseView, encoded: Result<Seq<char>, EncodeError>) -> ResponseView {
    match encoded {
        Ok(text) => sent(
            ResponseView {
                status: r.status,
                headers: put(r.headers, "Content-Type"@, "application/json"@),
                body: r.body,
            },
            text,
        ),
        Err(_) => sent(
            ResponseView { status: 500, headers: r.headers, body: r.body },
            "{\"error\": \"Failed to serialize JSON\"}"@,
        ),
    }
}

/// The outcome of an encoding, with the text taken by its characters.
pub open spec fn encoding_view(encoded: Result<String, EncodeError>) -> Result<Seq<char>, EncodeError> {
    match encoded {
        Ok(text) => Ok(text@),
        Err(e) => Err(e),
    }
}

/// A response that handlers and middleware fill in step by step.
pub struct Response {
    status_code: u16,
    body: String,
    headers: StrMap,
}

impl View for Response {
    type V = ResponseView;

    closed spec fn view(&self) -> ResponseView {
        ResponseView { status: self.status_code, headers: self.headers@, body: self.body@ }
    }
}

fn reason(code: u16) -> (s: &'static str)
    ensures
        s@ == reason_phrase(code),
{
    if code == 200 {
        "OK"
    } else if code == 201 {
        "Created"
    } else if code == 400 {
        "Bad Request"
    } else if code == 401 {
        "Unauthorized"
    } else if code == 403 {
        "Forbidden"
    } else if code == 404 {
        "Not Found"
    } else if code == 500 {
        "Internal Server Error"
    } else {
        "Unknown"
    }
}

impl Response {
    /// A fresh response: status 200, no headers, empty body.
    pub fn new() -> (r: Response)
        ensures
            r@ == (ResponseView { status: 200, headers: Seq::empty(), body: Seq::empty() }),
    {
        Response { status_code: 200, body: String::new(), headers: StrMap::new() }
    }

    /// Sets the status code.
    pub fn status(&mut self, code: u16) -> (r: &mut Self)
        ensures
            r@ == (ResponseView { status: code, headers: old(self)@.headers, body: old(self)@.body }),
            *final(self) == *final(r),
    {
        self.status_code = code;
        self
    }

    /// Binds header `key` to `value`, overwriting an earlier value of `key`.
    pub fn header(&mut self, key: &str, value: &str) -> (r: &mut Self)
        ensures
            r@ == (ResponseView {
                status: old(self)@.status,
                headers: put(old(self)@.headers, key@, value@),
                body: old(self)@.body,
            }),
            *final(self) == *final(r),
    {
        self.headers.set(key, value);
        self
    }

    /// Finishes the response with `body`: the body is replaced and
    /// `Content-Length` is bound to its length in bytes.
    pub fn send(&mut self, body: &str)
        ensures
            final(self)@ == sent(old(self)@, body@),
    {
        self.body = body.to_owned();
        let n = decimal_string(body.as_bytes().len());
        self.headers.set("Content-Length", n.as_str());
    }

    /// Finishes the response with the outcome of a JSON encoding: on success
    /// the text is sent as `application/json`; on failure status 500 is sent
    /// with a fixed error body, and `Content-Type` is left as the caller set it.
    pub fn send_json(&mut self, encoded: Result<String, EncodeError>)
        ensures
            final(self)@ == json_sent(old(self)@, encoding_view(encoded)),
    {
        match encoded {
            Ok(text) => {
                self.headers.set("Content-Type", "application/json");
                self.send(text.as_str());
            },
            Err(_) => {
                self.status_code = 500;
                self.send("{\"error\": \"Failed to serialize JSON\"}");
            },
        }
    }

    /// Encodes `data` as JSON and finishes the response with the outcome, as
    /// [`Response::send_json`] does. Which outcome that is, the encoder decides.
    pub fn json<T: Serialize>(&mut self, data: &T)
        ensures
            exists|encoded: Result<Seq<char>, EncodeError>| final(self)@ == json_sent(old(self)@, encoded),
    {
        let encoded = encode_json(data);
        let ghost witness = encoding_view(encoded);
        self.send_json(encoded);
        assert(self@ == json_sent(old(self)@, witness));
    }

    /// The status code.
    pub fn status_code(&self) -> (code: u16)
        ensures
            code == self@.status,
    {
        self.status_code
    }

    /// The body.
    pub fn body(&self) -> (b: &str)
        ensures
            b@ == self@.body,
    {
        self.body.as_str()
    }

    /// The headers.
    pub fn headers(&self) -> (h: &StrMap)
        ensures
            h@ == self@.headers,
    {
        &self.headers
    }

    /// The response as text on the wire.
    pub fn to_text(&self) -> (text: String)
        ensures
            text@ == wire_text(self@),
    {
        let mut hs = self.headers.clone();
        let n = decimal_string(self.body.as_str().as_bytes().len());
        hs.set("Content-Length", n.as_str());
        let mut out = "HTTP/1.1 ".to_owned();
        let code = decimal_string(self.status_code as usize);
        out.append(code.as_str());
        out.append(" ");
        out.append(reason(self.status_code));
        out.append("\r\n");
        assert(out@ =~= status_line(self@.status));
        let mut i: usize = 0;
        let count = hs.len();
        while i < count
            invariant
                i <= count,
                count == hs@.len(),
                out@ == status_line(self@.status) + header_lines(hs@.take(i as int)),
            decreases count - i,
        {
            let ghost before = out@;
            out.append(hs.key_at(i));
            out.append(": ");
            out.append(hs.value_at(i));
            out.append("\r\n");
            proof {
                let next = hs@.take(i + 1);
                assert(next.drop_last() =~= hs@.take(i as int));
                assert(next.last() == hs@[i as int]);
                assert(out@ =~= before + header_line(hs@[i as int].0, hs@[i as int].1));
                assert(out@ =~= status_line(self@.status) + header_lines(next));
            }
            i = i + 1;
        }
        assert(hs@.take(count as int) =~= hs@);
        out.append("\r\n");
        out.append(self.body.as_str());
        assert(out@ =~= wire_text(self@));
        out
    }
}

} // verus!
