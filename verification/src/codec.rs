//! The message codec: bytes to request, response to bytes.

use crate::request::decode_text;
use crate::request::is_token;
use crate::request::lemma_parse_written;
use crate::request::parse_request;
use crate::request::request_text;
use crate::request::ParseError;
use crate::request::Request;
use crate::request::RequestView;
use crate::response::content_length;
use crate::response::header_lines;
use crate::response::status_line;
use crate::response::wire_headers;
use crate::response::wire_text;
use crate::response::Response;
use crate::response::ResponseView;
use crate::strmap::distinct_keys;
use crate::strmap::has_key;
use crate::strmap::lemma_put;
use crate::strmap::lemma_put_twice;
use crate::strmap::lemma_to_map_dom;
use crate::strmap::put;
use crate::strmap::to_map;
use vstd::prelude::*;
use vstd::string::StrSliceExecFns;
use vstd::utf8::decode_utf8;
use vstd::utf8::encode_utf8;
use vstd::utf8::encode_utf8_decode_utf8;
use vstd::utf8::encode_utf8_valid_utf8;
use vstd::utf8::valid_utf8;

verus! {

/// The text that `String::from_utf8_lossy` makes of `bytes`: the text that
/// they encode, with U+FFFD in place of each ill-formed run.
pub uninterp spec fn utf8_lossy(bytes: Seq<u8>) -> Seq<char>;

/// Trusted: calls `String::from_utf8_lossy`. The result is a function of the
/// bytes alone, named [`utf8_lossy`]; bytes that are valid UTF-8 come back as
/// the text that they encode, unchanged.
#[verifier::external_body]
fn lossy_text(raw: &[u8]) -> (text: String)
    ensures
        text@ == utf8_lossy(raw@),
        valid_utf8(raw@) ==> text@ == decode_utf8(raw@),
{
    String::from_utf8_lossy(raw).into_owned()
}

/// Reads a request from raw bytes.
///
/// The bytes are taken as UTF-8 text, leniently, and the text is read as
/// [`parse_request`] says.
pub fn decode(raw: &[u8]) -> (r: Result<Request, ParseError>)
    ensures
        match r {
            Ok(req) => parse_request(utf8_lossy(raw@)) == Ok::<RequestView, ParseError>(req@),
            Err(e) => parse_request(utf8_lossy(raw@)) == Err::<RequestView, ParseError>(e),
        },
        valid_utf8(raw@) ==> utf8_lossy(raw@) == decode_utf8(raw@),
{
    let text = lossy_text(raw);
    decode_text(text.as_str())
}

/// Writes a response as the bytes that go on the wire.
pub fn encode(res: &Response) -> (wire: Vec<u8>)
    ensures
        wire@ == encode_utf8(wire_text(res@)),
{
    let text = res.to_text();
    text.as_str().as_bytes_vec()
}

/// Writes a request in its minimal form as bytes.
pub fn encode_request(req: &Request) -> (wire: Vec<u8>)
    ensures
        wire@ == encode_utf8(request_text(req@)),
{
    let text = req.to_text();
    text.as_str().as_bytes_vec()
}

/// The bytes of a text in two parts are the bytes of the parts.
pub proof fn lemma_encode_concat(a: Seq<char>, b: Seq<char>)
    ensures
        encode_utf8(a + b) == encode_utf8(a) + encode_utf8(b),
    decreases a.len(),
{
    if a.len() == 0 {
        assert(a + b =~= b);
        assert(encode_utf8(a) + encode_utf8(b) =~= encode_utf8(b));
    } else {
        lemma_encode_concat(a.drop_first(), b);
        assert((a + b).drop_first() =~= a.drop_first() + b);
        assert((a + b)[0] == a[0]);
        assert(encode_utf8(a + b) =~= encode_utf8(a) + encode_utf8(b));
    }
}

/// A request whose method and path are tokens survives the wire: its bytes
/// are valid UTF-8, and the text that they encode is read back as the same
/// request.
pub proof fn lemma_wire_round_trip(r: RequestView)
    requires
        is_token(r.method),
        is_token(r.path),
    ensures
        valid_utf8(encode_utf8(request_text(r))),
        parse_request(decode_utf8(encode_utf8(request_text(r)))) == Ok::<RequestView, ParseError>(r),
{
    encode_utf8_valid_utf8(request_text(r));
    encode_utf8_decode_utf8(request_text(r));
    lemma_parse_written(r);
}

/// On the wire a response carries `Content-Length` once, with the number of
/// bytes of its body, which are the last bytes of the message; what the header
/// was set to before makes no difference.
pub proof fn lemma_content_length(r: ResponseView, earlier: Seq<char>)
    requires
        distinct_keys(r.headers),
    ensures
        distinct_keys(wire_headers(r)),
        has_key(wire_headers(r), "Content-Length"@),
        to_map(wire_headers(r))["Content-Length"@] == content_length(r.body),
        encode_utf8(wire_text(r)) == encode_utf8(
            status_line(r.status) + header_lines(wire_headers(r)) + "\r\n"@,
        ) + encode_utf8(r.body),
        wire_text(
            ResponseView {
                status: r.status,
                headers: put(r.headers, "Content-Length"@, earlier),
                body: r.body,
            },
        ) == wire_text(r),
{
    let key = "Content-Length"@;
    lemma_put(r.headers, key, content_length(r.body));
    lemma_to_map_dom(wire_headers(r), key);
    lemma_encode_concat(status_line(r.status) + header_lines(wire_headers(r)) + "\r\n"@, r.body);
    lemma_put_twice(r.headers, key, earlier, content_length(r.body));
}

} // verus!
