//! The request, and how its text is read and written.
//!
//! A request is read from its first line and from what follows the first
//! empty line. The first line gives the method and the path, as its first two
//! tokens between white space; header lines are passed over.

use crate::text::chars_of;
use crate::text::is_space;
use crate::text::is_space_char;
use vstd::prelude::*;
use vstd::string::StrSliceExecFns;
use vstd::string::StringExecFns;

verus! {

/// One parsed request.
#[derive(Debug)]
pub struct Request {
    pub method: String,
    pub path: String,
    pub body: String,
}

/// What a [`Request`] holds.
pub struct RequestView {
    pub method: Seq<char>,
    pub path: Seq<char>,
    pub body: Seq<char>,
}

impl View for Request {
    type V = RequestView;

    open spec fn view(&self) -> RequestView {
        RequestView { method: self.method@, path: self.path@, body: self.body@ }
    }
}

impl Clone for Request {
    fn clone(&self) -> (out: Request)
        ensures
            out@ == self@,
    {
        Request { method: self.method.clone(), path: self.path.clone(), body: self.body.clone() }
    }
}

/// Why a text is no request.
#[derive(Debug, Clone, Copy, PartialEq, Eq)]
pub enum ParseError {
    /// The first line has fewer than two tokens.
    MalformedRequestLine,
}

/// The first position at or after `from` that holds no white space, or the
/// length of `s`.
pub open spec fn skip_spaces(s: Seq<char>, from: int) -> int
    decreases s.len() - from,
{
    if 0 <= from < s.len() && is_space(s[from]) {
        skip_spaces(s, from + 1)
    } else {
        from
    }
}

/// The first position at or after `from` that holds white space, or the
/// length of `s`.
pub open spec fn skip_token(s: Seq<char>, from: int) -> int
    decreases s.len() - from,
{
    if 0 <= from < s.len() && !is_space(s[from]) {
        skip_token(s, from + 1)
    } else {
        from
    }
}

/// The first position at or after `from` that holds a line feed, or the
/// length of `s`.
pub open spec fn line_end(s: Seq<char>, from: int) -> int
    decreases s.len() - from,
{
    if 0 <= from < s.len() && s[from] != '\n' {
        line_end(s, from + 1)
    } else {
        from
    }
}

/// An empty line, `"\r\n\r\n"`, starts at position `i` of `s`.
pub open spec fn blank_line_at(s: Seq<char>, i: int) -> bool {
    &&& 0 <= i
    &&& i + 4 <= s.len()
    &&& s[i] == '\r'
    &&& s[i + 1] == '\n'
    &&& s[i + 2] == '\r'
    &&& s[i + 3] == '\n'
}

/// The position just after the first empty line that starts at or after
/// `from`, or the length of `s` where there is none.
pub open spec fn body_start(s: Seq<char>, from: int) -> int
    decreases s.len() - from,
{
    if from < 0 || from + 4 > s.len() {
        s.len() as int
    } else if blank_line_at(s, from) {
        from + 4
    } else {
        body_start(s, from + 1)
    }
}

/// What `text` says as a request.
///
/// The method and the path are the first two tokens of the first line. The
/// body is all that follows the first empty line, and empty where there is
/// none. A first line with fewer than two tokens is malformed.
pub open spec fn parse_request(text: Seq<char>) -> Result<RequestView, ParseError> {
    let line = text.take(line_end(text, 0));
    let method_from = skip_spaces(line, 0);
    let method_to = skip_token(line, method_from);
    let path_from = skip_spaces(line, method_to);
    let path_to = skip_token(line, path_from);
    if path_from < path_to {
        Ok(
            RequestView {
                method: line.subrange(method_from, method_to),
                path: line.subrange(path_from, path_to),
                body: text.skip(body_start(text, 0)),
            },
        )
    } else {
        Err(ParseError::MalformedRequestLine)
    }
}

/// A request in its minimal written form: method, a space, path, an empty
/// line, body.
pub open spec fn request_text(r: RequestView) -> Seq<char> {
    r.method + " "@ + r.path + "\r\n\r\n"@ + r.body
}

/// A token: not empty, and free of white space.
pub open spec fn is_token(s: Seq<char>) -> bool {
    &&& s.len() > 0
    &&& forall|i: int| 0 <= i < s.len() ==> !is_space(#[trigger] s[i])
}

proof fn lemma_skip_spaces_range(s: Seq<char>, from: int)
    requires
        0 <= from <= s.len(),
    ensures
        from <= skip_spaces(s, from) <= s.len(),
        forall|j: int| from <= j < skip_spaces(s, from) ==> is_space(#[trigger] s[j]),
        skip_spaces(s, from) < s.len() ==> !is_space(s[skip_spaces(s, from)]),
    decreases s.len() - from,
{
    if from < s.len() && is_space(s[from]) {
        lemma_skip_spaces_range(s, from + 1);
    }
}

proof fn lemma_skip_token_range(s: Seq<char>, from: int)
    requires
        0 <= from <= s.len(),
    ensures
        from <= skip_token(s, from) <= s.len(),
        forall|j: int| from <= j < skip_token(s, from) ==> !is_space(#[trigger] s[j]),
        skip_token(s, from) < s.len() ==> is_space(s[skip_token(s, from)]),
    decreases s.len() - from,
{
    if from < s.len() && !is_space(s[from]) {
        lemma_skip_token_range(s, from + 1);
    }
}

proof fn lemma_skip_spaces_to(s: Seq<char>, from: int, to: int)
    requires
        0 <= from <= to <= s.len(),
        forall|j: int| from <= j < to ==> is_space(#[trigger] s[j]),
        to < s.len() ==> !is_space(s[to]),
    ensures
        skip_spaces(s, from) == to,
    decreases to - from,
{
    if from < to {
        lemma_skip_spaces_to(s, from + 1, to);
    }
}

proof fn lemma_skip_token_to(s: Seq<char>, from: int, to: int)
    requires
        0 <= from <= to <= s.len(),
        forall|j: int| from <= j < to ==> !is_space(#[trigger] s[j]),
        to < s.len() ==> is_space(s[to]),
    ensures
        skip_token(s, from) == to,
    decreases to - from,
{
    if from < to {
        lemma_skip_token_to(s, from + 1, to);
    }
}

proof fn lemma_line_end_to(s: Seq<char>, from: int, to: int)
    requires
        0 <= from <= to <= s.len(),
        forall|j: int| from <= j < to ==> #[trigger] s[j] != '\n',
        to < s.len() ==> s[to] == '\n',
    ensures
        line_end(s, from) == to,
    decreases to - from,
{
    if from < to {
        lemma_line_end_to(s, from + 1, to);
    }
}

proof fn lemma_body_start_to(s: Seq<char>, from: int, to: int)
    requires
        0 <= from <= to,
        forall|j: int| from <= j < to ==> !blank_line_at(s, j),
        blank_line_at(s, to),
    ensures
        body_start(s, from) == to + 4,
    decreases to - from,
{
    if from < to {
        lemma_body_start_to(s, from + 1, to);
    }
}

/// The method and the path of a parsed request are tokens.
pub proof fn lemma_parsed_tokens(text: Seq<char>)
    ensures
        parse_request(text) matches Ok(r) ==> is_token(r.method) && is_token(r.path),
{
    let stop = line_end(text, 0);
    lemma_line_end_range(text, 0);
    let line = text.take(stop);
    let method_from = skip_spaces(line, 0);
    lemma_skip_spaces_range(line, 0);
    let method_to = skip_token(line, method_from);
    lemma_skip_token_range(line, method_from);
    let path_from = skip_spaces(line, method_to);
    lemma_skip_spaces_range(line, method_to);
    let path_to = skip_token(line, path_from);
    lemma_skip_token_range(line, path_from);
    if path_from < path_to {
        let method = line.subrange(method_from, method_to);
        let path = line.subrange(path_from, path_to);
        assert(method_from < method_to) by {
            if method_from == method_to {
                if method_from < line.len() {
                    assert(!is_space(line[method_from]));
                    assert(is_space(line[method_to]));
                }
            }
        }
        assert forall|i: int| 0 <= i < method.len() implies !is_space(#[trigger] method[i]) by {
            assert(method[i] == line[method_from + i]);
        }
        assert forall|i: int| 0 <= i < path.len() implies !is_space(#[trigger] path[i]) by {
            assert(path[i] == line[path_from + i]);
        }
    }
}

proof fn lemma_line_end_range(s: Seq<char>, from: int)
    requires
        0 <= from <= s.len(),
    ensures
        from <= line_end(s, from) <= s.len(),
    decreases s.len() - from,
{
    if from < s.len() && s[from] != '\n' {
        lemma_line_end_range(s, from + 1);
    }
}

/// A request whose method and path are tokens is read back from its written
/// form exactly.
pub proof fn lemma_parse_written(r: RequestView)
    requires
        is_token(r.method),
        is_token(r.path),
    ensures
        parse_request(request_text(r)) == Ok::<RequestView, ParseError>(r),
{
    reveal_strlit(" ");
    reveal_strlit("\r\n\r\n");
    let text = request_text(r);
    let a = r.method.len() as int;
    let b = a + 1 + r.path.len();
    assert(text.len() == b + 4 + r.body.len());
    assert forall|j: int| 0 <= j < a implies #[trigger] text[j] == r.method[j] by {}
    assert(text[a] == ' ');
    assert forall|j: int| a + 1 <= j < b implies #[trigger] text[j] == r.path[j - a - 1] by {}
    assert(text[b] == '\r');
    assert(text[b + 1] == '\n');
    assert(text[b + 2] == '\r');
    assert(text[b + 3] == '\n');
    assert forall|j: int| 0 <= j < b + 1 implies #[trigger] text[j] != '\n' by {
        if j < a {
            assert(!is_space(r.method[j]));
        } else if a + 1 <= j < b {
            assert(!is_space(r.path[j - a - 1]));
        }
    }
    lemma_line_end_to(text, 0, b + 1);
    let line = text.take(b + 1);
    assert forall|j: int| 0 <= j < a implies !is_space(#[trigger] line[j]) by {
        assert(line[j] == r.method[j]);
    }
    assert forall|j: int| a + 1 <= j < b implies !is_space(#[trigger] line[j]) by {
        assert(line[j] == r.path[j - a - 1]);
    }
    assert(is_space(line[a]));
    assert(is_space(line[b]));
    assert(!is_space(line[0])) by {
        assert(line[0] == r.method[0]);
    }
    assert(!is_space(line[a + 1])) by {
        assert(line[a + 1] == r.path[0]);
    }
    lemma_skip_spaces_to(line, 0, 0);
    lemma_skip_token_to(line, 0, a);
    lemma_skip_spaces_to(line, a, a + 1);
    lemma_skip_token_to(line, a + 1, b);
    assert forall|j: int| 0 <= j < b implies !blank_line_at(text, j) by {
        if j < a {
            assert(!is_space(r.method[j]));
            assert(text[j] != '\r');
        } else if j == a {
            assert(text[j] != '\r');
        } else {
            assert(!is_space(r.path[j - a - 1]));
            assert(text[j] != '\r');
        }
    }
    lemma_body_start_to(text, 0, b);
    assert(line.subrange(0, a) =~= r.method);
    assert(line.subrange(a + 1, b) =~= r.path);
    assert(text.skip(b + 4) =~= r.body);
}

/// Writing a parsed request and reading it again gives the same request: the
/// method, the path and the body are kept.
pub proof fn lemma_round_trip(text: Seq<char>)
    ensures
        parse_request(text) matches Ok(r) ==> parse_request(request_text(r)) == Ok::<
            RequestView,
            ParseError,
        >(r),
{
    lemma_parsed_tokens(text);
    if let Ok(r) = parse_request(text) {
        lemma_parse_written(r);
    }
}

fn scan_spaces(s: &Vec<char>, from: usize, end: usize) -> (at: usize)
    requires
        from <= end <= s@.len(),
    ensures
        from <= at <= end,
        at == skip_spaces(s@.take(end as int), from as int),
{
    let ghost line = s@.take(end as int);
    let mut i: usize = from;
    while i < end && is_space_char(s[i])
        invariant
            from <= i <= end <= s@.len(),
            line == s@.take(end as int),
            skip_spaces(line, from as int) == skip_spaces(line, i as int),
        decreases end - i,
    {
        i = i + 1;
    }
    i
}

fn scan_token(s: &Vec<char>, from: usize, end: usize) -> (at: usize)
    requires
        from <= end <= s@.len(),
    ensures
        from <= at <= end,
        at == skip_token(s@.take(end as int), from as int),
{
    let ghost line = s@.take(end as int);
    let mut i: usize = from;
    while i < end && !is_space_char(s[i])
        invariant
            from <= i <= end <= s@.len(),
            line == s@.take(end as int),
            skip_token(line, from as int) == skip_token(line, i as int),
        decreases end - i,
    {
        i = i + 1;
    }
    i
}

fn find_line_end(s: &Vec<char>) -> (at: usize)
    ensures
        at <= s@.len(),
        at == line_end(s@, 0),
{
    let mut i: usize = 0;
    while i < s.len() && s[i] != '\n'
        invariant
            i <= s@.len(),
            line_end(s@, 0) == line_end(s@, i as int),
        decreases s@.len() - i,
    {
        i = i + 1;
    }
    i
}

fn find_body_start(s: &Vec<char>) -> (at: usize)
    ensures
        at <= s@.len(),
        at == body_start(s@, 0),
{
    let n = s.len();
    let mut i: usize = 0;
    while i < n && n - i >= 4
        invariant
            n == s@.len(),
            i <= n,
            body_start(s@, 0) == body_start(s@, i as int),
        decreases n - i,
    {
        if s[i] == '\r' && s[i + 1] == '\n' && s[i + 2] == '\r' && s[i + 3] == '\n' {
            return i + 4;
        }
        i = i + 1;
    }
    n
}

/// Reads a request from its text.
pub fn decode_text(text: &str) -> (r: Result<Request, ParseError>)
    ensures
        match r {
            Ok(req) => parse_request(text@) == Ok::<RequestView, ParseError>(req@),
            Err(e) => parse_request(text@) == Err::<RequestView, ParseError>(e),
        },
{
    let chars = chars_of(text);
    let end = find_line_end(&chars);
    let method_from = scan_spaces(&chars, 0, end);
    let method_to = scan_token(&chars, method_from, end);
    let path_from = scan_spaces(&chars, method_to, end);
    let path_to = scan_token(&chars, path_from, end);
    if path_from < path_to {
        let at = find_body_start(&chars);
        let method = text.substring_char(method_from, method_to).to_owned();
        let path = text.substring_char(path_from, path_to).to_owned();
        let body = text.substring_char(at, chars.len()).to_owned();
        proof {
            let line = text@.take(end as int);
            assert(method@ =~= line.subrange(method_from as int, method_to as int));
            assert(path@ =~= line.subrange(path_from as int, path_to as int));
            assert(body@ =~= text@.skip(at as int));
        }
        Ok(Request { method, path, body })
    } else {
        Err(ParseError::MalformedRequestLine)
    }
}

impl Request {
    /// The request in its minimal written form.
    pub fn to_text(&self) -> (text: String)
        ensures
            text@ == request_text(self@),
    {
        let mut out = self.method.clone();
        out.append(" ");
        out.append(self.path.as_str());
        out.append("\r\n\r\n");
        out.append(self.body.as_str());
        out
    }
}

} // verus!
