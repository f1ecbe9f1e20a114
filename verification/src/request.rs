//! Requests: the request line, the header block and the body of the bytes
//! read from a connection, and what a handler is given of them.
//!
//! A request has the form `METHOD SP PATH SP VERSION CRLF`, a header block
//! that ends with a blank line, and a body. Text that does not have this form
//! is rejected with a [`RequestError`].

use crate::string_map::StringMap;
use crate::text::{
    chars_of, find_from, find_match, first_index, first_match, has_match,
    lemma_split_pieces_lack_separator, same_text, split, split_by, split_on, split_on_text,
    split_once, split_once_on, string_of, trim, trimmed, views,
};
use vstd::prelude::*;

verus! {

/// `serde_json::Value`: a JSON value. The library carries such values and
/// never looks inside them.
#[verifier::external_type_specification]
#[verifier::external_body]
pub struct ExJsonValue(serde_json::Value);

/// `serde_json::Error`: why a text was rejected. The library only tells it
/// from success.
#[verifier::external_type_specification]
#[verifier::external_body]
pub struct ExJsonError(serde_json::Error);

/// The JSON value that `serde_json::from_str` reads from a text; `None` for
/// a text that it rejects.
pub uninterp spec fn json_of(text: Seq<char>) -> Option<serde_json::Value>;

/// Calls `serde_json::from_str` for a `serde_json::Value`. The contract
/// claims no more than that the outcome depends on the text alone: it is
/// what [`json_of`] names.
#[verifier::external_body]
fn parse_json(text: &str) -> (r: Result<serde_json::Value, serde_json::Error>)
    ensures
        match r {
            Ok(value) => json_of(text@) == Some(value),
            Err(_) => json_of(text@) is None,
        },
{
    serde_json::from_str(text)
}

/// The request methods that are understood.
#[allow(dead_code)]
#[derive(Debug, Clone, Copy, PartialEq, Eq, Structural)]
pub enum RequestMethod {
    GET,
    POST,
    PUT,
    PATCH,
    DELETE,
    HEAD,
}

/// Why a request was rejected.
#[derive(Debug, Clone, Copy, PartialEq, Eq, Structural)]
pub enum RequestError {
    /// The request line does not begin with a known method.
    UnknownMethod,
    /// There is no line break after the request line.
    MissingLineBreak,
    /// There is no blank line after the header block.
    MissingBlankLine,
    /// The blank line follows the request line at once: there is no header.
    MissingHeaders,
    /// A line of the header block has no `:`.
    MalformedHeader,
    /// The body of a request with content type `application/json` is not
    /// JSON.
    InvalidJson,
}

/// A request as read from a connection.
#[allow(dead_code)]
#[derive(Debug, Clone)]
pub struct Request {
    pub method: RequestMethod,
    pub http_version: String,
    pub raw_headers: String,
    pub raw_body: String,
    pub path: String,
    pub raw_request: String,
    pub json: Option<serde_json::Value>,
    pub headers: Option<StringMap>,
    pub path_variables: Option<StringMap>,
}

/// What a handler is given of a request.
pub struct ProcessedRequest {
    pub method: RequestMethod,
    pub http_version: String,
    /// The body as JSON; `None` stands for the JSON value `null`.
    pub json: Option<serde_json::Value>,
    pub headers: StringMap,
    pub path_variables: StringMap,
    pub text: String,
}

/// The two characters that end a line.
pub open spec fn line_break() -> Seq<char> {
    seq!['\r', '\n']
}

/// The four characters that end the header block.
pub open spec fn blank_line() -> Seq<char> {
    seq!['\r', '\n', '\r', '\n']
}

/// The request line: what stands before the first carriage return.
pub open spec fn request_line(s: Seq<char>) -> Seq<char> {
    s.take(first_index(s, '\r'))
}

/// The `k`-th of the pieces of the request line between spaces; empty where
/// the line has fewer pieces.
pub open spec fn line_piece(s: Seq<char>, k: int) -> Seq<char> {
    let pieces = split(request_line(s), ' ');
    if 0 <= k < pieces.len() {
        pieces[k]
    } else {
        Seq::empty()
    }
}

/// The method that a name stands for.
pub open spec fn method_of(name: Seq<char>) -> Option<RequestMethod> {
    if name == "GET"@ {
        Some(RequestMethod::GET)
    } else if name == "POST"@ {
        Some(RequestMethod::POST)
    } else if name == "DELETE"@ {
        Some(RequestMethod::DELETE)
    } else if name == "PATCH"@ {
        Some(RequestMethod::PATCH)
    } else if name == "PUT"@ {
        Some(RequestMethod::PUT)
    } else if name == "HEAD"@ {
        Some(RequestMethod::HEAD)
    } else {
        None
    }
}

/// Where the header block begins: after the first line break.
pub open spec fn headers_start(s: Seq<char>) -> int {
    first_match(s, line_break()) + 2
}

/// Where the header block ends: at the first blank line.
pub open spec fn headers_end(s: Seq<char>) -> int {
    first_match(s, blank_line())
}

/// Why the text `s` is rejected as a request; `None` where it is accepted.
pub open spec fn parse_error(s: Seq<char>) -> Option<RequestError> {
    if method_of(line_piece(s, 0)) is None {
        Some(RequestError::UnknownMethod)
    } else if !has_match(s, line_break()) {
        Some(RequestError::MissingLineBreak)
    } else if !has_match(s, blank_line()) {
        Some(RequestError::MissingBlankLine)
    } else if headers_start(s) > headers_end(s) {
        Some(RequestError::MissingHeaders)
    } else {
        None
    }
}

/// The headers that a list of header lines defines: each line binds what
/// stands before its first `:` to what stands after it, both without the
/// white space around them; later lines win. `None` where a line has no `:`.
pub open spec fn lines_to_headers(lines: Seq<Seq<char>>) -> Option<Map<Seq<char>, Seq<char>>>
    decreases lines.len(),
{
    if lines.len() == 0 {
        Some(Map::empty())
    } else {
        match (lines_to_headers(lines.drop_last()), split_once(lines.last(), ':')) {
            (Some(earlier), Some((key, value))) => Some(earlier.insert(trim(key), trim(value))),
            _ => None,
        }
    }
}

/// The headers that a header block defines.
pub open spec fn header_map(raw_headers: Seq<char>) -> Option<Map<Seq<char>, Seq<char>>> {
    lines_to_headers(split_by(raw_headers, line_break()))
}

/// Whether the headers give `application/json` as the content type.
pub open spec fn announces_json(headers: Map<Seq<char>, Seq<char>>) -> bool {
    headers.dom().contains("Content-Type"@) && headers["Content-Type"@] == "application/json"@
}

/// Once a header line is malformed, the block is.
pub proof fn lemma_malformed_stays(lines: Seq<Seq<char>>, k: int)
    requires
        0 <= k <= lines.len(),
        lines_to_headers(lines.take(k)) is None,
    ensures
        lines_to_headers(lines) is None,
    decreases lines.len() - k,
{
    if k < lines.len() {
        assert(lines.take(k + 1).drop_last() =~= lines.take(k));
        lemma_malformed_stays(lines, k + 1);
    } else {
        assert(lines.take(k) =~= lines);
    }
}

impl Request {
    /// Whether the maps of the request keep their invariant.
    pub open spec fn wf(&self) -> bool {
        &&& self.headers matches Some(h) ==> h.wf()
        &&& self.path_variables matches Some(v) ==> v.wf()
    }

    /// Whether the request is what is read from the text `s`, but for its
    /// path variables: the method, the path and the version of the request
    /// line, the header block and the body, with no headers and no JSON body
    /// taken yet.
    pub open spec fn read_from(&self, s: Seq<char>) -> bool {
        &&& method_of(line_piece(s, 0)) == Some(self.method)
        &&& self.path@ == line_piece(s, 1)
        &&& self.http_version@ == line_piece(s, 2)
        &&& self.raw_headers@ == s.subrange(headers_start(s), headers_end(s))
        &&& self.raw_body@ == s.skip(headers_end(s) + 4)
        &&& self.raw_request@ == Seq::<char>::empty()
        &&& self.json is None
        &&& self.headers is None
    }

    /// What processing the request yields: its headers and its JSON body, or
    /// the reason for which it is rejected. A request that has headers
    /// already keeps what it has. Else the headers are read from the header
    /// block, and the body is read as JSON where they announce it.
    pub open spec fn processing(&self) -> Result<
        (Map<Seq<char>, Seq<char>>, Option<serde_json::Value>),
        RequestError,
    > {
        match self.headers {
            Some(h) => Ok((h@, self.json)),
            None => match header_map(self.raw_headers@) {
                None => Err(RequestError::MalformedHeader),
                Some(headers) => if announces_json(headers) {
                    match json_of(self.raw_body@) {
                        Some(value) => Ok((headers, Some(value))),
                        None => Err(RequestError::InvalidJson),
                    }
                } else {
                    Ok((headers, self.json))
                },
            },
        }
    }

    /// Whether `other` differs from `self` at most in its headers and its
    /// JSON body.
    pub open spec fn same_but_processed(&self, other: Request) -> bool {
        &&& other.method == self.method
        &&& other.http_version == self.http_version
        &&& other.raw_headers == self.raw_headers
        &&& other.raw_body == self.raw_body
        &&& other.path == self.path
        &&& other.raw_request == self.raw_request
        &&& other.path_variables == self.path_variables
    }

    /// Reads a request from the text of a connection.
    pub fn from_string(string: String) -> (r: Result<Self, RequestError>)
        ensures
            match r {
                Ok(q) => parse_error(string@) is None && q.read_from(string@) && q.path_variables is None,
                Err(e) => parse_error(string@) == Some(e),
            },
    {
        let v = chars_of(string.as_str());
        let (method, path, http_version) = match Self::get_request_core_info(&v) {
            Some(info) => info,
            None => {
                return Err(RequestError::UnknownMethod);
            },
        };
        let raw_headers = match Self::get_raw_headers(&v) {
            Ok(text) => text,
            Err(e) => {
                return Err(e);
            },
        };
        let raw_body = Self::get_raw_body(&v);
        Ok(
            Request {
                method,
                http_version,
                raw_headers,
                raw_body,
                path,
                raw_request: String::new(),
                json: None,
                headers: None,
                path_variables: None,
            },
        )
    }

    /// The method that a name stands for.
    fn method_named(name: &str) -> (r: Option<RequestMethod>)
        ensures
            r == method_of(name@),
    {
        if same_text(name, "GET") {
            Some(RequestMethod::GET)
        } else if same_text(name, "POST") {
            Some(RequestMethod::POST)
        } else if same_text(name, "DELETE") {
            Some(RequestMethod::DELETE)
        } else if same_text(name, "PATCH") {
            Some(RequestMethod::PATCH)
        } else if same_text(name, "PUT") {
            Some(RequestMethod::PUT)
        } else if same_text(name, "HEAD") {
            Some(RequestMethod::HEAD)
        } else {
            None
        }
    }

    /// The method, the path and the version of the request line; `None` for
    /// a method that is not known.
    fn get_request_core_info(request: &Vec<char>) -> (r: Option<(RequestMethod, String, String)>)
        ensures
            match r {
                Some((method, path, http_version)) => {
                    &&& method_of(line_piece(request@, 0)) == Some(method)
                    &&& path@ == line_piece(request@, 1)
                    &&& http_version@ == line_piece(request@, 2)
                },
                None => method_of(line_piece(request@, 0)) is None,
            },
    {
        let end = find_from(request, 0, '\r');
        assert(request@.skip(0) =~= request@);
        let line = string_of(request, 0, end);
        assert(line@ =~= request_line(request@));
        let pieces = split_on(line.as_str(), ' ');
        proof {
            lemma_split_pieces_lack_separator(line@, ' ');
        }
        assert(views(pieces@)[0] == pieces[0]@);
        let method = match Self::method_named(pieces[0].as_str()) {
            Some(m) => m,
            None => {
                return None;
            },
        };
        let path = if pieces.len() > 1 {
            assert(views(pieces@)[1] == pieces[1]@);
            pieces[1].clone()
        } else {
            String::new()
        };
        let http_version = if pieces.len() > 2 {
            assert(views(pieces@)[2] == pieces[2]@);
            pieces[2].clone()
        } else {
            String::new()
        };
        Some((method, path, http_version))
    }

    /// The header block: what stands between the first line break and the
    /// first blank line.
    fn get_raw_headers(request: &Vec<char>) -> (r: Result<String, RequestError>)
        requires
            method_of(line_piece(request@, 0)) is Some,
        ensures
            match r {
                Ok(text) => parse_error(request@) is None && text@ == request@.subrange(
                    headers_start(request@),
                    headers_end(request@),
                ),
                Err(e) => parse_error(request@) == Some(e),
            },
    {
        let mut line_end: Vec<char> = Vec::new();
        line_end.push('\r');
        line_end.push('\n');
        let mut block_end: Vec<char> = Vec::new();
        block_end.push('\r');
        block_end.push('\n');
        block_end.push('\r');
        block_end.push('\n');
        assert(line_end@ =~= line_break());
        assert(block_end@ =~= blank_line());
        assert(request@.skip(0) =~= request@);
        let start_idx = find_match(request, 0, &line_end);
        if start_idx >= request.len() {
            return Err(RequestError::MissingLineBreak);
        }
        let end_idx = find_match(request, 0, &block_end);
        if end_idx >= request.len() {
            return Err(RequestError::MissingBlankLine);
        }
        if start_idx + 2 > end_idx {
            return Err(RequestError::MissingHeaders);
        }
        Ok(string_of(request, start_idx + 2, end_idx))
    }

    /// The body: what stands after the first blank line.
    fn get_raw_body(request: &Vec<char>) -> (text: String)
        requires
            has_match(request@, blank_line()),
        ensures
            text@ == request@.skip(headers_end(request@) + 4),
    {
        let mut block_end: Vec<char> = Vec::new();
        block_end.push('\r');
        block_end.push('\n');
        block_end.push('\r');
        block_end.push('\n');
        assert(block_end@ =~= blank_line());
        assert(request@.skip(0) =~= request@);
        let end_idx = find_match(request, 0, &block_end);
        let text = string_of(request, end_idx + 4, request.len());
        assert(request@.subrange(end_idx + 4, request.len() as int) =~= request@.skip(end_idx + 4));
        text
    }

    /// Takes the headers, and the body as JSON where the headers announce
    /// it. A request that has been processed before is left as it is. One
    /// that is rejected is left as it is, too.
    pub fn process(&mut self) -> (r: Result<(), RequestError>)
        requires
            old(self).wf(),
        ensures
            final(self).wf(),
            old(self).same_but_processed(*final(self)),
            match old(self).processing() {
                Ok((headers, json)) => {
                    &&& r is Ok
                    &&& final(self).headers matches Some(h) && h@ == headers
                    &&& final(self).json == json
                },
                Err(e) => r == Err::<(), RequestError>(e) && *final(self) == *old(self),
            },
    {
        if self.headers.is_some() {
            return Ok(());
        }
        let headers = match self.headers() {
            Ok(h) => h,
            Err(e) => {
                return Err(e);
            },
        };
        let is_json = match headers.get("Content-Type") {
            Some(kind) => same_text(kind.as_str(), "application/json"),
            None => false,
        };
        if is_json {
            let parsed = parse_json(self.raw_body.as_str());
            self.accept_json(headers, parsed)
        } else {
            self.headers = Some(headers);
            Ok(())
        }
    }

    /// Takes the headers and the JSON body that was read; rejects the
    /// request, and leaves it as it is, where reading the body failed.
    pub fn accept_json(&mut self, headers: StringMap, parsed: Result<
        serde_json::Value,
        serde_json::Error,
    >) -> (r: Result<(), RequestError>)
        requires
            old(self).wf(),
            headers.wf(),
        ensures
            final(self).wf(),
            match parsed {
                Ok(value) => {
                    &&& r is Ok
                    &&& old(self).same_but_processed(*final(self))
                    &&& final(self).headers == Some(headers)
                    &&& final(self).json == Some(value)
                },
                Err(_) => r == Err::<(), RequestError>(RequestError::InvalidJson) && *final(self)
                    == *old(self),
            },
    {
        match parsed {
            Ok(value) => {
                self.json = Some(value);
                self.headers = Some(headers);
                Ok(())
            },
            Err(_) => Err(RequestError::InvalidJson),
        }
    }

    /// The headers of the header block.
    pub fn headers(&self) -> (r: Result<StringMap, RequestError>)
        ensures
            match r {
                Ok(headers) => headers.wf() && header_map(self.raw_headers@) == Some(headers@),
                Err(e) => e == RequestError::MalformedHeader && header_map(self.raw_headers@) is None,
            },
    {
        let separator = "\r\n";
        proof {
            reveal_strlit("\r\n");
            assert(separator@ =~= line_break());
        }
        let lines = split_on_text(self.raw_headers.as_str(), separator);
        let ghost all = views(lines@);
        let mut headers = StringMap::new();
        let mut i: usize = 0;
        assert(all.take(0) =~= Seq::<Seq<char>>::empty());
        while i < lines.len()
            invariant
                i <= lines.len(),
                all == views(lines@),
                all == split_by(self.raw_headers@, line_break()),
                headers.wf(),
                lines_to_headers(all.take(i as int)) == Some(headers@),
            decreases lines.len() - i,
        {
            proof {
                let upto = all.take(i + 1);
                assert(upto.drop_last() =~= all.take(i as int));
                assert(upto.last() == lines[i as int]@);
            }
            match split_once_on(lines[i].as_str(), ':') {
                Some((key, value)) => {
                    let key = trimmed(key.as_str());
                    let value = trimmed(value.as_str());
                    headers.insert(key, value);
                },
                None => {
                    proof {
                        lemma_malformed_stays(all, i + 1);
                    }
                    return Err(RequestError::MalformedHeader);
                },
            }
            i = i + 1;
        }
        assert(all.take(lines.len() as int) =~= all);
        Ok(headers)
    }
}

impl ProcessedRequest {
    /// Processes the request and takes from it what a handler is given. A
    /// request without path variables yields an empty map of them.
    pub fn from_request(request: Request) -> (r: Result<Self, RequestError>)
        requires
            request.wf(),
        ensures
            match request.processing() {
                Ok((headers, json)) => {
                    &&& r matches Ok(p)
                    &&& p.method == request.method
                    &&& p.http_version == request.http_version
                    &&& p.json == json
                    &&& p.headers.wf()
                    &&& p.headers@ == headers
                    &&& p.path_variables.wf()
                    &&& p.path_variables@ == match request.path_variables {
                        Some(v) => v@,
                        None => Map::empty(),
                    }
                    &&& p.text == request.raw_body
                },
                Err(e) => r matches Err(f) && f == e,
            },
    {
        let mut request = request;
        match request.process() {
            Ok(()) => {},
            Err(e) => {
                return Err(e);
            },
        }
        let headers = match request.headers {
            Some(h) => h,
            None => StringMap::new(),
        };
        let path_variables = match request.path_variables {
            Some(v) => v,
            None => StringMap::new(),
        };
        Ok(
            ProcessedRequest {
                method: request.method,
                http_version: request.http_version,
                json: request.json,
                headers,
                text: request.raw_body,
                path_variables,
            },
        )
    }
}

} // verus!
