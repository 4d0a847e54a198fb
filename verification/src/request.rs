//! The request parser: turns one buffer read from a socket into a `Request`.

use vstd::prelude::*;
use vstd::hash_map::StringHashMap;
use vstd::utf8::encode_utf8;
use crate::bytes::{
    bytes_eq, decimal, eq_ignore_case, lower, parse_decimal, position, trim, trimmed, COLON, CR,
    SPACE,
};
use crate::json::{json_value, parse_value};
use crate::response::{Response, ResponseView, BAD_REQUEST};
use crate::scan::lemma_index_of_first;
use crate::text::{char_position, lossy_text, lowercased, text_eq, text_of, to_lowercase};
use vstd::string::StrSliceExecFns;

verus! {

/// How many request methods there are.
pub const METHODS: usize = 9;

/// The nine request methods of HTTP/1.1.
#[derive(Clone, Copy, Debug, PartialEq, Eq, Hash, Structural)]
pub enum Method {
    GET,
    POST,
    PUT,
    DELETE,
    HEAD,
    OPTIONS,
    TRACE,
    CONNECT,
    PATCH,
}

impl Method {
    /// The upper-case token that names the method on the request line.
    pub open spec fn token(self) -> Seq<char> {
        match self {
            Method::GET => "GET"@,
            Method::POST => "POST"@,
            Method::PUT => "PUT"@,
            Method::DELETE => "DELETE"@,
            Method::HEAD => "HEAD"@,
            Method::OPTIONS => "OPTIONS"@,
            Method::TRACE => "TRACE"@,
            Method::CONNECT => "CONNECT"@,
            Method::PATCH => "PATCH"@,
        }
    }

    /// The method's token as text.
    pub fn name(&self) -> (name: &'static str)
        ensures
            name@ == self.token(),
    {
        match self {
            Method::GET => "GET",
            Method::POST => "POST",
            Method::PUT => "PUT",
            Method::DELETE => "DELETE",
            Method::HEAD => "HEAD",
            Method::OPTIONS => "OPTIONS",
            Method::TRACE => "TRACE",
            Method::CONNECT => "CONNECT",
            Method::PATCH => "PATCH",
        }
    }

    /// The method's place in the order of declaration, from zero.
    pub open spec fn ordinal(self) -> int {
        match self {
            Method::GET => 0,
            Method::POST => 1,
            Method::PUT => 2,
            Method::DELETE => 3,
            Method::HEAD => 4,
            Method::OPTIONS => 5,
            Method::TRACE => 6,
            Method::CONNECT => 7,
            Method::PATCH => 8,
        }
    }

    /// The method at place `ordinal`; the last one for a place past the end.
    pub open spec fn at(ordinal: int) -> Method {
        if ordinal == 0 {
            Method::GET
        } else if ordinal == 1 {
            Method::POST
        } else if ordinal == 2 {
            Method::PUT
        } else if ordinal == 3 {
            Method::DELETE
        } else if ordinal == 4 {
            Method::HEAD
        } else if ordinal == 5 {
            Method::OPTIONS
        } else if ordinal == 6 {
            Method::TRACE
        } else if ordinal == 7 {
            Method::CONNECT
        } else {
            Method::PATCH
        }
    }

    /// The method's place in the order of declaration.
    pub fn index(&self) -> (index: usize)
        ensures
            index == self.ordinal(),
            index < METHODS,
            Method::at(index as int) == *self,
    {
        match self {
            Method::GET => 0,
            Method::POST => 1,
            Method::PUT => 2,
            Method::DELETE => 3,
            Method::HEAD => 4,
            Method::OPTIONS => 5,
            Method::TRACE => 6,
            Method::CONNECT => 7,
            Method::PATCH => 8,
        }
    }

    /// The method at place `index`.
    pub fn from_index(index: usize) -> (method: Method)
        requires
            index < METHODS,
        ensures
            method == Method::at(index as int),
            method.ordinal() == index,
    {
        if index == 0 {
            Method::GET
        } else if index == 1 {
            Method::POST
        } else if index == 2 {
            Method::PUT
        } else if index == 3 {
            Method::DELETE
        } else if index == 4 {
            Method::HEAD
        } else if index == 5 {
            Method::OPTIONS
        } else if index == 6 {
            Method::TRACE
        } else if index == 7 {
            Method::CONNECT
        } else {
            Method::PATCH
        }
    }

    /// The method that `token` names, byte for byte and in upper case.
    pub open spec fn of_token(token: Seq<u8>) -> Option<Method> {
        if token == encode_utf8(Method::GET.token()) {
            Some(Method::GET)
        } else if token == encode_utf8(Method::POST.token()) {
            Some(Method::POST)
        } else if token == encode_utf8(Method::PUT.token()) {
            Some(Method::PUT)
        } else if token == encode_utf8(Method::DELETE.token()) {
            Some(Method::DELETE)
        } else if token == encode_utf8(Method::HEAD.token()) {
            Some(Method::HEAD)
        } else if token == encode_utf8(Method::OPTIONS.token()) {
            Some(Method::OPTIONS)
        } else if token == encode_utf8(Method::TRACE.token()) {
            Some(Method::TRACE)
        } else if token == encode_utf8(Method::CONNECT.token()) {
            Some(Method::CONNECT)
        } else if token == encode_utf8(Method::PATCH.token()) {
            Some(Method::PATCH)
        } else {
            None
        }
    }

    /// Recognises a method token.
    pub fn from_token(token: &[u8]) -> (method: Option<Method>)
        ensures
            method == Method::of_token(token@),
    {
        if bytes_eq(token, Method::GET.name().as_bytes()) {
            Some(Method::GET)
        } else if bytes_eq(token, Method::POST.name().as_bytes()) {
            Some(Method::POST)
        } else if bytes_eq(token, Method::PUT.name().as_bytes()) {
            Some(Method::PUT)
        } else if bytes_eq(token, Method::DELETE.name().as_bytes()) {
            Some(Method::DELETE)
        } else if bytes_eq(token, Method::HEAD.name().as_bytes()) {
            Some(Method::HEAD)
        } else if bytes_eq(token, Method::OPTIONS.name().as_bytes()) {
            Some(Method::OPTIONS)
        } else if bytes_eq(token, Method::TRACE.name().as_bytes()) {
            Some(Method::TRACE)
        } else if bytes_eq(token, Method::CONNECT.name().as_bytes()) {
            Some(Method::CONNECT)
        } else if bytes_eq(token, Method::PATCH.name().as_bytes()) {
            Some(Method::PATCH)
        } else {
            None
        }
    }
}

/// No method token is empty.
pub proof fn lemma_token_not_empty(method: Method)
    ensures
        method.token().len() > 0,
{
    reveal_strlit("GET");
    reveal_strlit("POST");
    reveal_strlit("PUT");
    reveal_strlit("DELETE");
    reveal_strlit("HEAD");
    reveal_strlit("OPTIONS");
    reveal_strlit("TRACE");
    reveal_strlit("CONNECT");
    reveal_strlit("PATCH");
}

/// The method at the head of `buffer` and the offset just past the space
/// that ends it.
pub open spec fn method_at(buffer: Seq<u8>) -> Option<(Method, int)> {
    match buffer.index_of_first(SPACE) {
        Some(end) => match Method::of_token(buffer.subrange(0, end)) {
            Some(method) => Some((method, end + 1)),
            None => None,
        },
        None => None,
    }
}

/// Reads the method token that starts the request line.
pub fn parse_method(buffer: &[u8]) -> (parsed: Option<(Method, usize)>)
    ensures
        match parsed {
            Some((method, end)) => method_at(buffer@) == Some((method, end as int)),
            None => method_at(buffer@) is None,
        },
{
    proof {
        buffer@.index_of_first_ensures(SPACE);
    }
    match position(buffer, SPACE) {
        Some(end) => match Method::from_token(&buffer[0..end]) {
            Some(method) => Some((method, end + 1)),
            None => None,
        },
        None => None,
    }
}

/// The path at the head of `buffer`, without its first byte, and the offset
/// just past the space that ends it. An empty path token is no path.
pub open spec fn path_at(buffer: Seq<u8>) -> Option<(Seq<char>, int)> {
    match buffer.index_of_first(SPACE) {
        Some(end) => if end == 0 {
            None
        } else {
            Some((lossy_text(buffer.subrange(1, end)), end + 1))
        },
        None => None,
    }
}

/// Reads the path token that follows the method.
pub fn parse_path(buffer: &[u8]) -> (parsed: Option<(String, usize)>)
    ensures
        match parsed {
            Some((path, end)) => path_at(buffer@) == Some((path@, end as int)),
            None => path_at(buffer@) is None,
        },
{
    proof {
        buffer@.index_of_first_ensures(SPACE);
    }
    match position(buffer, SPACE) {
        Some(end) => if end == 0 {
            None
        } else {
            Some((text_of(&buffer[1..end]), end + 1))
        },
        None => None,
    }
}

/// The protocol token that every request line must carry.
pub open spec fn protocol() -> Seq<char> {
    "HTTP/1.1"@
}

/// The offset just past the protocol token and its line end, where the
/// token at the head of `buffer` is `HTTP/1.1` in any letter case.
pub open spec fn protocol_at(buffer: Seq<u8>) -> Option<int> {
    match buffer.index_of_first(CR) {
        Some(end) => if lower(buffer.subrange(0, end)) == lower(encode_utf8(protocol())) {
            Some(if end + 2 <= buffer.len() { end + 2 } else { buffer.len() as int })
        } else {
            None
        },
        None => None,
    }
}

/// Checks the protocol token that ends the request line.
pub fn is_http101(buffer: &[u8]) -> (parsed: Option<usize>)
    ensures
        match parsed {
            Some(end) => protocol_at(buffer@) == Some(end as int),
            None => protocol_at(buffer@) is None,
        },
{
    proof {
        buffer@.index_of_first_ensures(CR);
    }
    match position(buffer, CR) {
        Some(end) => if eq_ignore_case(&buffer[0..end], "HTTP/1.1".as_bytes()) {
            if buffer.len() - end >= 2 {
                Some(end + 2)
            } else {
                Some(buffer.len())
            }
        } else {
            None
        },
        None => None,
    }
}

/// The offset just past a line whose carriage return stands at `cr`: the
/// byte after it, a line feed in a well-formed request, goes with the line.
pub open spec fn past_line(buffer: Seq<u8>, cr: int) -> int {
    if cr + 2 <= buffer.len() {
        cr + 2
    } else {
        buffer.len() as int
    }
}

/// The header that a line holds: the text before its first colon in lower
/// case as its name, and the text after it, trimmed and in lower case, as
/// its value. A line without a colon holds none.
pub open spec fn header_of(line: Seq<u8>) -> Option<(Seq<char>, Seq<char>)> {
    match line.index_of_first(COLON) {
        Some(colon) => Some(
            (
                lowercased(lossy_text(line.subrange(0, colon))),
                lowercased(lossy_text(trim(line.subrange(colon + 1, line.len() as int)))),
            ),
        ),
        None => None,
    }
}

/// Where the line that starts at `start` ends: the place of the first
/// carriage return at or after `start`.
pub open spec fn line_end(buffer: Seq<u8>, start: int) -> Option<int> {
    match buffer.skip(start).index_of_first(CR) {
        Some(at) => if 0 <= at < buffer.len() - start {
            Some(start + at)
        } else {
            None
        },
        None => None,
    }
}

/// The headers collected from the lines of `buffer` that start at `start`,
/// on top of those `found` so far, and the offset where the header block
/// ends. A later header replaces an earlier one of the same name; an empty
/// line ends the block, and so does a last line without a carriage return.
pub open spec fn headers_from(
    buffer: Seq<u8>,
    start: int,
    found: Map<Seq<char>, Seq<char>>,
) -> (Map<Seq<char>, Seq<char>>, int)
    decreases buffer.len() - start,
{
    match line_end(buffer, start) {
        Some(cr) => if cr == start {
            (found, past_line(buffer, cr))
        } else {
            let found = match header_of(buffer.subrange(start, cr)) {
                Some((name, value)) => found.insert(name, value),
                None => found,
            };
            headers_from(buffer, past_line(buffer, cr), found)
        },
        None => (found, start),
    }
}

/// The headers at the head of `buffer` and the offset where they end.
pub open spec fn headers_at(buffer: Seq<u8>) -> (Map<Seq<char>, Seq<char>>, int) {
    headers_from(buffer, 0, Map::empty())
}

/// The character sequences behind the values of a map of strings.
pub open spec fn value_texts(map: Map<Seq<char>, String>) -> Map<Seq<char>, Seq<char>> {
    map.map_values(|value: String| value@)
}

/// Inserting a string shows in the text view as inserting its characters.
pub proof fn lemma_value_texts_insert(map: Map<Seq<char>, String>, key: Seq<char>, value: String)
    ensures
        value_texts(map.insert(key, value)) == value_texts(map).insert(key, value@),
{
    assert(value_texts(map.insert(key, value)) =~= value_texts(map).insert(key, value@));
}

/// Reads the header lines that follow the request line.
pub fn parse_headers(buffer: &[u8]) -> (parsed: (StringHashMap<String>, usize))
    ensures
        value_texts(parsed.0@) == headers_at(buffer@).0,
        parsed.1 == headers_at(buffer@).1,
        parsed.1 <= buffer.len(),
{
    let mut headers: StringHashMap<String> = StringHashMap::new();
    let mut start: usize = 0;
    assert(value_texts(headers@) =~= Map::empty());
    loop
        invariant
            start <= buffer.len(),
            headers_from(buffer@, start as int, value_texts(headers@)) == headers_at(buffer@),
        decreases buffer.len() - start,
    {
        proof {
            buffer@.skip(start as int).index_of_first_ensures(CR);
        }
        let rest: &[u8] = &buffer[start..buffer.len()];
        assert(rest@ =~= buffer@.skip(start as int));
        let at: usize = match position(rest, CR) {
            Some(at) => at,
            None => {
                return (headers, start);
            },
        };
        let cr: usize = start + at;
        let next: usize = if buffer.len() - cr >= 2 {
            cr + 2
        } else {
            buffer.len()
        };
        if at == 0 {
            return (headers, next);
        }
        let line: &[u8] = &buffer[start..cr];
        proof {
            line@.index_of_first_ensures(COLON);
        }
        if let Some(colon) = position(line, COLON) {
            let name: String = to_lowercase(text_of(&line[0..colon]).as_str());
            let value: String = to_lowercase(
                text_of(trimmed(&line[colon + 1..line.len()])).as_str(),
            );
            proof {
                lemma_value_texts_insert(headers@, name@, value);
            }
            headers.insert(name, value);
        }
        start = next;
    }
}

/// The body that a request with these headers carries in `rest`, the bytes
/// after its header block.
///
/// Only a content type of `application/json` asks for a body. Such a
/// request must declare a content length that reads as a decimal number,
/// else it is no request at all (the outer `None`). Its body is `rest` where
/// that is exactly as long as declared, and absent otherwise.
pub open spec fn body_at(headers: Map<Seq<char>, Seq<char>>, rest: Seq<u8>) -> Option<
    Option<Seq<char>>,
> {
    if headers.contains_key("content-type"@) && headers["content-type"@] == "application/json"@ {
        if headers.contains_key("content-length"@) {
            match decimal(encode_utf8(headers["content-length"@])) {
                Some(length) => if length <= usize::MAX {
                    Some(
                        if rest.len() == length {
                            Some(lossy_text(rest))
                        } else {
                            None
                        },
                    )
                } else {
                    None
                },
                None => None,
            }
        } else {
            None
        }
    } else {
        Some(None)
    }
}

/// Decides from the headers whether `rest` is the request's body.
pub fn parse_body(headers: &StringHashMap<String>, rest: &[u8]) -> (parsed: Option<Option<String>>)
    ensures
        match parsed {
            Some(Some(body)) => body_at(value_texts(headers@), rest@) == Some(Some(body@)),
            Some(None) => body_at(value_texts(headers@), rest@) == Some(None::<Seq<char>>),
            None => body_at(value_texts(headers@), rest@) is None,
        },
{
    let is_json: bool = match headers.get("content-type") {
        Some(kind) => text_eq(kind.as_str(), "application/json"),
        None => false,
    };
    if !is_json {
        return Some(None);
    }
    match headers.get("content-length") {
        Some(declared) => match parse_decimal(declared.as_str().as_bytes()) {
            Some(length) => if rest.len() == length {
                Some(Some(text_of(rest)))
            } else {
                Some(None)
            },
            None => None,
        },
        None => None,
    }
}

/// One parsed HTTP request.
pub struct Request {
    /// The request path without its leading slash.
    pub path: String,
    /// The request method.
    pub method: Method,
    /// The path segments captured by wildcards, by placeholder name. Empty
    /// until the request is routed.
    pub slugs: StringHashMap<String>,
    /// The headers, by lower-case name.
    pub headers: StringHashMap<String>,
    /// The body, where the request carries one.
    pub body: Option<String>,
}

/// What a request holds, as plain mathematical values.
pub struct RequestView {
    pub path: Seq<char>,
    pub method: Method,
    pub slugs: Map<Seq<char>, Seq<char>>,
    pub headers: Map<Seq<char>, Seq<char>>,
    pub body: Option<Seq<char>>,
}

impl View for Request {
    type V = RequestView;

    open spec fn view(&self) -> RequestView {
        RequestView {
            path: self.path@,
            method: self.method,
            slugs: value_texts(self.slugs@),
            headers: value_texts(self.headers@),
            body: match self.body {
                Some(body) => Some(body@),
                None => None,
            },
        }
    }
}

/// The request that `buffer` holds, if it holds one: a method, a path and
/// the protocol token on the request line, then the header block, then the
/// body that the headers ask for.
pub open spec fn request_at(buffer: Seq<u8>) -> Option<RequestView> {
    match method_at(buffer) {
        Some((method, path_start)) => match path_at(buffer.skip(path_start)) {
            Some((path, path_len)) => {
                let protocol_start = path_start + path_len;
                match protocol_at(buffer.skip(protocol_start)) {
                    Some(protocol_len) => {
                        let headers_start = protocol_start + protocol_len;
                        let (headers, headers_len) = headers_at(buffer.skip(headers_start));
                        match body_at(headers, buffer.skip(headers_start + headers_len)) {
                            Some(body) => Some(
                                RequestView { path, method, slugs: Map::empty(), headers, body },
                            ),
                            None => None,
                        }
                    },
                    None => None,
                }
            },
            None => None,
        },
        None => None,
    }
}

/// The response to a request whose body is absent or is not JSON.
pub open spec fn bad_body() -> ResponseView {
    ResponseView {
        status: BAD_REQUEST as int,
        message: Some("Corpo da requisição inválido."@),
        data: None,
    }
}

/// The bearer token in the value of an `authorization` header: the second
/// of its space-separated pieces, where the first is `bearer`.
pub open spec fn bearer_of(value: Seq<char>) -> Option<Seq<char>> {
    match value.index_of_first(' ') {
        Some(space) => if value.take(space) == "bearer"@ {
            let rest = value.skip(space + 1);
            match rest.index_of_first(' ') {
                Some(end) => Some(rest.take(end)),
                None => Some(rest),
            }
        } else {
            None
        },
        None => None,
    }
}

impl Request {
    /// Parses the request that one read from a socket has put in `buffer`.
    pub fn new(buffer: &[u8]) -> (parsed: Option<Request>)
        ensures
            match parsed {
                Some(request) => request_at(buffer@) == Some(request@),
                None => request_at(buffer@) is None,
            },
    {
        proof {
            lemma_index_of_first(buffer@, SPACE);
        }
        let (method, path_start) = match parse_method(buffer) {
            Some(found) => found,
            None => {
                return None;
            },
        };
        let after_method: &[u8] = &buffer[path_start..buffer.len()];
        assert(after_method@ =~= buffer@.skip(path_start as int));
        proof {
            lemma_index_of_first(after_method@, SPACE);
        }
        let (path, path_len) = match parse_path(after_method) {
            Some(found) => found,
            None => {
                return None;
            },
        };
        let protocol_start: usize = path_start + path_len;
        let after_path: &[u8] = &buffer[protocol_start..buffer.len()];
        assert(after_path@ =~= buffer@.skip(protocol_start as int));
        proof {
            lemma_index_of_first(after_path@, CR);
        }
        let protocol_len: usize = match is_http101(after_path) {
            Some(found) => found,
            None => {
                return None;
            },
        };
        let headers_start: usize = protocol_start + protocol_len;
        let after_line: &[u8] = &buffer[headers_start..buffer.len()];
        assert(after_line@ =~= buffer@.skip(headers_start as int));
        let (headers, headers_len) = parse_headers(after_line);
        let body_start: usize = headers_start + headers_len;
        let rest: &[u8] = &buffer[body_start..buffer.len()];
        assert(rest@ =~= buffer@.skip(body_start as int));
        let body: Option<String> = match parse_body(&headers, rest) {
            Some(found) => found,
            None => {
                return None;
            },
        };
        let slugs: StringHashMap<String> = StringHashMap::new();
        assert(value_texts(slugs@) =~= Map::empty());
        Some(Request { body, method, path, headers, slugs })
    }

    /// The JSON value that the body writes. A request without a body, or
    /// with a body that is not JSON, gets the response that says so.
    pub fn decode(&self) -> (decoded: Result<serde_json::Value, Response>)
        ensures
            match decoded {
                Ok(value) => self@.body matches Some(body) && json_value(body) == Some(value),
                Err(response) => response@ == bad_body() && (self@.body matches Some(body)
                    ==> json_value(body) is None),
            },
    {
        match &self.body {
            Some(body) => match parse_value(body.as_str()) {
                Ok(value) => Ok(value),
                Err(_) => Err(Response::status(BAD_REQUEST).message("Corpo da requisição inválido.")),
            },
            None => Err(Response::status(BAD_REQUEST).message("Corpo da requisição inválido.")),
        }
    }

    /// The bearer token that the `authorization` header carries.
    pub fn bearer_token(&self) -> (token: Option<String>)
        ensures
            match token {
                Some(token) => self@.headers.contains_key("authorization"@) && bearer_of(
                    self@.headers["authorization"@],
                ) == Some(token@),
                None => self@.headers.contains_key("authorization"@) ==> bearer_of(
                    self@.headers["authorization"@],
                ) is None,
            },
    {
        let value: &str = match self.headers.get("authorization") {
            Some(value) => value.as_str(),
            None => {
                return None;
            },
        };
        let len: usize = value.unicode_len();
        proof {
            lemma_index_of_first(value@, ' ');
        }
        let space: usize = match char_position(value, ' ') {
            Some(space) => space,
            None => {
                return None;
            },
        };
        if !text_eq(value.substring_char(0, space), "bearer") {
            return None;
        }
        let rest: &str = value.substring_char(space + 1, len);
        assert(rest@ =~= value@.skip(space + 1));
        proof {
            lemma_index_of_first(rest@, ' ');
        }
        let token: &str = match char_position(rest, ' ') {
            Some(end) => rest.substring_char(0, end),
            None => rest,
        };
        Some(token.to_string())
    }
}

} // verus!
