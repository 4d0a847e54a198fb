//! Responses and their wire format.

use vstd::prelude::*;
use vstd::string::StringExecFns;
use vstd::utf8::encode_utf8;
use crate::json::{json_string, json_text, string_value, value_text};

verus! {

/// The status of a response to a path that no route matches.
pub const NOT_FOUND: i32 = 404;

/// The status of a response to a method that the matched route lacks.
pub const METHOD_NOT_ALLOWED: i32 = 405;

/// The status of a response to a request without a usable body.
pub const BAD_REQUEST: i32 = 400;

/// The status of a response to a client over its rate limit.
pub const TOO_MANY_REQUESTS: i32 = 429;

/// The status of a response whose data could not be encoded.
pub const INTERNAL_ERROR: i32 = 500;

/// The character that writes the decimal digit `d`.
pub open spec fn digit_char(d: nat) -> char {
    if d == 0 {
        '0'
    } else if d == 1 {
        '1'
    } else if d == 2 {
        '2'
    } else if d == 3 {
        '3'
    } else if d == 4 {
        '4'
    } else if d == 5 {
        '5'
    } else if d == 6 {
        '6'
    } else if d == 7 {
        '7'
    } else if d == 8 {
        '8'
    } else {
        '9'
    }
}

/// The decimal digits of `n`, without leading zeros.
pub open spec fn decimal_text(n: nat) -> Seq<char>
    decreases n,
{
    if n < 10 {
        seq![digit_char(n)]
    } else {
        decimal_text(n / 10).push(digit_char(n % 10))
    }
}

/// The decimal text of `i`, with a minus sign where it is negative.
pub open spec fn int_text(i: int) -> Seq<char> {
    if i < 0 {
        seq!['-'] + decimal_text((-i) as nat)
    } else {
        decimal_text(i as nat)
    }
}

/// The text of one decimal digit.
fn digit_text(d: u64) -> (text: &'static str)
    requires
        d < 10,
    ensures
        text@ == seq![digit_char(d as nat)],
{
    proof {
        reveal_strlit("0");
        reveal_strlit("1");
        reveal_strlit("2");
        reveal_strlit("3");
        reveal_strlit("4");
        reveal_strlit("5");
        reveal_strlit("6");
        reveal_strlit("7");
        reveal_strlit("8");
        reveal_strlit("9");
    }
    let text: &'static str = if d == 0 {
        "0"
    } else if d == 1 {
        "1"
    } else if d == 2 {
        "2"
    } else if d == 3 {
        "3"
    } else if d == 4 {
        "4"
    } else if d == 5 {
        "5"
    } else if d == 6 {
        "6"
    } else if d == 7 {
        "7"
    } else if d == 8 {
        "8"
    } else {
        "9"
    };
    assert(text@ =~= seq![digit_char(d as nat)]);
    text
}

/// Appends the decimal digits of `n` to `out`.
pub fn append_decimal(out: &mut String, n: u64)
    ensures
        final(out)@ == old(out)@ + decimal_text(n as nat),
    decreases n,
{
    if n >= 10 {
        append_decimal(out, n / 10);
    }
    out.append(digit_text(n % 10));
    assert(out@ =~= old(out)@ + decimal_text(n as nat));
}

/// Appends the decimal text of `i` to `out`.
pub fn append_int(out: &mut String, i: i32)
    ensures
        final(out)@ == old(out)@ + int_text(i as int),
{
    if i < 0 {
        proof {
            reveal_strlit("-");
        }
        out.append("-");
        append_decimal(out, (-(i as i64)) as u64);
        assert(out@ =~= old(out)@ + int_text(i as int));
    } else {
        append_decimal(out, i as u64);
    }
}

/// The fixed header lines of every response, between the status line and
/// the content length.
pub open spec fn fixed_headers() -> Seq<char> {
    "\r\nAccess-Control-Allow-Headers: Content-Type, Authorization\r\nAccess-Control-Allow-Methods: GET, POST, PUT, DELETE\r\nAccess-Control-Allow-Origin: *\r\nContent-Type: application/json\r\nContent-Length: "@
}

/// The wire text of a response with this status and body: the status line,
/// the fixed headers, the length of the body in bytes, an empty line, and
/// the body.
pub open spec fn wire_text(status: int, body: Seq<char>) -> Seq<char> {
    "HTTP/1.1 "@ + int_text(status) + fixed_headers() + decimal_text(encode_utf8(body).len())
        + "\r\n\r\n"@ + body
}

/// Frames `body` as an HTTP/1.1 response with the given status.
pub fn raw(status: i32, body: &str) -> (wire: String)
    ensures
        wire@ == wire_text(status as int, body@),
{
    let mut wire: String = String::from_str("HTTP/1.1 ");
    append_int(&mut wire, status);
    wire.append(
        "\r\nAccess-Control-Allow-Headers: Content-Type, Authorization\r\nAccess-Control-Allow-Methods: GET, POST, PUT, DELETE\r\nAccess-Control-Allow-Origin: *\r\nContent-Type: application/json\r\nContent-Length: ",
    );
    append_decimal(&mut wire, body.as_bytes().len() as u64);
    wire.append("\r\n\r\n");
    wire.append(body);
    assert(wire@ =~= wire_text(status as int, body@));
    wire
}

/// A response: a status, an optional message and optional data.
pub struct Response {
    status: i32,
    message: Option<String>,
    data: Option<String>,
}

/// What a response holds, as plain mathematical values. The data is held as
/// JSON text.
pub struct ResponseView {
    pub status: int,
    pub message: Option<Seq<char>>,
    pub data: Option<Seq<char>>,
}

/// The text of an optional string.
pub open spec fn optional_text(text: Option<String>) -> Option<Seq<char>> {
    match text {
        Some(text) => Some(text@),
        None => None,
    }
}

/// The JSON body of a response: an object with the members `status`,
/// `message` and `data` in that order, written without blanks. An absent
/// message or data is written `null`.
pub open spec fn body_text(response: ResponseView) -> Seq<char> {
    "{\"status\":"@ + int_text(response.status) + ",\"message\":"@ + (match response.message {
        Some(message) => json_text(json_string(message)),
        None => "null"@,
    }) + ",\"data\":"@ + (match response.data {
        Some(data) => data,
        None => "null"@,
    }) + "}"@
}

/// The message of the response for data that could not be encoded.
pub open spec fn encoding_failed() -> Seq<char> {
    "Erro interno. Falha ao codificar resposta."@
}

impl View for Response {
    type V = ResponseView;

    closed spec fn view(&self) -> ResponseView {
        ResponseView {
            status: self.status as int,
            message: optional_text(self.message),
            data: optional_text(self.data),
        }
    }
}

impl Response {
    /// A response with this status and nothing else.
    pub fn status(status: i32) -> (response: Response)
        ensures
            response@ == (ResponseView { status: status as int, message: None, data: None }),
    {
        Response { status, message: None, data: None }
    }

    /// The response that all went well.
    pub fn ok() -> (response: Response)
        ensures
            response@ == (ResponseView { status: 200, message: None, data: None }),
    {
        Response::status(200)
    }

    /// The response that something went wrong on the server's side.
    pub fn internal_error() -> (response: Response)
        ensures
            response@ == (ResponseView {
                status: INTERNAL_ERROR as int,
                message: Some("Erro interno, algo deu errado."@),
                data: None,
            }),
    {
        Response::status(INTERNAL_ERROR).message("Erro interno, algo deu errado.")
    }

    /// The response that there is no such thing.
    pub fn not_found() -> (response: Response)
        ensures
            response@ == (ResponseView { status: NOT_FOUND as int, message: None, data: None }),
    {
        Response::status(NOT_FOUND)
    }

    /// The response that the client may not do this.
    pub fn not_authorized() -> (response: Response)
        ensures
            response@ == (ResponseView { status: 403, message: None, data: None }),
    {
        Response::status(403)
    }

    /// The response that the client has not said who it is.
    pub fn not_logged_in() -> (response: Response)
        ensures
            response@ == (ResponseView {
                status: 401,
                message: Some("Você não está autenticado."@),
                data: None,
            }),
    {
        Response::status(401).message("Você não está autenticado.")
    }

    /// The response with this message in place of any earlier one. Data
    /// set before is dropped.
    pub fn message(self, message: &str) -> (response: Response)
        ensures
            response@ == (ResponseView {
                status: self@.status,
                message: Some(message@),
                data: None,
            }),
    {
        Response { status: self.status, message: Some(message.to_string()), data: None }
    }

    /// The response with the encoded data attached. Where encoding failed,
    /// the response becomes an internal error that says so.
    pub fn data(self, encoded: Result<serde_json::Value, serde_json::Error>) -> (response: Response)
        ensures
            response@ == match encoded {
                Ok(value) => ResponseView {
                    status: self@.status,
                    message: self@.message,
                    data: Some(json_text(value)),
                },
                Err(_) => ResponseView {
                    status: INTERNAL_ERROR as int,
                    message: Some(encoding_failed()),
                    data: None,
                },
            },
    {
        match encoded {
            Ok(value) => Response {
                status: self.status,
                message: self.message,
                data: Some(value_text(&value)),
            },
            Err(_) => Response {
                status: INTERNAL_ERROR,
                message: Some("Erro interno. Falha ao codificar resposta.".to_string()),
                data: None,
            },
        }
    }

    /// The JSON body that carries the response.
    pub fn body(&self) -> (body: String)
        ensures
            body@ == body_text(self@),
    {
        let mut body: String = String::from_str("{\"status\":");
        append_int(&mut body, self.status);
        body.append(",\"message\":");
        match &self.message {
            Some(message) => {
                let quoted: String = value_text(&string_value(message.as_str()));
                body.append(quoted.as_str());
            },
            None => {
                body.append("null");
            },
        }
        body.append(",\"data\":");
        match &self.data {
            Some(data) => {
                body.append(data.as_str());
            },
            None => {
                body.append("null");
            },
        }
        body.append("}");
        assert(body@ =~= body_text(self@));
        body
    }

    /// The wire text of the response: its JSON body, framed with the
    /// status line and the headers.
    pub fn finish(self) -> (wire: String)
        ensures
            wire@ == wire_text(self@.status, body_text(self@)),
    {
        let body: String = self.body();
        raw(self.status, body.as_str())
    }
}

} // verus!
