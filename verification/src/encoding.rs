//! The wire form of a request, and the laws of the parser: what it recovers
//! of a request that was written, and which buffers it turns down.

use vstd::prelude::*;
use vstd::utf8::{encode_utf8, is_ascii_chars, is_ascii_chars_encode_utf8};
use crate::bytes::{decimal, is_blank, lower, trim, COLON, CR, SPACE};
use crate::request::{
    body_at, header_of, headers_at, headers_from, method_at, past_line, path_at, protocol,
    protocol_at, request_at, Method, RequestView,
};
use crate::scan::{lemma_first_index, lemma_index_of_first};
use crate::text::{lossy_text, lowercased};

verus! {

/// The bytes of an ASCII text are its characters, one byte each.
pub proof fn lemma_ascii_bytes(text: Seq<char>)
    requires
        is_ascii_chars(text),
    ensures
        encode_utf8(text) == Seq::new(text.len(), |i: int| text[i] as u8),
{
    is_ascii_chars_encode_utf8(text);
    assert(encode_utf8(text) =~= Seq::new(text.len(), |i: int| text[i] as u8));
}

/// The bytes of every method token: upper-case letters, no space among
/// them, and different from the bytes of every other token.
pub proof fn lemma_method_token(method: Method)
    ensures
        Method::of_token(encode_utf8(method.token())) == Some(method),
        !encode_utf8(method.token()).contains(SPACE),
        encode_utf8(method.token()).len() > 0,
{
    reveal_strlit("GET");
    reveal_strlit("POST");
    reveal_strlit("PUT");
    reveal_strlit("DELETE");
    reveal_strlit("HEAD");
    reveal_strlit("OPTIONS");
    reveal_strlit("TRACE");
    reveal_strlit("CONNECT");
    reveal_strlit("PATCH");
    lemma_ascii_bytes(Method::GET.token());
    lemma_ascii_bytes(Method::POST.token());
    lemma_ascii_bytes(Method::PUT.token());
    lemma_ascii_bytes(Method::DELETE.token());
    lemma_ascii_bytes(Method::HEAD.token());
    lemma_ascii_bytes(Method::OPTIONS.token());
    lemma_ascii_bytes(Method::TRACE.token());
    lemma_ascii_bytes(Method::CONNECT.token());
    lemma_ascii_bytes(Method::PATCH.token());
    let get = encode_utf8(Method::GET.token());
    let post = encode_utf8(Method::POST.token());
    let put = encode_utf8(Method::PUT.token());
    let delete = encode_utf8(Method::DELETE.token());
    let head = encode_utf8(Method::HEAD.token());
    let options = encode_utf8(Method::OPTIONS.token());
    let trace = encode_utf8(Method::TRACE.token());
    let connect = encode_utf8(Method::CONNECT.token());
    let patch = encode_utf8(Method::PATCH.token());
    assert(get.len() == 3 && get[0] == 71 && get[1] == 69 && get[2] == 84);
    assert(post.len() == 4 && post[0] == 80 && post[1] == 79 && post[2] == 83 && post[3] == 84);
    assert(put.len() == 3 && put[0] == 80 && put[1] == 85 && put[2] == 84);
    assert(delete.len() == 6 && delete[0] == 68 && delete[1] == 69 && delete[2] == 76 && delete[3]
        == 69 && delete[4] == 84 && delete[5] == 69);
    assert(head.len() == 4 && head[0] == 72 && head[1] == 69 && head[2] == 65 && head[3] == 68);
    assert(options.len() == 7 && options[0] == 79 && options[1] == 80 && options[2] == 84
        && options[3] == 73 && options[4] == 79 && options[5] == 78 && options[6] == 83);
    assert(trace.len() == 5 && trace[0] == 84 && trace[1] == 82 && trace[2] == 65 && trace[3] == 67
        && trace[4] == 69);
    assert(connect.len() == 7 && connect[0] == 67 && connect[1] == 79 && connect[2] == 78
        && connect[3] == 78 && connect[4] == 69 && connect[5] == 67 && connect[6] == 84);
    assert(patch.len() == 5 && patch[0] == 80 && patch[1] == 65 && patch[2] == 84 && patch[3] == 67
        && patch[4] == 72);
}

/// The bytes of the protocol token hold no carriage return.
pub proof fn lemma_protocol_token()
    ensures
        encode_utf8(protocol()).len() == 8,
        !encode_utf8(protocol()).contains(CR),
{
    reveal_strlit("HTTP/1.1");
    lemma_ascii_bytes(protocol());
    let token = encode_utf8(protocol());
    assert(token.len() == 8 && token[0] == 72 && token[1] == 84 && token[2] == 84 && token[3] == 80
        && token[4] == 47 && token[5] == 49 && token[6] == 46 && token[7] == 49);
}

/// A buffer whose first token names no method holds no request.
pub proof fn lemma_unknown_method_fails(buffer: Seq<u8>)
    requires
        buffer.index_of_first(SPACE) matches Some(end) ==> Method::of_token(
            buffer.subrange(0, end),
        ) is None,
    ensures
        request_at(buffer) is None,
{
}

/// Whether the protocol token, in any letter case, stands at `start` in
/// `buffer`.
pub open spec fn protocol_stands_at(buffer: Seq<u8>, start: int) -> bool {
    0 <= start && start + encode_utf8(protocol()).len() <= buffer.len() && lower(
        buffer.subrange(start, start + encode_utf8(protocol()).len()),
    ) == lower(encode_utf8(protocol()))
}

/// A buffer that holds the protocol token nowhere holds no request.
pub proof fn lemma_missing_protocol_fails(buffer: Seq<u8>)
    requires
        forall|start: int| !protocol_stands_at(buffer, start),
    ensures
        request_at(buffer) is None,
{
    if let Some((method, path_start)) = method_at(buffer) {
        lemma_index_of_first(buffer, SPACE);
        let after_method = buffer.skip(path_start);
        if let Some((path, path_len)) = path_at(after_method) {
            lemma_index_of_first(after_method, SPACE);
            let protocol_start = path_start + path_len;
            let after_path = buffer.skip(protocol_start);
            if let Some(protocol_len) = protocol_at(after_path) {
                lemma_index_of_first(after_path, CR);
                let end = after_path.index_of_first(CR)->0;
                let token = after_path.subrange(0, end);
                assert(lower(token).len() == lower(encode_utf8(protocol())).len());
                assert(token =~= buffer.subrange(protocol_start, protocol_start + end));
                assert(protocol_stands_at(buffer, protocol_start));
            }
        }
    }
}

/// A request that declares JSON content of some length has the rest of
/// the buffer as its body exactly where the rest is as long as declared,
/// and no body where it is shorter or longer.
pub proof fn lemma_body_has_the_declared_length(
    headers: Map<Seq<char>, Seq<char>>,
    rest: Seq<u8>,
    length: nat,
)
    requires
        headers.contains_key("content-type"@),
        headers["content-type"@] == "application/json"@,
        headers.contains_key("content-length"@),
        decimal(encode_utf8(headers["content-length"@])) == Some(length),
        length <= usize::MAX,
    ensures
        rest.len() == length ==> body_at(headers, rest) == Some(Some(lossy_text(rest))),
        rest.len() != length ==> body_at(headers, rest) == Some(None::<Seq<char>>),
{
}

/// The two bytes that end a line.
pub open spec fn crlf() -> Seq<u8> {
    seq![13u8, 10u8]
}

/// The request line for `method` and the path token `target`.
pub open spec fn request_line(method: Method, target: Seq<u8>) -> Seq<u8> {
    encode_utf8(method.token()) + seq![SPACE] + target + seq![SPACE] + encode_utf8(protocol())
        + crlf()
}

/// The line of one header: its name, a colon and a space, its value.
pub open spec fn header_line(header: (Seq<u8>, Seq<u8>)) -> Seq<u8> {
    header.0 + seq![COLON, SPACE] + header.1 + crlf()
}

/// The lines of a list of headers, in their order.
pub open spec fn header_lines(headers: Seq<(Seq<u8>, Seq<u8>)>) -> Seq<u8>
    decreases headers.len(),
{
    if headers.len() == 0 {
        Seq::empty()
    } else {
        header_line(headers.first()) + header_lines(headers.drop_first())
    }
}

/// A request without a body as it goes over the wire: the request line,
/// the header lines and an empty line.
pub open spec fn encoded(method: Method, target: Seq<u8>, headers: Seq<(Seq<u8>, Seq<u8>)>) -> Seq<
    u8,
> {
    request_line(method, target) + header_lines(headers) + crlf()
}

/// Whether a header can be written on one line and read back: no colon in
/// its name, and no carriage return in its name or its value.
pub open spec fn writable(header: (Seq<u8>, Seq<u8>)) -> bool {
    !header.0.contains(COLON) && !header.0.contains(CR) && !header.1.contains(CR)
}

/// What a parser keeps of a header: the text of its name in lower case,
/// and the text of its trimmed value in lower case.
pub open spec fn kept(header: (Seq<u8>, Seq<u8>)) -> (Seq<char>, Seq<char>) {
    (lowercased(lossy_text(header.0)), lowercased(lossy_text(trim(header.1))))
}

/// The headers that a parser keeps of a list, on top of those `found`
/// before: of two headers with one name, the later.
pub open spec fn collected(
    headers: Seq<(Seq<u8>, Seq<u8>)>,
    found: Map<Seq<char>, Seq<char>>,
) -> Map<Seq<char>, Seq<char>>
    decreases headers.len(),
{
    if headers.len() == 0 {
        found
    } else {
        collected(headers.drop_first(), found.insert(kept(headers.first()).0, kept(headers.first()).1))
    }
}

/// A space in front of a value does not change what trimming leaves.
pub proof fn lemma_trim_leading_space(value: Seq<u8>)
    ensures
        trim(seq![SPACE] + value) == trim(value),
{
    let spaced = seq![SPACE] + value;
    assert(spaced.drop_first() =~= value);
    assert(is_blank(spaced[0]));
}

/// A line written from a writable header holds that header.
pub proof fn lemma_header_line(header: (Seq<u8>, Seq<u8>))
    requires
        writable(header),
    ensures
        header_of(header.0 + seq![COLON, SPACE] + header.1) == Some(kept(header)),
{
    let line = header.0 + seq![COLON, SPACE] + header.1;
    let colon = header.0.len() as int;
    assert forall|j: int| 0 <= j < colon implies line[j] != COLON by {
        if line[j] == COLON {
            assert(header.0[j] == COLON);
            assert(header.0.contains(COLON));
        }
    }
    lemma_first_index(line, COLON, Some(colon));
    assert(line.subrange(0, colon) =~= header.0);
    assert(line.subrange(colon + 1, line.len() as int) =~= seq![SPACE] + header.1);
    lemma_trim_leading_space(header.1);
}

/// The first carriage return in the lines of a writable header stands at
/// the end of the header's own line.
pub proof fn lemma_line_end(header: (Seq<u8>, Seq<u8>), rest: Seq<u8>)
    requires
        writable(header),
    ensures
        (header_line(header) + rest).index_of_first(CR) == Some(
            (header.0.len() + 2 + header.1.len()) as int,
        ),
{
    let text = header_line(header) + rest;
    let end: int = (header.0.len() + 2 + header.1.len()) as int;
    assert forall|j: int| 0 <= j < end implies text[j] != CR by {
        if j < header.0.len() {
            if text[j] == CR {
                assert(header.0[j] == CR);
                assert(header.0.contains(CR));
            }
        } else if j >= header.0.len() + 2 {
            if text[j] == CR {
                assert(header.1[j - header.0.len() - 2] == CR);
                assert(header.1.contains(CR));
            }
        }
    }
    assert(text[end] == CR);
    lemma_first_index(text, CR, Some(end));
}

/// Reading the lines of writable headers from `start`, up to the empty
/// line that follows them at the end of the buffer, collects these headers
/// and ends at the end of the buffer.
pub proof fn lemma_headers_from(
    buffer: Seq<u8>,
    start: int,
    headers: Seq<(Seq<u8>, Seq<u8>)>,
    found: Map<Seq<char>, Seq<char>>,
)
    requires
        0 <= start <= buffer.len(),
        buffer.skip(start) == header_lines(headers) + crlf(),
        forall|i: int| 0 <= i < headers.len() ==> writable(#[trigger] headers[i]),
    ensures
        headers_from(buffer, start, found) == (collected(headers, found), buffer.len() as int),
    decreases headers.len(),
{
    let rest = buffer.skip(start);
    if headers.len() == 0 {
        assert(rest =~= crlf());
        assert(rest[0] == CR);
        lemma_first_index(rest, CR, Some(0));
    } else {
        let header = headers.first();
        let after = header_lines(headers.drop_first()) + crlf();
        assert(writable(headers[0]));
        assert(rest =~= header_line(header) + after);
        lemma_line_end(header, after);
        let at: int = (header.0.len() + 2 + header.1.len()) as int;
        assert(header_line(header).len() == at + 2);
        assert(past_line(buffer, start + at) == start + at + 2);
        assert(buffer.subrange(start, start + at) =~= header.0 + seq![COLON, SPACE] + header.1);
        lemma_header_line(header);
        assert(rest.skip(at + 2) =~= after);
        assert(buffer.skip(start + at + 2) =~= rest.skip(at + 2));
        assert forall|i: int| 0 <= i < headers.drop_first().len() implies writable(
            #[trigger] headers.drop_first()[i],
        ) by {
            assert(headers.drop_first()[i] == headers[i + 1]);
        }
        lemma_headers_from(
            buffer,
            start + at + 2,
            headers.drop_first(),
            found.insert(kept(header).0, kept(header).1),
        );
    }
}

/// Parsing recovers what was written: for every method, every path token
/// that is not empty and holds no space, and every list of writable
/// headers, the request read from the wire form has that method, the path
/// without its first byte, and the headers in lower case with trimmed
/// values, the later of two headers with one name.
///
/// The body is what the headers ask for and the empty rest of the buffer
/// gives: none, unless the headers declare JSON content of length zero.
/// Headers that declare JSON content without a length that reads as a
/// number make the wire form no request at all.
pub proof fn lemma_parse_recovers(
    method: Method,
    target: Seq<u8>,
    headers: Seq<(Seq<u8>, Seq<u8>)>,
)
    requires
        target.len() > 0,
        !target.contains(SPACE),
        forall|i: int| 0 <= i < headers.len() ==> writable(#[trigger] headers[i]),
    ensures
        request_at(encoded(method, target, headers)) == match body_at(
            collected(headers, Map::empty()),
            Seq::empty(),
        ) {
            Some(body) => Some(
                RequestView {
                    path: lossy_text(target.skip(1)),
                    method,
                    slugs: Map::empty(),
                    headers: collected(headers, Map::empty()),
                    body,
                },
            ),
            None => None,
        },
{
    let buffer = encoded(method, target, headers);
    let token = encode_utf8(method.token());
    let version = encode_utf8(protocol());
    let block = header_lines(headers) + crlf();
    lemma_method_token(method);
    lemma_protocol_token();
    // The method token ends at the first space.
    assert forall|j: int| 0 <= j < token.len() implies buffer[j] != SPACE by {
        if buffer[j] == SPACE {
            assert(token[j] == SPACE);
            assert(token.contains(SPACE));
        }
    }
    assert(buffer[token.len() as int] == SPACE);
    lemma_first_index(buffer, SPACE, Some(token.len() as int));
    assert(buffer.subrange(0, token.len() as int) =~= token);
    let path_start: int = (token.len() + 1) as int;
    assert(method_at(buffer) == Some((method, path_start)));
    // The path token ends at the next space.
    let after_method = buffer.skip(path_start);
    assert(after_method =~= target + seq![SPACE] + version + crlf() + block);
    assert forall|j: int| 0 <= j < target.len() implies after_method[j] != SPACE by {
        if after_method[j] == SPACE {
            assert(target[j] == SPACE);
            assert(target.contains(SPACE));
        }
    }
    assert(after_method[target.len() as int] == SPACE);
    lemma_first_index(after_method, SPACE, Some(target.len() as int));
    assert(after_method.subrange(1, target.len() as int) =~= target.skip(1));
    let path_len: int = (target.len() + 1) as int;
    assert(path_at(after_method) == Some((lossy_text(target.skip(1)), path_len)));
    // The protocol token ends at the first carriage return.
    let protocol_start: int = path_start + path_len;
    let after_path = buffer.skip(protocol_start);
    assert(after_path =~= version + crlf() + block);
    assert forall|j: int| 0 <= j < version.len() implies after_path[j] != CR by {
        if after_path[j] == CR {
            assert(version[j] == CR);
            assert(version.contains(CR));
        }
    }
    assert(after_path[version.len() as int] == CR);
    lemma_first_index(after_path, CR, Some(version.len() as int));
    assert(after_path.subrange(0, version.len() as int) =~= version);
    assert(block.len() >= 2);
    let protocol_len: int = (version.len() + 2) as int;
    assert(protocol_at(after_path) == Some(protocol_len));
    // The header block runs to the end of the buffer.
    let headers_start: int = protocol_start + protocol_len;
    let after_line = buffer.skip(headers_start);
    assert(after_line =~= block);
    assert(after_line.skip(0) =~= after_line);
    lemma_headers_from(after_line, 0, headers, Map::empty());
    assert(headers_at(after_line) == (collected(headers, Map::empty()), after_line.len() as int));
    assert(buffer.skip(headers_start + after_line.len()) =~= Seq::<u8>::empty());
}

} // verus!
