//! A flat list of routes, tried one after another: the plain way to
//! dispatch where the routes are few. A pattern segment `{}` stands for any
//! path segment and captures it.

use vstd::prelude::*;
use vstd::string::StrSliceExecFns;
use crate::response::{raw, wire_text, NOT_FOUND};
use crate::router::wildcard;
use crate::scan::lemma_index_of_first;
use vstd::utf8::encode_utf8;
use crate::text::{
    char_position, lowercased, occurs, split, split_text, text_contains, text_eq, texts,
    to_lowercase,
};

verus! {

/// The character sequences behind a list of strings.
pub open spec fn strings(list: Seq<String>) -> Seq<Seq<char>> {
    Seq::new(list.len(), |i: int| list[i]@)
}

/// Copies the pieces of a split into strings of their own.
pub fn owned(pieces: &Vec<&str>) -> (list: Vec<String>)
    ensures
        strings(list@) == texts(pieces@),
{
    let mut list: Vec<String> = Vec::with_capacity(pieces.len());
    let mut i: usize = 0;
    while i < pieces.len()
        invariant
            i <= pieces@.len(),
            list@.len() == i,
            forall|j: int| 0 <= j < i ==> list@[j]@ == pieces@[j]@,
        decreases pieces@.len() - i,
    {
        list.push(pieces[i].to_string());
        i += 1;
    }
    assert(strings(list@) =~= texts(pieces@));
    list
}

/// Whether a path matches a pattern: as many segments, and each pattern
/// segment either the wildcard or equal to the path segment in its place.
pub open spec fn matches(pattern: Seq<Seq<char>>, path: Seq<Seq<char>>) -> bool {
    pattern.len() == path.len() && forall|i: int|
        0 <= i < pattern.len() ==> pattern[i] == wildcard() || pattern[i] == path[i]
}

/// The segments among the first `n` of a path that stand where the pattern
/// has a wildcard, in their order.
pub open spec fn captured(pattern: Seq<Seq<char>>, path: Seq<Seq<char>>, n: nat) -> Seq<Seq<char>>
    decreases n,
{
    if n == 0 {
        Seq::empty()
    } else if pattern[n - 1] == wildcard() {
        captured(pattern, path, (n - 1) as nat).push(path[n - 1])
    } else {
        captured(pattern, path, (n - 1) as nat)
    }
}

/// The slugs of a request after its path has matched a pattern: the
/// captured segments where there are any, and what it had before
/// otherwise.
pub open spec fn slugs_after(
    pattern: Seq<Seq<char>>,
    path: Seq<Seq<char>>,
    before: Option<Seq<Seq<char>>>,
) -> Option<Seq<Seq<char>>> {
    if captured(pattern, path, pattern.len()).len() > 0 {
        Some(captured(pattern, path, pattern.len()))
    } else {
        before
    }
}

/// The method and the path of a request line.
pub struct Request {
    path_vec: Vec<String>,
    /// The method token, with the space that ends it.
    pub method: String,
    /// The path segments that the wildcards of the matched pattern have
    /// captured.
    pub slugs: Option<Vec<String>>,
}

/// What a request line holds, as plain mathematical values.
pub struct RequestView {
    pub path: Seq<Seq<char>>,
    pub method: Seq<char>,
    pub slugs: Option<Seq<Seq<char>>>,
}

impl View for Request {
    type V = RequestView;

    closed spec fn view(&self) -> RequestView {
        RequestView {
            path: strings(self.path_vec@),
            method: self.method@,
            slugs: match self.slugs {
                Some(slugs) => Some(strings(slugs@)),
                None => None,
            },
        }
    }
}

/// The request line at the head of `text`: the method up to and with the
/// first space, and the segments of the path between that space and the
/// next. A text with fewer than two spaces holds none.
pub open spec fn request_line_at(text: Seq<char>) -> Option<RequestView> {
    match text.index_of_first(' ') {
        Some(space) => {
            let rest = text.skip(space + 1);
            match rest.index_of_first(' ') {
                Some(end) => Some(
                    RequestView {
                        path: split(rest.take(end), '/'),
                        method: text.take(space + 1),
                        slugs: None,
                    },
                ),
                None => None,
            }
        },
        None => None,
    }
}

/// One route: the segments of its pattern and its handler.
pub struct Route<F> {
    pub pattern_vec: Vec<String>,
    pub handler: F,
}

impl<F> Route<F> {
    /// The route for `pattern`, split at its slashes.
    pub fn new(pattern: &str, handler: F) -> (route: Route<F>)
        ensures
            strings(route.pattern_vec@) == split(pattern@, '/'),
            route.handler == handler,
    {
        let pieces: Vec<&str> = split_text(pattern, '/');
        Route { pattern_vec: owned(&pieces), handler }
    }
}

/// The place of the first of the first `n` patterns that `path` matches.
pub open spec fn first_match(patterns: Seq<Seq<Seq<char>>>, path: Seq<Seq<char>>, n: nat) -> Option<
    int,
>
    decreases n,
{
    if n == 0 {
        None
    } else {
        match first_match(patterns, path, (n - 1) as nat) {
            Some(found) => Some(found),
            None => if matches(patterns[n - 1], path) {
                Some(n - 1)
            } else {
                None
            },
        }
    }
}

/// The patterns of a list of routes.
pub open spec fn patterns<F>(routes: Seq<Route<F>>) -> Seq<Seq<Seq<char>>> {
    Seq::new(routes.len(), |i: int| strings(routes[i].pattern_vec@))
}

impl Request {
    /// Reads the request line at the head of `request`.
    pub fn new(request: &str) -> (parsed: Option<Request>)
        ensures
            match parsed {
                Some(line) => request_line_at(request@) == Some(line@),
                None => request_line_at(request@) is None,
            },
    {
        let len: usize = request.unicode_len();
        proof {
            lemma_index_of_first(request@, ' ');
        }
        let space: usize = match char_position(request, ' ') {
            Some(space) => space,
            None => {
                return None;
            },
        };
        let method: &str = request.substring_char(0, space + 1);
        let rest: &str = request.substring_char(space + 1, len);
        assert(rest@ =~= request@.skip(space + 1));
        assert(method@ =~= request@.take(space + 1));
        proof {
            lemma_index_of_first(rest@, ' ');
        }
        let end: usize = match char_position(rest, ' ') {
            Some(end) => end,
            None => {
                return None;
            },
        };
        let path: &str = rest.substring_char(0, end);
        assert(path@ =~= rest@.take(end as int));
        let pieces: Vec<&str> = split_text(path, '/');
        Some(Request { path_vec: owned(&pieces), method: method.to_string(), slugs: None })
    }

    /// Holds the path against the pattern of `route`, and where it matches
    /// keeps the segments that the wildcards capture.
    pub fn compare_route<F>(&mut self, route: &Route<F>) -> (matched: bool)
        ensures
            matched == matches(strings(route.pattern_vec@), old(self)@.path),
            final(self)@ == (RequestView {
                slugs: if matched {
                    slugs_after(strings(route.pattern_vec@), old(self)@.path, old(self)@.slugs)
                } else {
                    old(self)@.slugs
                },
                ..old(self)@
            }),
    {
        let ghost pattern = strings(route.pattern_vec@);
        let ghost path = self@.path;
        if route.pattern_vec.len() != self.path_vec.len() {
            return false;
        }
        let mut slugs: Vec<String> = Vec::new();
        let mut i: usize = 0;
        assert(strings(slugs@) =~= captured(pattern, path, 0));
        while i < route.pattern_vec.len()
            invariant
                *self == *old(self),
                pattern == strings(route.pattern_vec@),
                path == strings(self.path_vec@),
                pattern.len() == path.len(),
                i <= pattern.len(),
                forall|j: int| 0 <= j < i ==> pattern[j] == wildcard() || pattern[j] == path[j],
                strings(slugs@) == captured(pattern, path, i as nat),
            decreases pattern.len() - i,
        {
            assert(pattern[i as int] == route.pattern_vec@[i as int]@);
            assert(path[i as int] == self.path_vec@[i as int]@);
            if text_eq(route.pattern_vec[i].as_str(), "{}") {
                let slug: String = self.path_vec[i].clone();
                assert(strings(slugs@.push(slug)) =~= strings(slugs@).push(path[i as int]));
                slugs.push(slug);
            } else if !text_eq(route.pattern_vec[i].as_str(), self.path_vec[i].as_str()) {
                return false;
            }
            i += 1;
        }
        if slugs.len() > 0 {
            self.slugs = Some(slugs);
        }
        true
    }

    /// Answers the request with the handler of the first route whose
    /// pattern its path matches.
    pub fn find_route<F: Fn(&Request) -> Option<String>>(self, routes: &Vec<Route<F>>) -> (answer:
        Option<String>)
        requires
            forall|i: int, request: Request|
                0 <= i < routes@.len() ==> call_requires(routes@[i].handler, (&request,)),
        ensures
            match first_match(patterns(routes@), self@.path, routes@.len()) {
                Some(found) => exists|seen: Request|
                    seen@ == (RequestView {
                        slugs: slugs_after(patterns(routes@)[found], self@.path, self@.slugs),
                        ..self@
                    }) && call_ensures(routes@[found].handler, (&seen,), answer),
                None => answer is None,
            },
    {
        let mut request: Request = self;
        let mut i: usize = 0;
        while i < routes.len()
            invariant
                i <= routes@.len(),
                request@ == self@,
                first_match(patterns(routes@), self@.path, i as nat) is None,
                forall|k: int, any: Request|
                    0 <= k < routes@.len() ==> call_requires(routes@[k].handler, (&any,)),
            decreases routes@.len() - i,
        {
            assert(patterns(routes@)[i as int] == strings(routes@[i as int].pattern_vec@));
            if request.compare_route(&routes[i]) {
                assert(first_match(patterns(routes@), self@.path, (i + 1) as nat) == Some(
                    i as int,
                ));
                proof {
                    lemma_first_match_stays(patterns(routes@), self@.path, (i + 1) as nat, routes@.len());
                }
                return (routes[i].handler)(&request);
            }
            i += 1;
        }
        None
    }
}

/// A match found among the first `n` patterns is the one found among more.
pub proof fn lemma_first_match_stays(
    patterns: Seq<Seq<Seq<char>>>,
    path: Seq<Seq<char>>,
    n: nat,
    more: nat,
)
    requires
        n <= more,
        first_match(patterns, path, n) is Some,
    ensures
        first_match(patterns, path, more) == first_match(patterns, path, n),
    decreases more - n,
{
    if n < more {
        lemma_first_match_stays(patterns, path, n, (more - 1) as nat);
    }
}

/// The body of the answer to a request that no route matches.
pub open spec fn no_route() -> Seq<char> {
    "not found"@
}

/// Answers the request with the handler of the first route that its path
/// matches, and with a framed `not found` where none matches or the
/// handler gives nothing.
pub fn response_for_request<F: Fn(&Request) -> Option<String>>(
    request: Request,
    routes: &Vec<Route<F>>,
) -> (wire: String)
    requires
        forall|i: int, any: Request|
            0 <= i < routes@.len() ==> call_requires(routes@[i].handler, (&any,)),
    ensures
        answered(routes@, request@, wire),
{
    match request.find_route(routes) {
        Some(response) => response,
        None => raw(NOT_FOUND, "not found"),
    }
}

/// Whether a request in lower case asks to keep the connection: whether
/// it holds `connection: keep-alive` anywhere.
pub open spec fn asks_keep_alive(lower: Seq<char>) -> bool {
    occurs(encode_utf8("connection: keep-alive"@), encode_utf8(lower))
}

/// Serves one request as read from the connection: lower-cases it, reads
/// its request line and answers it from the routes. The result is the
/// answer to write and whether the connection goes on after it, and
/// nothing where the text holds no request line.
pub fn serve<F: Fn(&Request) -> Option<String>>(request_raw: &str, routes: &Vec<Route<F>>) -> (served:
    Option<(String, bool)>)
    requires
        forall|i: int, any: Request|
            0 <= i < routes@.len() ==> call_requires(routes@[i].handler, (&any,)),
    ensures
        match request_line_at(lowercased(request_raw@)) {
            Some(line) => served matches Some((wire, keep_alive)) && keep_alive == asks_keep_alive(
                lowercased(request_raw@),
            ) && answered(routes@, line, wire),
            None => served is None,
        },
{
    let lower: String = to_lowercase(request_raw);
    let request: Request = match Request::new(lower.as_str()) {
        Some(request) => request,
        None => {
            return None;
        },
    };
    let wire: String = response_for_request(request, routes);
    let keep_alive: bool = text_contains(lower.as_str(), "connection: keep-alive");
    Some((wire, keep_alive))
}

/// Whether `wire` is an answer of the routes to the request line `line`:
/// what the handler of the first matching route gave for the request with
/// its captures, and the framed `not found` where no route matches or the
/// handler gave nothing.
pub open spec fn answered<F: Fn(&Request) -> Option<String>>(
    routes: Seq<Route<F>>,
    line: RequestView,
    wire: String,
) -> bool {
    match first_match(patterns(routes), line.path, routes.len()) {
        Some(found) => exists|seen: Request, answer: Option<String>|
            seen@ == (RequestView {
                slugs: slugs_after(patterns(routes)[found], line.path, line.slugs),
                ..line
            }) && call_ensures(routes[found].handler, (&seen,), answer) && wire@ == match answer {
                Some(text) => text@,
                None => wire_text(NOT_FOUND as int, no_route()),
            },
        None => wire@ == wire_text(NOT_FOUND as int, no_route()),
    }
}

} // verus!
