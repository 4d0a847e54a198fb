//! The life of one connection as a state machine: what follows each read,
//! rate check, parse, routing and write, and when the connection ends.

use vstd::prelude::*;
use crate::rate_limiter::MutexLimiter;
use crate::request::{request_at, Request, RequestView};
use crate::response::{Response, ResponseView, TOO_MANY_REQUESTS};
use crate::router::{handle, method_not_allowed, not_found, Router, RouterView, Target};
use crate::text::{split, text_eq};

verus! {

/// The size of the buffer that one read fills.
pub const BUFFER_SIZE: usize = 2048;

/// The seconds that a read or a write may take to become ready.
pub const TIMEOUT: u64 = 60;

/// Where a connection stands.
#[derive(Clone, Copy, Debug, PartialEq, Eq, Structural)]
pub enum State {
    /// Waiting for the next request to be read.
    Reading,
    /// A request was read and waits for the rate limiter.
    RateChecking,
    /// The request was let in and waits to be parsed.
    Parsing,
    /// The request was parsed and waits to be routed.
    Routing,
    /// A response waits to be written.
    Writing,
    /// The connection has ended.
    Closed,
}

/// What can happen to a connection.
#[derive(Clone, Copy, Debug, PartialEq, Eq, Structural)]
pub enum Event {
    /// A read ended with this many bytes; none means the peer has closed.
    Read(usize),
    /// The rate limiter has let the request in, or has not.
    RateChecked(bool),
    /// The buffer held a request, which asks to keep the connection or
    /// does not.
    Parsed(bool),
    /// The buffer held no request.
    Malformed,
    /// The router has produced a response.
    Routed,
    /// The response was written.
    Written,
    /// A read or a write failed.
    Failed,
    /// A read or a write did not become ready in time.
    TimedOut,
}

/// One connection: where it stands, and whether it goes on after the
/// response at hand.
#[derive(Clone, Copy, Debug, PartialEq, Eq, Structural)]
pub struct Connection {
    pub state: State,
    pub keep_alive: bool,
}

/// The ended connection.
pub open spec fn closed() -> Connection {
    Connection { state: State::Closed, keep_alive: false }
}

/// The connection after `event`.
///
/// A read with bytes leads to the rate check; a request let in is parsed,
/// one turned away is answered and the connection ends after the answer; a
/// parsed request is routed and its response written; after the write the
/// connection reads again where the request asked to keep it, and ends
/// otherwise. An empty read, a buffer without a request, a failure, a
/// timeout and any event that the state does not wait for end the
/// connection at once.
pub open spec fn next(connection: Connection, event: Event) -> Connection {
    match (connection.state, event) {
        (State::Reading, Event::Read(bytes)) => if bytes == 0 {
            closed()
        } else {
            Connection { state: State::RateChecking, keep_alive: false }
        },
        (State::RateChecking, Event::RateChecked(allowed)) => if allowed {
            Connection { state: State::Parsing, keep_alive: false }
        } else {
            Connection { state: State::Writing, keep_alive: false }
        },
        (State::Parsing, Event::Parsed(keep_alive)) => Connection {
            state: State::Routing,
            keep_alive,
        },
        (State::Routing, Event::Routed) => Connection {
            state: State::Writing,
            keep_alive: connection.keep_alive,
        },
        (State::Writing, Event::Written) => if connection.keep_alive {
            Connection { state: State::Reading, keep_alive: false }
        } else {
            closed()
        },
        _ => closed(),
    }
}

/// Whether a request with these headers asks to keep the connection.
pub open spec fn wants_keep_alive(headers: Map<Seq<char>, Seq<char>>) -> bool {
    headers.contains_key("connection"@) && headers["connection"@] == "keep-alive"@
}

/// The response to a request that the rate limiter has turned away.
pub open spec fn too_many_requests() -> ResponseView {
    ResponseView {
        status: TOO_MANY_REQUESTS as int,
        message: Some("Muitas requisições foram feitas. Tente novamente em alguns segundos."@),
        data: None,
    }
}

/// The connection after the stages between a read and a write: the rate
/// check with the answer `allowed`, and for a request let in the parse of
/// `buffer` and the routing.
pub open spec fn processed(connection: Connection, allowed: bool, buffer: Seq<u8>) -> Connection {
    let checked = next(connection, Event::RateChecked(allowed));
    if checked.state is Parsing {
        match request_at(buffer) {
            Some(request) => next(
                next(checked, Event::Parsed(wants_keep_alive(request.headers))),
                Event::Routed,
            ),
            None => next(checked, Event::Malformed),
        }
    } else {
        checked
    }
}

/// Whether `response` is an answer of the router to the parsed `request`:
/// the fixed response where the walk of the request's path leads to no
/// handler for its method, and otherwise what the handler returned for the
/// request with its captured slugs.
pub open spec fn routed<H: Fn(&Request) -> Result<Response, Response>>(
    router: RouterView<H>,
    request: RequestView,
    response: Response,
) -> bool {
    let walk = router.walk(Seq::empty(), split(request.path, '/'), request.slugs);
    match router.target(walk.reached, request.method) {
        Target::Missing => response@ == not_found(),
        Target::Refused(allowed) => response@ == method_not_allowed(allowed),
        Target::Handler(handler) => exists|seen: Request|
            seen@ == (RequestView { slugs: walk.slugs, ..request }) && (call_ensures(
                handler,
                (&seen,),
                Ok::<Response, Response>(response),
            ) || call_ensures(handler, (&seen,), Err::<Response, Response>(response))),
    }
}

/// Whether the request asks to keep the connection after the response.
pub fn keeps_alive(request: &Request) -> (keep: bool)
    ensures
        keep == wants_keep_alive(request@.headers),
{
    match request.headers.get("connection") {
        Some(value) => text_eq(value.as_str(), "keep-alive"),
        None => false,
    }
}

/// Builds the response to a request that the rate limiter has turned away.
pub fn too_many_requests_response() -> (response: Response)
    ensures
        response@ == too_many_requests(),
{
    Response::status(TOO_MANY_REQUESTS).message(
        "Muitas requisições foram feitas. Tente novamente em alguns segundos.",
    )
}

/// Offers one request of the client `ip` to the shared limiter, which
/// asks the server-wide counter first and the client's counter only where
/// the server-wide one has let the request in; `Limiter::allow` says what
/// that does to the state it finds.
pub fn rate_check(limiter: &MutexLimiter, ip: &str) -> bool {
    limiter.allow(ip.to_string())
}

impl Connection {
    /// A connection that waits for its first request.
    pub fn new() -> (connection: Connection)
        ensures
            connection == (Connection { state: State::Reading, keep_alive: false }),
    {
        Connection { state: State::Reading, keep_alive: false }
    }

    /// Moves the connection on by one event.
    pub fn step(&mut self, event: Event)
        ensures
            *final(self) == next(*old(self), event),
    {
        let after: Connection = match (self.state, event) {
            (State::Reading, Event::Read(bytes)) => if bytes == 0 {
                Connection { state: State::Closed, keep_alive: false }
            } else {
                Connection { state: State::RateChecking, keep_alive: false }
            },
            (State::RateChecking, Event::RateChecked(allowed)) => if allowed {
                Connection { state: State::Parsing, keep_alive: false }
            } else {
                Connection { state: State::Writing, keep_alive: false }
            },
            (State::Parsing, Event::Parsed(keep_alive)) => Connection {
                state: State::Routing,
                keep_alive,
            },
            (State::Routing, Event::Routed) => Connection {
                state: State::Writing,
                keep_alive: self.keep_alive,
            },
            (State::Writing, Event::Written) => if self.keep_alive {
                Connection { state: State::Reading, keep_alive: false }
            } else {
                Connection { state: State::Closed, keep_alive: false }
            },
            _ => Connection { state: State::Closed, keep_alive: false },
        };
        *self = after;
    }

    /// Takes the connection from the rate check to the write, given the
    /// rate limiter's answer: a request turned away gets the response that
    /// says so; a request let in is parsed from `buffer` and routed. The
    /// result is the response to write, and nothing where the connection
    /// has ended instead.
    pub fn process_checked<H: Fn(&Request) -> Result<Response, Response>>(
        &mut self,
        allowed: bool,
        buffer: &[u8],
        router: &Router<H>,
    ) -> (reply: Option<Response>)
        requires
            router.wf(),
        ensures
            *final(self) == processed(*old(self), allowed, buffer@),
            reply is Some <==> final(self).state is Writing,
            match reply {
                Some(response) => if allowed {
                    request_at(buffer@) matches Some(request) && routed(router@, request, response)
                } else {
                    response@ == too_many_requests()
                },
                None => true,
            },
    {
        self.step(Event::RateChecked(allowed));
        match self.state {
            State::Writing => {
                return Some(too_many_requests_response());
            },
            State::Parsing => {},
            _ => {
                return None;
            },
        }
        let mut request: Request = match Request::new(buffer) {
            Some(request) => request,
            None => {
                self.step(Event::Malformed);
                return None;
            },
        };
        let ghost parsed = request@;
        self.step(Event::Parsed(keeps_alive(&request)));
        let response: Response = handle(&mut request, router);
        self.step(Event::Routed);
        assert(routed(router@, parsed, response));
        Some(response)
    }

    /// Takes the connection from the rate check to the write: asks the
    /// shared limiter about the client `ip`, and goes on as
    /// `process_checked` does with its answer. A connection that does not
    /// wait for the rate check ends, and the limiter is not asked.
    pub fn process<H: Fn(&Request) -> Result<Response, Response>>(
        &mut self,
        buffer: &[u8],
        ip: &str,
        router: &Router<H>,
        limiter: &MutexLimiter,
    ) -> (reply: Option<Response>)
        requires
            router.wf(),
        ensures
            *final(self) == processed(*old(self), true, buffer@) || *final(self) == processed(
                *old(self),
                false,
                buffer@,
            ),
            reply is Some <==> final(self).state is Writing,
            reply matches Some(response) ==> response@ == too_many_requests() || (request_at(
                buffer@,
            ) matches Some(request) && routed(router@, request, response)),
    {
        let allowed: bool = match self.state {
            State::RateChecking => rate_check(limiter, ip),
            _ => false,
        };
        self.process_checked(allowed, buffer, router)
    }
}

/// The ended connection stays ended, whatever happens.
pub proof fn lemma_closed_is_final(connection: Connection, event: Event)
    requires
        connection.state is Closed,
    ensures
        next(connection, event) == closed(),
{
}

/// A failure or a timeout ends the connection from every state.
pub proof fn lemma_failure_closes(connection: Connection)
    ensures
        next(connection, Event::Failed) == closed(),
        next(connection, Event::TimedOut) == closed(),
{
}

/// After a write the connection reads again exactly where the request
/// asked to keep it, and has ended otherwise.
pub proof fn lemma_keep_alive(connection: Connection)
    requires
        connection.state is Writing,
    ensures
        next(connection, Event::Written).state == if connection.keep_alive {
            State::Reading
        } else {
            State::Closed
        },
{
}

/// A request that the rate limiter turns away is answered, and the
/// connection ends with the write of the answer.
pub proof fn lemma_rejection_closes(connection: Connection, buffer: Seq<u8>)
    requires
        connection.state is RateChecking,
    ensures
        processed(connection, false, buffer).state is Writing,
        next(processed(connection, false, buffer), Event::Written) == closed(),
{
}

/// A buffer without a request ends the connection with nothing written.
pub proof fn lemma_malformed_closes(connection: Connection, buffer: Seq<u8>)
    requires
        connection.state is RateChecking,
        request_at(buffer) is None,
    ensures
        processed(connection, true, buffer) == closed(),
{
}

} // verus!
