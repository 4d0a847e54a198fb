use direct_http::connection::{keeps_alive, rate_check, Event, State};
use direct_http::{Connection, Method, MutexLimiter, Request, Response, Router};

type Handler = fn(&Request) -> Result<Response, Response>;

fn pong(_request: &Request) -> Result<Response, Response> {
    Ok(Response::status(200).message("pong"))
}

fn router() -> Router<Handler> {
    let mut router: Router<Handler> = Router::new();
    router.subscribe_route(Method::GET, "/ping", pong);
    router
}

const PONG: &str = "{\"status\":200,\"message\":\"pong\",\"data\":null}";

#[test]
fn keep_alive_serves_two_requests_on_one_connection() {
    let router = router();
    let limiter = MutexLimiter::new(10, 10);
    let first = b"GET /ping HTTP/1.1\r\nConnection: keep-alive\r\n\r\n";
    let second = b"GET /ping HTTP/1.1\r\n\r\n";
    let mut connection = Connection::new();
    let mut written: Vec<String> = Vec::new();

    assert_eq!(connection.state, State::Reading);
    connection.step(Event::Read(first.len()));
    assert_eq!(connection.state, State::RateChecking);
    let reply = connection.process(first, "10.0.0.1", &router, &limiter).unwrap();
    assert_eq!(connection.state, State::Writing);
    written.push(reply.body());
    connection.step(Event::Written);
    assert_eq!(connection.state, State::Reading);

    connection.step(Event::Read(second.len()));
    let reply = connection.process(second, "10.0.0.1", &router, &limiter).unwrap();
    written.push(reply.body());
    connection.step(Event::Written);
    assert_eq!(connection.state, State::Closed);

    assert_eq!(written, vec![PONG.to_string(), PONG.to_string()]);
}

#[test]
fn without_keep_alive_the_connection_ends_after_one_response() {
    let router = router();
    let limiter = MutexLimiter::new(10, 10);
    for buffer in [
        &b"GET /ping HTTP/1.1\r\n\r\n"[..],
        &b"GET /ping HTTP/1.1\r\nConnection: close\r\n\r\n"[..],
        &b"GET /ping HTTP/1.1\r\nConnection: keep-alive, x\r\n\r\n"[..],
    ] {
        let mut connection = Connection::new();
        connection.step(Event::Read(buffer.len()));
        let reply = connection.process(buffer, "10.0.0.1", &router, &limiter).unwrap();
        assert_eq!(reply.body(), PONG);
        assert!(!connection.keep_alive);
        connection.step(Event::Written);
        assert_eq!(connection.state, State::Closed);
    }
}

#[test]
fn keep_alive_is_read_in_any_letter_case() {
    let request = Request::new(b"GET / HTTP/1.1\r\nCONNECTION: Keep-Alive\r\n\r\n").unwrap();
    assert!(keeps_alive(&request));
    let request = Request::new(b"GET / HTTP/1.1\r\nConnection: close\r\n\r\n").unwrap();
    assert!(!keeps_alive(&request));
    let request = Request::new(b"GET / HTTP/1.1\r\n\r\n").unwrap();
    assert!(!keeps_alive(&request));
}

#[test]
fn routing_errors_keep_the_connection_where_asked() {
    let router = router();
    let buffer = b"GET /nowhere HTTP/1.1\r\nConnection: keep-alive\r\n\r\n";
    let mut connection = Connection::new();
    connection.step(Event::Read(buffer.len()));
    let reply = connection.process_checked(true, buffer, &router).unwrap();
    assert_eq!(reply.body(), "{\"status\":404,\"message\":\"N\u{e3}o encontrado.\",\"data\":null}");
    connection.step(Event::Written);
    assert_eq!(connection.state, State::Reading);
}

#[test]
fn a_request_turned_away_is_answered_and_the_connection_ends() {
    let router = router();
    let buffer = b"GET /ping HTTP/1.1\r\nConnection: keep-alive\r\n\r\n";
    let mut connection = Connection::new();
    connection.step(Event::Read(buffer.len()));
    let reply = connection.process_checked(false, buffer, &router).unwrap();
    assert_eq!(
        reply.body(),
        "{\"status\":429,\"message\":\"Muitas requisi\u{e7}\u{f5}es foram feitas. Tente novamente em alguns segundos.\",\"data\":null}"
    );
    assert_eq!(connection.state, State::Writing);
    connection.step(Event::Written);
    assert_eq!(connection.state, State::Closed);
}

#[test]
fn the_limiter_turns_the_eleventh_request_away() {
    let router = router();
    let limiter = MutexLimiter::new(10, 100);
    let buffer = b"GET /ping HTTP/1.1\r\nConnection: keep-alive\r\n\r\n";
    let mut connection = Connection::new();
    for _ in 0..10 {
        connection.step(Event::Read(buffer.len()));
        let reply = connection.process(buffer, "10.0.0.9", &router, &limiter).unwrap();
        assert_eq!(reply.body(), PONG);
        connection.step(Event::Written);
        assert_eq!(connection.state, State::Reading);
    }
    connection.step(Event::Read(buffer.len()));
    let reply = connection.process(buffer, "10.0.0.9", &router, &limiter).unwrap();
    assert!(reply.body().starts_with("{\"status\":429,"));
    connection.step(Event::Written);
    assert_eq!(connection.state, State::Closed);
}

#[test]
fn server_is_checked_before_the_client() {
    let limiter = MutexLimiter::new(10, 10);
    for _ in 0..10 {
        assert!(limiter.server_allow());
    }
    assert!(!rate_check(&limiter, "a"));
    limiter.decrease_all();
    limiter.decrease_all();
    for _ in 0..2 {
        assert!(rate_check(&limiter, "a"));
    }
    assert!(!rate_check(&limiter, "a"));
    for _ in 0..10 {
        limiter.decrease_all();
    }
    for _ in 0..10 {
        assert!(rate_check(&limiter, "a"));
    }
    assert!(!rate_check(&limiter, "b"));
}

#[test]
fn a_buffer_without_a_request_ends_the_connection_unanswered() {
    let router = router();
    let buffer = b"HELLO\r\n";
    let mut connection = Connection::new();
    connection.step(Event::Read(buffer.len()));
    assert!(connection.process_checked(true, buffer, &router).is_none());
    assert_eq!(connection.state, State::Closed);
}

#[test]
fn an_empty_read_ends_the_connection() {
    let mut connection = Connection::new();
    connection.step(Event::Read(0));
    assert_eq!(connection.state, State::Closed);
}

#[test]
fn failure_and_timeout_end_the_connection_from_every_state() {
    let states = [
        State::Reading,
        State::RateChecking,
        State::Parsing,
        State::Routing,
        State::Writing,
        State::Closed,
    ];
    for state in states {
        for event in [Event::Failed, Event::TimedOut] {
            let mut connection = Connection { state, keep_alive: true };
            connection.step(event);
            assert_eq!(connection, Connection { state: State::Closed, keep_alive: false });
        }
    }
}

#[test]
fn closed_stays_closed() {
    let events = [
        Event::Read(5),
        Event::RateChecked(true),
        Event::Parsed(true),
        Event::Malformed,
        Event::Routed,
        Event::Written,
        Event::Failed,
        Event::TimedOut,
    ];
    for event in events {
        let mut connection = Connection { state: State::Closed, keep_alive: true };
        connection.step(event);
        assert_eq!(connection.state, State::Closed);
    }
}

#[test]
fn every_stage_leads_to_the_next() {
    let mut connection = Connection::new();
    connection.step(Event::Read(12));
    assert_eq!(connection.state, State::RateChecking);
    connection.step(Event::RateChecked(true));
    assert_eq!(connection.state, State::Parsing);
    connection.step(Event::Parsed(true));
    assert_eq!(connection, Connection { state: State::Routing, keep_alive: true });
    connection.step(Event::Routed);
    assert_eq!(connection, Connection { state: State::Writing, keep_alive: true });
    connection.step(Event::Written);
    assert_eq!(connection, Connection { state: State::Reading, keep_alive: false });
}

#[test]
fn an_event_out_of_turn_ends_the_connection() {
    let mut connection = Connection::new();
    connection.step(Event::Written);
    assert_eq!(connection.state, State::Closed);
    let mut connection = Connection { state: State::Parsing, keep_alive: false };
    connection.step(Event::Malformed);
    assert_eq!(connection.state, State::Closed);
    let router = router();
    let mut connection = Connection::new();
    assert!(connection.process_checked(true, b"GET /ping HTTP/1.1\r\n\r\n", &router).is_none());
    assert_eq!(connection.state, State::Closed);
}
