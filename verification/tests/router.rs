use direct_http::router::handle;
use direct_http::{Method, Request, Response, Router};

type Handler = fn(&Request) -> Result<Response, Response>;

fn literal(_request: &Request) -> Result<Response, Response> {
    Ok(Response::status(200).message("literal"))
}

fn wildcard(request: &Request) -> Result<Response, Response> {
    let id = request.slugs.get("id").cloned().unwrap_or_default();
    Ok(Response::status(200).message(&id))
}

fn failing(_request: &Request) -> Result<Response, Response> {
    Err(Response::status(401).message("no"))
}

fn request(method: &str, path: &str) -> Request {
    let text = format!("{} {} HTTP/1.1\r\n\r\n", method, path);
    Request::new(text.as_bytes()).unwrap()
}

fn users() -> Router<Handler> {
    let mut router: Router<Handler> = Router::new();
    router.subscribe_route(Method::GET, "/users/{id}", wildcard);
    router.subscribe_route(Method::GET, "/users/me", literal);
    router
}

#[test]
fn literal_child_beats_the_wildcard() {
    let router = users();
    let mut me = request("GET", "/users/me");
    let response = handle(&mut me, &router);
    assert_eq!(response.body(), "{\"status\":200,\"message\":\"literal\",\"data\":null}");
    assert!(me.slugs.get("id").is_none());
}

#[test]
fn wildcard_child_captures_the_segment() {
    let router = users();
    let mut other = request("GET", "/users/42");
    let response = handle(&mut other, &router);
    assert_eq!(other.slugs.get("id").unwrap(), "42");
    assert_eq!(response.body(), "{\"status\":200,\"message\":\"42\",\"data\":null}");
}

#[test]
fn wrong_method_is_refused_and_unknown_path_is_missing() {
    let mut router: Router<Handler> = Router::new();
    router.subscribe_route(Method::GET, "/ping", literal);
    let mut post = request("POST", "/ping");
    assert_eq!(
        handle(&mut post, &router).body(),
        "{\"status\":405,\"message\":\"Métodos disponíveis : [GET]\",\"data\":null}"
    );
    let mut pong = request("GET", "/pong");
    assert_eq!(
        handle(&mut pong, &router).body(),
        "{\"status\":404,\"message\":\"Não encontrado.\",\"data\":null}"
    );
}

#[test]
fn handler_error_is_passed_through() {
    let mut router: Router<Handler> = Router::new();
    router.subscribe_route(Method::DELETE, "/items/{item}/tags/{tag}", failing);
    let mut delete = request("DELETE", "/items/7/tags/red");
    let response = handle(&mut delete, &router);
    assert_eq!(response.body(), "{\"status\":401,\"message\":\"no\",\"data\":null}");
    assert_eq!(delete.slugs.get("item").unwrap(), "7");
    assert_eq!(delete.slugs.get("tag").unwrap(), "red");
}

fn named(request: &Request) -> Result<Response, Response> {
    let mut names: Vec<String> = Vec::new();
    for name in ["id", "name", "a", "b", ""] {
        if let Some(value) = request.slugs.get(name) {
            names.push(format!("{}={}", name, value));
        }
    }
    Ok(Response::status(200).message(&names.join(";")))
}

fn message(response: Response) -> String {
    let body = response.body();
    let value: serde_json::Value = serde_json::from_str(&body).unwrap();
    format!(
        "{} {}",
        value.get("status").unwrap(),
        value.get("message").and_then(|m| m.as_str()).unwrap_or("-")
    )
}

#[test]
fn the_walk_does_not_turn_back() {
    let mut router: Router<Handler> = Router::new();
    router.subscribe_route(Method::GET, "/a/b/c", literal);
    router.subscribe_route(Method::GET, "/a/{id}/d", named);
    let mut request_d = request("GET", "/a/b/d");
    assert_eq!(message(handle(&mut request_d, &router)), "404 N\u{e3}o encontrado.");
    let mut request_x = request("GET", "/a/x/d");
    assert_eq!(message(handle(&mut request_x, &router)), "200 id=x");
    let mut request_c = request("GET", "/a/b/c");
    assert_eq!(message(handle(&mut request_c, &router)), "200 literal");
}

#[test]
fn a_node_on_the_way_has_no_route() {
    let mut router: Router<Handler> = Router::new();
    router.subscribe_route(Method::GET, "/a/b/c", literal);
    for path in ["/a", "/a/b", "/a/b/c/d", "/", "/a/b/c/"] {
        let mut asked = request("GET", path);
        assert_eq!(message(handle(&mut asked, &router)), "404 N\u{e3}o encontrado.");
    }
}

#[test]
fn methods_are_listed_in_their_order() {
    let mut router: Router<Handler> = Router::new();
    router.subscribe_route(Method::PATCH, "/x", literal);
    router.subscribe_route(Method::GET, "/x", literal);
    router.subscribe_route(Method::DELETE, "x", literal);
    let mut post = request("POST", "/x");
    assert_eq!(
        message(handle(&mut post, &router)),
        "405 M\u{e9}todos dispon\u{ed}veis : [GET, DELETE, PATCH]"
    );
    let mut get = request("GET", "/x");
    assert_eq!(message(handle(&mut get, &router)), "200 literal");
}

#[test]
fn a_later_handler_replaces_the_earlier_one() {
    let mut router: Router<Handler> = Router::new();
    router.subscribe_route(Method::GET, "/x", failing);
    router.subscribe_route(Method::POST, "/x", failing);
    router.subscribe_route(Method::GET, "/x", literal);
    let mut get = request("GET", "/x");
    assert_eq!(message(handle(&mut get, &router)), "200 literal");
    let mut post = request("POST", "/x");
    assert_eq!(message(handle(&mut post, &router)), "401 no");
}

#[test]
fn the_first_placeholder_name_stays() {
    let mut router: Router<Handler> = Router::new();
    router.subscribe_route(Method::GET, "/u/{id}", named);
    router.subscribe_route(Method::GET, "/u/{name}/more", named);
    let mut short = request("GET", "/u/7");
    assert_eq!(message(handle(&mut short, &router)), "200 id=7");
    let mut long = request("GET", "/u/7/more");
    assert_eq!(message(handle(&mut long, &router)), "200 id=7");
}

#[test]
fn two_wildcards_capture_two_segments() {
    let mut router: Router<Handler> = Router::new();
    router.subscribe_route(Method::GET, "/{a}/{b}", named);
    let mut asked = request("GET", "/x/y");
    assert_eq!(message(handle(&mut asked, &router)), "200 a=x;b=y");
    let mut empty = request("GET", "//");
    assert_eq!(message(handle(&mut empty, &router)), "200 a=;b=");
}

#[test]
fn the_root_pattern_answers_the_root_path() {
    let mut router: Router<Handler> = Router::new();
    router.subscribe_route(Method::GET, "/", literal);
    let mut root = request("GET", "/");
    assert_eq!(message(handle(&mut root, &router)), "200 literal");
    let mut other = request("GET", "/x");
    assert_eq!(message(handle(&mut other, &router)), "404 N\u{e3}o encontrado.");
}

#[test]
fn braces_alone_are_a_wildcard_without_a_name() {
    let mut router: Router<Handler> = Router::new();
    router.subscribe_route(Method::GET, "/p/{}", named);
    router.subscribe_route(Method::GET, "/q/{half", literal);
    let mut any = request("GET", "/p/z");
    assert_eq!(message(handle(&mut any, &router)), "200 =z");
    let mut same = request("GET", "/p/{}");
    assert_eq!(message(handle(&mut same, &router)), "200 ");
    let mut half = request("GET", "/q/{half");
    assert_eq!(message(handle(&mut half, &router)), "200 literal");
    let mut other = request("GET", "/q/x");
    assert_eq!(message(handle(&mut other, &router)), "404 N\u{e3}o encontrado.");
}

#[test]
fn slugs_captured_before_a_dead_end_stay() {
    let mut router: Router<Handler> = Router::new();
    router.subscribe_route(Method::GET, "/{a}/end", named);
    let mut asked = request("GET", "/x/nope");
    assert_eq!(message(handle(&mut asked, &router)), "404 N\u{e3}o encontrado.");
    assert_eq!(asked.slugs.get("a").unwrap(), "x");
}
