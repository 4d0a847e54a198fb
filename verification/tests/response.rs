use direct_http::{raw, Response};

const HEAD: &str = "\r\nAccess-Control-Allow-Headers: Content-Type, Authorization\r\nAccess-Control-Allow-Methods: GET, POST, PUT, DELETE\r\nAccess-Control-Allow-Origin: *\r\nContent-Type: application/json\r\nContent-Length: ";

#[test]
fn raw_frames_the_body() {
    assert_eq!(raw(404, "not found"), format!("HTTP/1.1 404{}9\r\n\r\nnot found", HEAD));
    assert_eq!(raw(200, ""), format!("HTTP/1.1 200{}0\r\n\r\n", HEAD));
    assert_eq!(raw(0, "x"), format!("HTTP/1.1 0{}1\r\n\r\nx", HEAD));
    assert_eq!(raw(-7, "x"), format!("HTTP/1.1 -7{}1\r\n\r\nx", HEAD));
    assert_eq!(raw(i32::MAX, "x"), format!("HTTP/1.1 2147483647{}1\r\n\r\nx", HEAD));
    assert_eq!(raw(i32::MIN, "x"), format!("HTTP/1.1 -2147483648{}1\r\n\r\nx", HEAD));
}

#[test]
fn content_length_counts_bytes() {
    let body = "n\u{e3}o \u{1f600}";
    assert_eq!(raw(200, body), format!("HTTP/1.1 200{}9\r\n\r\n{}", HEAD, body));
    let long = "x".repeat(1234);
    assert_eq!(raw(200, &long), format!("HTTP/1.1 200{}1234\r\n\r\n{}", HEAD, long));
}

#[test]
fn body_is_an_object_of_three_members() {
    assert_eq!(Response::status(204).body(), "{\"status\":204,\"message\":null,\"data\":null}");
    assert_eq!(
        Response::status(200).message("fine").body(),
        "{\"status\":200,\"message\":\"fine\",\"data\":null}"
    );
}

#[test]
fn message_is_written_as_a_json_string() {
    assert_eq!(
        Response::status(200).message("say \"hi\"\n\\ \u{1}").body(),
        "{\"status\":200,\"message\":\"say \\\"hi\\\"\\n\\\\ \\u0001\",\"data\":null}"
    );
}

#[test]
fn data_is_written_as_compact_json() {
    let mut object = serde_json::Map::new();
    object.insert("id".to_string(), serde_json::Value::from(7));
    object.insert("tags".to_string(), serde_json::Value::from(vec!["a", "b"]));
    let response = Response::status(200).message("ok").data(Ok(serde_json::Value::Object(object)));
    assert_eq!(
        response.body(),
        "{\"status\":200,\"message\":\"ok\",\"data\":{\"id\":7,\"tags\":[\"a\",\"b\"]}}"
    );
    let response = Response::status(201).data(serde_json::to_value("text"));
    assert_eq!(response.body(), "{\"status\":201,\"message\":null,\"data\":\"text\"}");
}

#[test]
fn data_that_failed_to_encode_is_an_internal_error() {
    let failed = serde_json::from_str::<serde_json::Value>("{");
    assert!(failed.is_err());
    let response = Response::status(200).message("ok").data(failed);
    assert_eq!(
        response.body(),
        "{\"status\":500,\"message\":\"Erro interno. Falha ao codificar resposta.\",\"data\":null}"
    );
}

#[test]
fn message_drops_the_data_set_before() {
    let response = Response::status(200).data(Ok(serde_json::Value::from(1))).message("later");
    assert_eq!(response.body(), "{\"status\":200,\"message\":\"later\",\"data\":null}");
}

#[test]
fn finish_frames_the_body_with_the_status() {
    let response = Response::status(404).message("N\u{e3}o encontrado.");
    let body = "{\"status\":404,\"message\":\"N\u{e3}o encontrado.\",\"data\":null}";
    assert_eq!(response.finish(), format!("HTTP/1.1 404{}{}\r\n\r\n{}", HEAD, body.len(), body));
}

#[test]
fn fixed_responses() {
    assert_eq!(Response::ok().body(), "{\"status\":200,\"message\":null,\"data\":null}");
    assert_eq!(Response::not_found().body(), "{\"status\":404,\"message\":null,\"data\":null}");
    assert_eq!(Response::not_authorized().body(), "{\"status\":403,\"message\":null,\"data\":null}");
    assert_eq!(
        Response::internal_error().body(),
        "{\"status\":500,\"message\":\"Erro interno, algo deu errado.\",\"data\":null}"
    );
    assert_eq!(
        Response::not_logged_in().body(),
        "{\"status\":401,\"message\":\"Voc\u{ea} n\u{e3}o est\u{e1} autenticado.\",\"data\":null}"
    );
}
