//! Tests for the request framer and the pure dispatch helpers.

use tusk_rs::framer::{
    attach_body, content_length, crlf_count_step, default_error_response, handler_reply,
    header_bytes_to_chars, parse_request_head, pool_failure_response, preflight_response,
    respond_bytes, route_error_from_json,
};
use tusk_rs::json::JsonParseError;
use tusk_rs::reqres::{BodyContents, HttpMethod, Response, ResponseStatusCode, RouteError};

fn text(bytes: &[u8]) -> String {
    String::from_utf8(bytes.to_vec()).unwrap()
}

#[test]
fn head_parses_method_path_query_headers() {
    let head = "GET /users/?a=1&b HTTP/1.1\r\nHost: example\r\nContent-Length: 5\r\n\r\n";
    let req = parse_request_head(head, "127.0.0.1");
    assert_eq!(req.request_type, HttpMethod::Get);
    assert_eq!(req.path, "/users");
    assert_eq!(req.query_value("a").unwrap(), "1");
    assert_eq!(req.query_value("b").unwrap(), "");
    assert_eq!(req.header_value("host").unwrap(), "example");
    assert_eq!(req.header_value("content-length").unwrap(), "5");
    assert_eq!(req.ip_address, "127.0.0.1");
    assert!(matches!(req.body, BodyContents::Empty));
}

#[test]
fn header_names_are_lower_cased() {
    let head = "POST /x HTTP/1.1\r\nX-Custom-Header: V\r\n\r\n";
    let req = parse_request_head(head, "");
    assert_eq!(req.header_value("x-custom-header").unwrap(), "V");
    assert!(req.header_value("X-Custom-Header").is_none());
}

#[test]
fn empty_head_degrades_to_defaults() {
    let req = parse_request_head("", "");
    assert_eq!(req.request_type, HttpMethod::Any);
    assert_eq!(req.path, "/");
    assert!(req.query.is_empty());
    assert!(req.headers.is_empty());
}

#[test]
fn content_length_reads_header_or_zero() {
    let req = parse_request_head("GET / HTTP/1.1\r\nContent-Length: 42\r\n\r\n", "");
    assert_eq!(content_length(&req), 42);
    let req2 = parse_request_head("GET / HTTP/1.1\r\n\r\n", "");
    assert_eq!(content_length(&req2), 0);
    let req3 = parse_request_head("GET / HTTP/1.1\r\nContent-Length: many\r\n\r\n", "");
    assert_eq!(content_length(&req3), 0);
}

#[test]
fn attach_body_classifies_by_content_type() {
    let mut req = parse_request_head(
        "POST /x HTTP/1.1\r\nContent-Type: application/json; charset=utf-8\r\n\r\n",
        "",
    );
    attach_body(&mut req, b"{\"k\": 3}".to_vec());
    match &req.body {
        BodyContents::JsonObject(o) => {
            let k: i32 = o.get("k").unwrap();
            assert_eq!(k, 3);
        }
        _ => panic!("expected a JSON object body"),
    }
}

#[test]
fn attach_body_without_content_type_keeps_bytes() {
    let mut req = parse_request_head("POST /x HTTP/1.1\r\n\r\n", "");
    attach_body(&mut req, vec![1, 2, 3]);
    match &req.body {
        BodyContents::Binary(b) => assert_eq!(b, &vec![1, 2, 3]),
        _ => panic!("expected raw bytes"),
    }
}

#[test]
fn crlf_counter_counts_line_breaks_and_resets() {
    let mut c = 0u32;
    for b in b"GET".iter() {
        c = crlf_count_step(c, *b);
    }
    assert_eq!(c, 0);
    c = crlf_count_step(c, 13);
    c = crlf_count_step(c, 10);
    c = crlf_count_step(c, 13);
    c = crlf_count_step(c, 10);
    assert_eq!(c, 4);
    assert_eq!(crlf_count_step(2, b'a'), 0);
}

#[test]
fn header_bytes_become_characters_one_for_one() {
    let chars = header_bytes_to_chars(&b"GET /\r\n".to_vec());
    let s: String = chars.into_iter().collect();
    assert_eq!(s, "GET /\r\n");
}

#[test]
fn respond_bytes_is_header_block_then_body() {
    let resp = Response::string("hi");
    let head = resp.get_header_data();
    let expected = [head.clone(), resp.data.clone()].concat();
    assert_eq!(respond_bytes(&resp), expected);
}

#[test]
fn preflight_carries_cors_headers_on_empty_body() {
    let resp = preflight_response("*", "Accept");
    assert!(resp.data.is_empty());
    assert_eq!(resp.status, ResponseStatusCode::Okay);
    let block = text(&resp.get_header_data());
    assert!(block.contains("Access-Control-Allow-Origin: *"));
    assert!(block.contains("Access-Control-Allow-Headers: Accept"));
}

#[test]
fn default_error_is_a_404_text_reply() {
    let resp = default_error_response();
    assert_eq!(resp.status, ResponseStatusCode::NotFound);
    assert_eq!(text(&resp.data), "404 not found");
}

#[test]
fn handler_reply_passes_success_and_wraps_errors() {
    let ok = handler_reply(Ok(Response::string("fine")));
    assert_eq!(text(&ok.data), "fine");
    let err = handler_reply(Err(RouteError::conflict("busy")));
    assert_eq!(err.status, ResponseStatusCode::Conflict);
    assert!(text(&err.data).contains("\"message\":\"busy\""));
}

#[test]
fn pool_failure_is_a_500_envelope() {
    let resp = pool_failure_response();
    assert_eq!(resp.status, ResponseStatusCode::InternalServerError);
    assert!(text(&resp.data).contains("Cannot connect to database."));
}

#[test]
fn json_errors_map_to_bad_request_messages() {
    let nf = route_error_from_json(JsonParseError::NotFound("age".to_string()));
    assert_eq!(nf.status_code, ResponseStatusCode::BadRequest);
    assert_eq!(nf.message, "Key age not found");
    let it = route_error_from_json(JsonParseError::InvalidType("age".to_string(), "i32"));
    assert_eq!(it.message, "Key age expected type i32");
}
