//! Tests for methods, statuses, responses, body classification, and the
//! error envelope.

use tusk_rs::json::JsonObject;
use tusk_rs::reqres::{BodyContents, HttpMethod, Response, ResponseStatusCode, RouteError};

fn body_text(bytes: &[u8]) -> String {
    String::from_utf8(bytes.to_vec()).unwrap()
}

#[test]
fn methods_parse_from_verbs() {
    assert_eq!(HttpMethod::type_for_method("GET"), HttpMethod::Get);
    assert_eq!(HttpMethod::type_for_method("POST"), HttpMethod::Post);
    assert_eq!(HttpMethod::type_for_method("PUT"), HttpMethod::Put);
    assert_eq!(HttpMethod::type_for_method("PATCH"), HttpMethod::Patch);
    assert_eq!(HttpMethod::type_for_method("DELETE"), HttpMethod::Delete);
    assert_eq!(HttpMethod::type_for_method("OPTIONS"), HttpMethod::Options);
    assert_eq!(HttpMethod::type_for_method("BREW"), HttpMethod::Any);
    assert!(HttpMethod::Any.is_any());
    assert!(!HttpMethod::Get.is_any());
}

#[test]
fn status_codes_and_reason_phrases() {
    assert_eq!(ResponseStatusCode::Okay.code(), 200);
    assert_eq!(ResponseStatusCode::NotFound.code(), 404);
    assert_eq!(ResponseStatusCode::InternalServerError.code(), 500);
    assert_eq!(ResponseStatusCode::ImATeapot.code(), 418);
    assert_eq!(ResponseStatusCode::Okay.http_string(), "200 OK");
    assert_eq!(ResponseStatusCode::NotFound.http_string(), "404 Not Found");
    assert_eq!(
        ResponseStatusCode::HttpVersionNotSupported.http_string(),
        "505 HTTP Version Not Supported"
    );
    assert_eq!(ResponseStatusCode::NotAcceptable.http_string(), "406 Not Acceptable");
}

#[test]
fn json_body_starting_with_brace_is_an_object() {
    let body = BodyContents::type_from_mime("application/json", b"{\"a\": 1}".to_vec());
    match body {
        BodyContents::JsonObject(o) => {
            let a: i32 = o.get("a").unwrap();
            assert_eq!(a, 1);
        }
        _ => panic!("expected a JSON object body"),
    }
}

#[test]
fn json_body_starting_with_bracket_is_an_array() {
    let body = BodyContents::type_from_mime("application/json", b"  [1, 2]".to_vec());
    match body {
        BodyContents::JsonArray(a) => {
            let xs: Vec<i32> = a.map().unwrap();
            assert_eq!(xs, vec![1, 2]);
        }
        _ => panic!("expected a JSON array body"),
    }
}

#[test]
fn urlencoded_body_decodes_pairs() {
    let body = BodyContents::type_from_mime(
        "application/x-www-form-urlencoded",
        b"a=1&b=2".to_vec(),
    );
    match body {
        BodyContents::UrlEncoded(u) => {
            let a: String = u.get("a").unwrap();
            let b: String = u.get("b").unwrap();
            assert_eq!(a, "1");
            assert_eq!(b, "2");
        }
        _ => panic!("expected a form body"),
    }
}

#[test]
fn plain_text_body_keeps_its_text() {
    let body = BodyContents::type_from_mime("text/plain", b"hello".to_vec());
    match body {
        BodyContents::PlainText(s) => assert_eq!(s, "hello"),
        _ => panic!("expected a text body"),
    }
}

#[test]
fn unknown_mime_keeps_raw_bytes() {
    let body = BodyContents::type_from_mime("application/octet-stream", vec![0, 159, 146, 150]);
    match body {
        BodyContents::Binary(b) => assert_eq!(b, vec![0, 159, 146, 150]),
        _ => panic!("expected raw bytes"),
    }
}

#[test]
fn invalid_utf8_json_body_falls_back_to_bytes() {
    let body = BodyContents::type_from_mime("application/json", vec![0xff, 0xfe]);
    match body {
        BodyContents::Binary(b) => assert_eq!(b, vec![0xff, 0xfe]),
        _ => panic!("expected raw bytes"),
    }
}

#[test]
fn body_accessors_reject_other_kinds() {
    let body = BodyContents::type_from_mime("text/plain", b"x".to_vec());
    let err = body.to_json_object().unwrap_err();
    assert_eq!(err.message, "Expected JSON object.");
    assert_eq!(err.status_code, ResponseStatusCode::BadRequest);
    let err2 = body.to_json_array().unwrap_err();
    assert_eq!(err2.message, "Expected JSON array.");
    let err3 = body.url_encoded().unwrap_err();
    assert_eq!(err3.message, "Expected URL encoded data.");
}

#[test]
fn not_found_error_envelope_carries_message() {
    let resp = RouteError::not_found("X").to_response();
    assert_eq!(resp.status, ResponseStatusCode::NotFound);
    let text = body_text(&resp.data);
    assert!(text.contains("\"message\":\"X\""));
    assert!(text.contains("\"code\":\"404\""));
}

#[test]
fn override_flag_sends_message_verbatim() {
    let mut e = RouteError::custom("raw words", ResponseStatusCode::Forbidden);
    e.override_output = true;
    let resp = e.to_response();
    assert_eq!(resp.status, ResponseStatusCode::Forbidden);
    assert_eq!(body_text(&resp.data), "raw words");
}

#[test]
fn error_constructors_pick_their_statuses() {
    assert_eq!(RouteError::bad_request("m").status_code, ResponseStatusCode::BadRequest);
    assert_eq!(RouteError::forbidden("m").status_code, ResponseStatusCode::Forbidden);
    assert_eq!(RouteError::not_found("m").status_code, ResponseStatusCode::NotFound);
    assert_eq!(RouteError::conflict("m").status_code, ResponseStatusCode::Conflict);
    assert_eq!(
        RouteError::server_error("m").status_code,
        ResponseStatusCode::InternalServerError
    );
}

#[test]
fn data_response_carries_auto_headers() {
    let resp = Response::data(b"abcde".to_vec());
    assert_eq!(resp.status, ResponseStatusCode::Okay);
    assert_eq!(resp.data, b"abcde".to_vec());
    let block = body_text(&resp.get_header_data());
    assert!(block.starts_with("HTTP/1.1 200 OK\r\n"));
    assert!(block.contains("Content-Length: 5"));
    assert!(block.contains("Connection: close"));
    assert!(block.contains("Date: "));
    assert!(block.ends_with("\r\n\r\n"));
}

#[test]
fn headers_render_sorted_by_key() {
    let resp = Response::new().header("Zulu", "1").header("Alpha", "2").header("Zulu", "3");
    let block = body_text(&resp.get_header_data());
    let alpha = block.find("Alpha: 2").unwrap();
    let zulu = block.find("Zulu: 3").unwrap();
    assert!(alpha < zulu);
    assert!(!block.contains("Zulu: 1"));
}

#[test]
fn header_fields_are_crlf_separated() {
    let resp = Response::new().header("Alpha", "1").header("Beta", "2");
    let block = body_text(&resp.get_header_data());
    assert_eq!(block, "HTTP/1.1 200 OK\r\nAlpha: 1\r\nBeta: 2\r\n\r\n");
}

#[test]
fn string_response_is_plain_text() {
    let resp = Response::string("404 not found").status(ResponseStatusCode::NotFound);
    assert_eq!(body_text(&resp.data), "404 not found");
    let block = body_text(&resp.get_header_data());
    assert!(block.starts_with("HTTP/1.1 404 Not Found"));
    assert!(block.contains("Content-Type: text/plain"));
}

#[test]
fn json_response_serializes_the_value() {
    let mut o = JsonObject::empty();
    o.set("a", 1i32);
    let resp = Response::json(&o);
    assert_eq!(body_text(&resp.data), "{\"a\":1}");
    let block = body_text(&resp.get_header_data());
    assert!(block.contains("Content-Type: application/json; charset=utf-8"));
}

#[test]
fn apply_cors_adds_the_three_headers() {
    let mut resp = Response::new();
    resp.apply_cors("*", "Content-Type");
    let block = body_text(&resp.get_header_data());
    assert!(block.contains("Access-Control-Allow-Origin: *"));
    assert!(block.contains("Access-Control-Allow-Headers: Content-Type"));
    assert!(block.contains("Access-Control-Allow-Methods: POST, PATCH, GET, OPTIONS, DELETE, PUT"));
}
