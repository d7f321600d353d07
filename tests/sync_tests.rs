use access_controller::events::AccessEvent;
use access_controller::fob_list::{Etag, FobList};
use access_controller::sync::{
    apply_sync_response, build_request, events_body, extract_header, find_header_end, parse_content_length, parse_conway_response,
    parse_fob_list, parse_ipv4, parse_status_code, route_request, AdminRoute, SyncError,
    SyncResponse,
};
use access_controller::shared::Shared;
use access_controller::storage::Storage;
use access_controller::MAX_FOBS;

fn fobs(json: &str) -> Result<Vec<u32>, &'static str> {
    parse_fob_list(json).map(|l: FobList| l.as_slice().to_vec())
}

#[test]
fn test_parse_status_code_200() {
    let response = "HTTP/1.1 200 OK\r\nContent-Type: text/html\r\n\r\n";
    assert_eq!(parse_status_code(response), 200);
}

#[test]
fn test_parse_status_code_304() {
    assert_eq!(parse_status_code("HTTP/1.1 304 Not Modified\r\n\r\n"), 304);
}

#[test]
fn test_parse_status_code_404() {
    let response = "HTTP/1.1 404 Not Found\r\nContent-Type: text/plain\r\n\r\n";
    assert_eq!(parse_status_code(response), 404);
}

#[test]
fn test_parse_status_code_500() {
    assert_eq!(parse_status_code("HTTP/1.1 500 Internal Server Error\r\n\r\n"), 500);
}

#[test]
fn test_parse_status_code_http10() {
    assert_eq!(parse_status_code("HTTP/1.0 200 OK\r\n\r\n"), 200);
}

#[test]
fn test_parse_status_code_empty() {
    assert_eq!(parse_status_code(""), 0);
}

#[test]
fn test_parse_status_code_malformed() {
    assert_eq!(parse_status_code("HTTP/1.1\r\n"), 0);
    assert_eq!(parse_status_code("HTTP/1.1 ABC OK\r\n"), 0);
    assert_eq!(parse_status_code("garbage"), 0);
}

#[test]
fn test_parse_status_code_no_reason_phrase() {
    assert_eq!(parse_status_code("HTTP/1.1 200\r\n\r\n"), 200);
}

#[test]
fn test_parse_status_code_extra_spaces() {
    assert_eq!(parse_status_code("HTTP/1.1  200  OK\r\n\r\n"), 200);
}

#[test]
fn test_parse_status_code_with_body() {
    assert_eq!(parse_status_code("HTTP/1.1 200 OK\r\nContent-Length: 5\r\n\r\nhello"), 200);
}

#[test]
fn test_extract_header_simple() {
    let response = "HTTP/1.1 200 OK\r\nContent-Type: text/html\r\n\r\n";
    assert_eq!(extract_header(response, "Content-Type"), Some("text/html"));
}

#[test]
fn test_extract_header_case_insensitive() {
    let response = "HTTP/1.1 200 OK\r\nContent-Type: text/html\r\n\r\n";
    assert_eq!(extract_header(response, "content-type"), Some("text/html"));
    assert_eq!(extract_header(response, "CONTENT-TYPE"), Some("text/html"));
    assert_eq!(extract_header(response, "Content-type"), Some("text/html"));
}

#[test]
fn test_extract_header_etag() {
    let response = "HTTP/1.1 200 OK\r\nETag: \"abc123\"\r\n\r\n";
    assert_eq!(extract_header(response, "etag"), Some("\"abc123\""));
    assert_eq!(extract_header(response, "ETag"), Some("\"abc123\""));
}

#[test]
fn test_extract_header_with_spaces() {
    let response = "HTTP/1.1 200 OK\r\nX-Custom:   value with spaces   \r\n\r\n";
    assert_eq!(extract_header(response, "X-Custom"), Some("value with spaces"));
}

#[test]
fn test_extract_header_multiple_headers() {
    let response =
        "HTTP/1.1 200 OK\r\nContent-Type: text/html\r\nContent-Length: 100\r\nETag: \"xyz\"\r\n\r\n";
    assert_eq!(extract_header(response, "Content-Type"), Some("text/html"));
    assert_eq!(extract_header(response, "Content-Length"), Some("100"));
    assert_eq!(extract_header(response, "ETag"), Some("\"xyz\""));
}

#[test]
fn test_extract_header_not_found() {
    let response = "HTTP/1.1 200 OK\r\nContent-Type: text/html\r\n\r\n";
    assert_eq!(extract_header(response, "X-Not-Present"), None);
}

#[test]
fn test_extract_header_empty_value() {
    let response = "HTTP/1.1 200 OK\r\nX-Empty:\r\n\r\n";
    assert_eq!(extract_header(response, "X-Empty"), Some(""));
}

#[test]
fn test_extract_header_stops_at_body() {
    let response = "HTTP/1.1 200 OK\r\nContent-Type: text/html\r\n\r\nX-In-Body: value\r\n";
    assert_eq!(extract_header(response, "X-In-Body"), None);
}

#[test]
fn test_extract_header_colon_in_value() {
    let response = "HTTP/1.1 200 OK\r\nLocation: http://example.com:8080/path\r\n\r\n";
    assert_eq!(extract_header(response, "Location"), Some("http://example.com:8080/path"));
}

#[test]
fn test_extract_header_no_headers() {
    let response = "HTTP/1.1 200 OK\r\n\r\n";
    assert_eq!(extract_header(response, "Content-Type"), None);
}

#[test]
fn test_parse_ipv4_localhost() {
    assert_eq!(parse_ipv4("127.0.0.1"), Some([127, 0, 0, 1]));
}

#[test]
fn test_parse_ipv4_standard() {
    assert_eq!(parse_ipv4("192.168.1.100"), Some([192, 168, 1, 100]));
}

#[test]
fn test_parse_ipv4_zeros() {
    assert_eq!(parse_ipv4("0.0.0.0"), Some([0, 0, 0, 0]));
}

#[test]
fn test_parse_ipv4_max() {
    assert_eq!(parse_ipv4("255.255.255.255"), Some([255, 255, 255, 255]));
}

#[test]
fn test_parse_ipv4_too_few_octets() {
    assert_eq!(parse_ipv4("192.168.1"), None);
    assert_eq!(parse_ipv4("192.168"), None);
    assert_eq!(parse_ipv4("192"), None);
    assert_eq!(parse_ipv4(""), None);
}

#[test]
fn test_parse_ipv4_too_many_octets() {
    assert_eq!(parse_ipv4("192.168.1.1.1"), None);
}

#[test]
fn test_parse_ipv4_invalid_octet() {
    assert_eq!(parse_ipv4("192.168.1.256"), None);
    assert_eq!(parse_ipv4("192.168.1.abc"), None);
    assert_eq!(parse_ipv4("192.168.1.-1"), None);
}

#[test]
fn test_parse_ipv4_leading_zeros() {
    assert_eq!(parse_ipv4("192.168.001.001"), Some([192, 168, 1, 1]));
}

#[test]
fn test_parse_ipv4_empty_octet() {
    assert_eq!(parse_ipv4("192..1.1"), None);
    assert_eq!(parse_ipv4(".168.1.1"), None);
    assert_eq!(parse_ipv4("192.168.1."), None);
}

#[test]
fn test_parse_ipv4_whitespace() {
    assert_eq!(parse_ipv4(" 192.168.1.1"), None);
    assert_eq!(parse_ipv4("192.168.1.1 "), None);
    assert_eq!(parse_ipv4("192. 168.1.1"), None);
}

#[test]
fn test_parse_fob_list_empty() {
    assert_eq!(fobs("[]"), Ok(vec![]));
}

#[test]
fn test_parse_fob_list_single() {
    assert_eq!(fobs("[12345]"), Ok(vec![12345]));
}

#[test]
fn test_parse_fob_list_multiple() {
    assert_eq!(fobs("[100, 200, 300]"), Ok(vec![100, 200, 300]));
}

#[test]
fn test_parse_fob_list_no_spaces() {
    assert_eq!(fobs("[1,2,3,4,5]"), Ok(vec![1, 2, 3, 4, 5]));
}

#[test]
fn test_parse_fob_list_with_whitespace() {
    assert_eq!(fobs("  [  100  ,  200  ,  300  ]  "), Ok(vec![100, 200, 300]));
}

#[test]
fn test_parse_fob_list_newlines() {
    let json = "[\n  100,\n  200,\n  300\n]";
    assert_eq!(fobs(json), Ok(vec![100, 200, 300]));
}

#[test]
fn test_parse_fob_list_large_numbers() {
    assert_eq!(fobs("[0, 4294967295]"), Ok(vec![0, u32::MAX]));
}

#[test]
fn test_parse_fob_list_not_array_object() {
    assert_eq!(fobs("{}"), Err("not a JSON array"));
}

#[test]
fn test_parse_fob_list_not_array_string() {
    assert_eq!(fobs("\"hello\""), Err("not a JSON array"));
}

#[test]
fn test_parse_fob_list_not_array_number() {
    assert_eq!(fobs("123"), Err("not a JSON array"));
}

#[test]
fn test_parse_fob_list_malformed_missing_bracket() {
    assert_eq!(fobs("[1, 2, 3"), Err("not a JSON array"));
    assert_eq!(fobs("1, 2, 3]"), Err("not a JSON array"));
}

#[test]
fn test_parse_fob_list_ignores_non_numbers() {
    assert_eq!(fobs("[100, \"skip\", 200, null, 300]"), Ok(vec![100, 200, 300]));
}

#[test]
fn test_parse_fob_list_trailing_comma() {
    assert_eq!(fobs("[100, 200, 300,]"), Ok(vec![100, 200, 300]));
}

#[test]
fn test_parse_fob_list_empty_parts() {
    assert_eq!(fobs("[100,,200]"), Ok(vec![100, 200]));
}

#[test]
fn test_parse_fob_list_max_capacity() {
    let items: Vec<String> = (0..MAX_FOBS + 10).map(|i| i.to_string()).collect();
    let json = format!("[{}]", items.join(","));
    let result = fobs(&json).unwrap();
    assert_eq!(result.len(), MAX_FOBS);
}

#[test]
fn test_parse_fob_list_real_server_response() {
    let json = "[10012345, 10098765, 25500001, 4509876]";
    assert_eq!(fobs(json).unwrap(), vec![10012345, 10098765, 25500001, 4509876]);
}

#[test]
fn test_full_http_response_parsing() {
    let response = "HTTP/1.1 200 OK\r\n\
                    Content-Type: application/json\r\n\
                    ETag: \"v1-abc123\"\r\n\
                    Content-Length: 25\r\n\
                    \r\n\
                    [10012345, 10098765, 100]";
    assert_eq!(parse_status_code(response), 200);
    assert_eq!(extract_header(response, "Content-Type"), Some("application/json"));
    assert_eq!(extract_header(response, "ETag"), Some("\"v1-abc123\""));
    assert_eq!(extract_header(response, "Content-Length"), Some("25"));
    let body_start = response.find("\r\n\r\n").map(|i| i + 4).unwrap();
    let body = &response[body_start..];
    assert_eq!(fobs(body).unwrap(), vec![10012345, 10098765, 100]);
}

#[test]
fn test_304_response_parsing() {
    let response = "HTTP/1.1 304 Not Modified\r\n\
                    ETag: \"v1-abc123\"\r\n\
                    \r\n";
    assert_eq!(parse_status_code(response), 304);
    assert_eq!(extract_header(response, "ETag"), Some("\"v1-abc123\""));
    let body_start = response.find("\r\n\r\n").map(|i| i + 4).unwrap();
    let body = &response[body_start..];
    assert!(body.is_empty() || body.trim().is_empty());
}

#[test]
fn test_error_response_parsing() {
    let response = "HTTP/1.1 500 Internal Server Error\r\n\
                    Content-Type: text/plain\r\n\
                    \r\n\
                    Something went wrong";
    assert_eq!(parse_status_code(response), 500);
    assert_eq!(extract_header(response, "Content-Type"), Some("text/plain"));
}

#[test]
fn header_end_and_content_length() {
    let response = b"HTTP/1.1 200 OK\r\nContent-Length: 12\r\n\r\n[1, 2, 3, 4]";
    let end = find_header_end(response).unwrap();
    assert_eq!(end, 35);
    assert_eq!(parse_content_length(&response[..end]), Some(12));
    assert_eq!(parse_content_length(b"HTTP/1.1 200 OK\r\nCONTENT-LENGTH:  7 "), Some(7));
    assert_eq!(parse_content_length(b"HTTP/1.1 200 OK\r\nContent-Type: x"), None);
    assert_eq!(parse_content_length(b"Content-Length: abc\r\nContent-Length: 5"), None);
    assert_eq!(find_header_end(b"HTTP/1.1 200 OK\r\n"), None);
}

#[test]
fn conway_200_updates_list_and_etag() {
    let mut etag = Etag::from_str("old");
    let resp = b"HTTP/1.1 200 OK\r\nETag: \"v2\"\r\nContent-Length: 9\r\n\r\n[100,200]";
    match parse_conway_response(resp, &mut etag) {
        Ok(SyncResponse::Fobs(l)) => assert_eq!(l.as_slice(), &[100, 200]),
        _ => panic!("expected a list"),
    }
    assert_eq!(etag.as_str(), "\"v2\"");
}

#[test]
fn conway_304_keeps_etag() {
    let mut etag = Etag::from_str("old");
    let resp = b"HTTP/1.1 304 Not Modified\r\nETag: \"v3\"\r\n\r\n";
    assert!(matches!(parse_conway_response(resp, &mut etag), Ok(SyncResponse::NotModified)));
    assert_eq!(etag.as_str(), "old");
}

#[test]
fn conway_errors() {
    let mut etag = Etag::from_str("old");
    let cases: [(&[u8], SyncError); 5] = [
        (b"HTTP/1.1 200 OK\r\n", SyncError::Malformed),
        (b"\r\n\r\n", SyncError::NoStatusLine),
        (b"HTTP/1.1 abc\r\n\r\n", SyncError::BadStatusCode),
        (b"HTTP/1.1 500 Oops\r\n\r\n", SyncError::UnexpectedStatus),
        (b"HTTP/1.1 200 OK\r\n\r\n{}", SyncError::NotAnArray),
    ];
    for (resp, err) in cases {
        match parse_conway_response(resp, &mut etag) {
            Err(e) => assert_eq!(e, err),
            Ok(_) => panic!("expected an error"),
        }
    }
    assert_eq!(etag.as_str(), "old");
    let bad_header: &[u8] = b"HTTP/1.1 200 \xFF\r\n\r\n[]";
    assert!(matches!(parse_conway_response(bad_header, &mut etag), Err(SyncError::BadHeaderEncoding)));
    let bad_body: &[u8] = b"HTTP/1.1 200 OK\r\nETag: e1\r\n\r\n[\xFF]";
    assert!(matches!(parse_conway_response(bad_body, &mut etag), Err(SyncError::BadBodyEncoding)));
    assert_eq!(etag.as_str(), "old");
    let not_array: &[u8] = b"HTTP/1.1 200 OK\r\nETag: e2\r\n\r\n{}";
    assert!(matches!(parse_conway_response(not_array, &mut etag), Err(SyncError::NotAnArray)));
    assert_eq!(etag.as_str(), "old");
    assert_eq!(SyncError::NotAnArray.message(), "not a JSON array");
}

#[test]
fn admin_routes() {
    assert_eq!(route_request(b"POST /unlock HTTP/1.1\r\n\r\n"), Some(AdminRoute::Unlock));
    assert_eq!(route_request(b"GET / HTTP/1.1\r\nHost: x\r\n\r\n"), Some(AdminRoute::Index));
    assert_eq!(route_request(b"GET"), Some(AdminRoute::Index));
    assert_eq!(route_request(b"GET /status HTTP/1.1\r\n"), Some(AdminRoute::NotFound));
    assert_eq!(route_request(b"post /unlock HTTP/1.1\r\n"), Some(AdminRoute::NotFound));
    assert_eq!(route_request(b""), Some(AdminRoute::NotFound));
    assert_eq!(route_request(b"GET /\xFF"), None);
}

#[test]
fn event_body_is_a_json_array() {
    use_body(&[], "[]");
    use_body(
        &[AccessEvent { fob: 4509876, allowed: true }, AccessEvent { fob: 0, allowed: false }],
        "[{\"fob\":4509876,\"allowed\":true},{\"fob\":0,\"allowed\":false}]",
    );
    use_body(&[AccessEvent { fob: u32::MAX, allowed: false }], "[{\"fob\":4294967295,\"allowed\":false}]");
}

fn use_body(events: &[AccessEvent], expected: &str) {
    assert_eq!(String::from_utf8(events_body(events)).unwrap(), expected);
}

#[test]
fn unicode_whitespace_is_trimmed_like_str_trim() {
    assert_eq!(fobs("\u{a0}[1,\u{2003}2\u{85}]\u{3000}"), Ok(vec![1, 2]));
    assert_eq!(parse_status_code("HTTP/1.1\u{2009}204\u{a0}No Content\r\n"), 204);
    let response = "HTTP/1.1 200 OK\r\nETag:\u{a0}\"v9\"\u{202f}\r\n\r\n";
    assert_eq!(extract_header(response, "ETag"), Some("\"v9\""));
    assert_eq!(fobs("[\u{200b}1]"), Ok(vec![]));
}

#[test]
fn applying_replies_updates_cache_storage_and_events() {
    let shared = Shared::new();
    let empty = vec![0xFFu8; 64];
    let mut storage = Storage::new(&empty, &empty);
    shared.push_event(11, false);
    let mut out = [AccessEvent::default(); 20];
    let (count, tail) = shared.peek_events(&mut out);
    assert_eq!(count, 1);

    let mut etag = Etag::from_str("old");
    let err = parse_conway_response(b"HTTP/1.1 500 Oops\r\n\r\n", &mut etag);
    assert!(!apply_sync_response(&shared, &mut storage, &err, &etag, count, tail));
    assert_eq!(shared.peek_events(&mut out).0, 1);
    assert!(storage.flush(&empty, &empty).is_none());

    let ok = parse_conway_response(b"HTTP/1.1 200 OK\r\nETag: t2\r\n\r\n[5, 6]", &mut etag);
    assert!(apply_sync_response(&shared, &mut storage, &ok, &etag, count, tail));
    assert!(shared.check_fob(5));
    assert_eq!(storage.load_fobs().as_slice(), &[5, 6]);
    assert_eq!(storage.load_etag().as_str(), "t2");
    assert_eq!(shared.peek_events(&mut out).0, 0);
    assert!(storage.flush(&empty, &empty).is_some());

    shared.push_event(12, true);
    let (count, tail) = shared.peek_events(&mut out);
    let nm = parse_conway_response(b"HTTP/1.1 304 Not Modified\r\n\r\n", &mut etag);
    assert!(apply_sync_response(&shared, &mut storage, &nm, &etag, count, tail));
    assert_eq!(shared.peek_events(&mut out).0, 0);
    assert_eq!(storage.load_fobs().as_slice(), &[5, 6]);
}

#[test]
fn request_text() {
    let etag = Etag::from_str("\"v1\"");
    let req = build_request("10.0.0.2", &etag, b"[]");
    assert_eq!(
        String::from_utf8(req).unwrap(),
        "POST /api/fobs HTTP/1.1\r\nHost: 10.0.0.2\r\nContent-Type: application/json\r\nContent-Length: 2\r\nIf-None-Match: \"v1\"\r\nConnection: close\r\n\r\n[]"
    );
}
