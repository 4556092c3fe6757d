use rest_router::response::{
    into_http_response, method_disallowed, AwsRestJson1, AwsRestXml, IntoResponse, ResponseParts,
    RuntimeErrorExtension, MAX_HEADER_NAME_LEN, SURE_HEADERS, UNKNOWN_OPERATION_EXCEPTION,
};
use rest_router::rest::Error;

fn header(name: &str, value: &str) -> (String, String) {
    (name.to_string(), value.to_string())
}

#[test]
fn not_found_in_rest_json() {
    let parts = IntoResponse::<AwsRestJson1>::into_response(Error::NotFound);
    assert_eq!(parts.status, 404);
    assert_eq!(
        parts.headers,
        vec![
            header("content-type", "application/json"),
            header("X-Amzn-Errortype", "UnknownOperationException"),
        ]
    );
    assert_eq!(parts.extension.map(|e| e.0), Some("UnknownOperationException".to_string()));
    assert_eq!(parts.body, "{}");
}

#[test]
fn not_found_in_rest_xml() {
    let parts = IntoResponse::<AwsRestXml>::into_response(Error::NotFound);
    assert_eq!(parts.status, 404);
    assert_eq!(parts.headers, vec![header("content-type", "application/xml")]);
    assert_eq!(parts.extension.map(|e| e.0), Some("UnknownOperationException".to_string()));
    assert_eq!(parts.body, "");
}

#[test]
fn method_not_allowed_is_the_same_in_both_protocols() {
    let json = IntoResponse::<AwsRestJson1>::into_response(Error::MethodNotAllowed);
    let xml = IntoResponse::<AwsRestXml>::into_response(Error::MethodNotAllowed);
    for parts in [json, xml, method_disallowed()] {
        assert_eq!(parts.status, 405);
        assert!(parts.headers.is_empty());
        assert!(parts.extension.is_none());
        assert_eq!(parts.body, "");
    }
}

#[test]
fn unknown_operation_name() {
    assert_eq!(UNKNOWN_OPERATION_EXCEPTION, "UnknownOperationException");
}

#[test]
fn error_messages() {
    assert_eq!(Error::NotFound.message(), "operation not found");
    assert_eq!(Error::MethodNotAllowed.message(), "method was not allowed");
}

#[test]
fn not_found_json_as_http_response() {
    let response = IntoResponse::<AwsRestJson1>::into_response(Error::NotFound).into_http().unwrap();
    assert_eq!(response.status(), http::StatusCode::NOT_FOUND);
    assert_eq!(response.headers().len(), 2);
    assert_eq!(response.headers().get(http::header::CONTENT_TYPE).unwrap(), "application/json");
    assert_eq!(response.headers().get("X-Amzn-Errortype").unwrap(), "UnknownOperationException");
    let kind = response.extensions().get::<RuntimeErrorExtension>().unwrap();
    assert_eq!(kind.0, "UnknownOperationException");
    assert_eq!(response.body(), "{}");
}

#[test]
fn not_found_xml_as_http_response() {
    let response = IntoResponse::<AwsRestXml>::into_response(Error::NotFound).into_http().unwrap();
    assert_eq!(response.status(), http::StatusCode::NOT_FOUND);
    assert_eq!(response.headers().len(), 1);
    assert_eq!(response.headers().get(http::header::CONTENT_TYPE).unwrap(), "application/xml");
    let kind = response.extensions().get::<RuntimeErrorExtension>().unwrap();
    assert_eq!(kind.0, "UnknownOperationException");
    assert_eq!(response.body(), "");
}

#[test]
fn method_not_allowed_as_http_response() {
    let response = method_disallowed().into_http().unwrap();
    assert_eq!(response.status(), http::StatusCode::METHOD_NOT_ALLOWED);
    assert!(response.headers().is_empty());
    assert!(response.extensions().get::<RuntimeErrorExtension>().is_none());
    assert_eq!(response.body(), "");
}

#[test]
fn headers_are_appended_in_order() {
    let parts = ResponseParts {
        status: 200,
        headers: vec![header("set-cookie", "a=1"), header("set-cookie", "b=2")],
        extension: None,
        body: "ok".to_string(),
    };
    let response = parts.into_http().unwrap();
    let cookies: Vec<&str> =
        response.headers().get_all("set-cookie").iter().map(|v| v.to_str().unwrap()).collect();
    assert_eq!(cookies, vec!["a=1", "b=2"]);
    assert_eq!(response.body(), "ok");
}

#[test]
fn http_refuses_a_status_out_of_range() {
    let parts = ResponseParts { status: 42, headers: vec![], extension: None, body: String::new() };
    let refused = parts.into_http().unwrap_err();
    assert!(!refused.reason.is_empty());
}

#[test]
fn http_refuses_a_malformed_header() {
    let name = ResponseParts {
        status: 200,
        headers: vec![header("bad name", "v")],
        extension: None,
        body: String::new(),
    };
    assert!(name.into_http().is_err());
    let value = ResponseParts {
        status: 200,
        headers: vec![header("x-ok", "line\nbreak")],
        extension: None,
        body: String::new(),
    };
    assert!(value.into_http().is_err());
}

#[test]
fn runtime_error_extension_holds_its_value() {
    assert_eq!(RuntimeErrorExtension::new("Kind".to_string()).0, "Kind");
}

fn bare(status: u16) -> ResponseParts {
    ResponseParts { status, headers: vec![], extension: None, body: String::new() }
}

fn with_one_header(name: &str, value: &str) -> ResponseParts {
    ResponseParts { status: 200, headers: vec![header(name, value)], extension: None, body: String::new() }
}

#[test]
fn status_codes_are_the_numbers_of_three_digits() {
    assert!(bare(0).into_http().is_err());
    assert!(bare(99).into_http().is_err());
    assert_eq!(bare(100).into_http().unwrap().status().as_u16(), 100);
    assert_eq!(bare(405).into_http().unwrap().status().as_u16(), 405);
    assert_eq!(bare(999).into_http().unwrap().status().as_u16(), 999);
    assert!(bare(1000).into_http().is_err());
    assert!(bare(u16::MAX).into_http().is_err());
}

#[test]
fn header_values_hold_tabs_and_bytes_from_the_space_on_but_delete() {
    assert!(with_one_header("x-a", "").into_http().is_ok());
    assert!(with_one_header("x-a", " ~").into_http().is_ok());
    assert!(with_one_header("x-a", "a\tb").into_http().is_ok());
    assert!(with_one_header("x-a", "caf\u{e9}").into_http().is_ok());
    assert!(with_one_header("x-a", "a\u{7f}b").into_http().is_err());
    assert!(with_one_header("x-a", "a\u{1f}b").into_http().is_err());
    assert!(with_one_header("x-a", "a\rb").into_http().is_err());
    assert!(with_one_header("x-a", "\0").into_http().is_err());
}

#[test]
fn header_names_are_checked_by_http() {
    assert!(with_one_header("x-custom_name.1", "v").into_http().is_ok());
    assert!(with_one_header("", "v").into_http().is_err());
    assert!(with_one_header("caf\u{e9}", "v").into_http().is_err());
    assert!(with_one_header("a:b", "v").into_http().is_err());
}

#[test]
fn the_first_refusal_is_reported() {
    let parts = ResponseParts {
        status: 42,
        headers: vec![header("bad name", "v")],
        extension: None,
        body: String::new(),
    };
    assert_eq!(parts.into_http().unwrap_err().reason, "invalid status code");
    let parts = ResponseParts {
        status: 200,
        headers: vec![header("x-ok", "fine"), header("bad name", "line\nbreak")],
        extension: None,
        body: String::new(),
    };
    assert_eq!(parts.into_http().unwrap_err().reason, "invalid HTTP header name");
    assert_eq!(
        with_one_header("x-ok", "line\nbreak").into_http().unwrap_err().reason,
        "failed to parse header value"
    );
}

#[test]
fn header_names_are_put_in_lower_case() {
    let response = with_one_header("X-Amzn-Errortype", "Kind").into_http().unwrap();
    let names: Vec<&str> = response.headers().keys().map(|name| name.as_str()).collect();
    assert_eq!(names, vec!["x-amzn-errortype"]);
}

#[test]
fn header_name_bytes_are_letters_digits_and_sixteen_marks() {
    let marks = "!\"#$%&'*+-.^_`|~";
    assert_eq!(marks.len(), 16);
    for code in 0u8..128 {
        let c = code as char;
        let expected = c.is_ascii_alphanumeric() || marks.contains(c);
        let name = c.to_string();
        assert_eq!(with_one_header(&name, "v").into_http().is_ok(), expected, "byte {code}");
        // the same holds of a byte in a name too long for http's scratch buffer
        let long = format!("{}{}", "a".repeat(70), c);
        assert_eq!(with_one_header(&long, "v").into_http().is_ok(), expected, "byte {code}");
    }
}

#[test]
fn header_names_have_a_longest_length() {
    assert_eq!(MAX_HEADER_NAME_LEN, 65535);
    assert!(with_one_header(&"a".repeat(64), "v").into_http().is_ok());
    assert!(with_one_header(&"a".repeat(65), "v").into_http().is_ok());
    assert!(with_one_header(&"a".repeat(65535), "v").into_http().is_ok());
    assert!(with_one_header(&"a".repeat(65536), "v").into_http().is_err());
}

#[test]
fn values_are_kept_per_name_in_the_order_appended() {
    let parts = ResponseParts {
        status: 200,
        headers: vec![header("Via", "1"), header("x-b", "2"), header("via", "3"), header("VIA", "caf\u{e9}")],
        extension: None,
        body: String::new(),
    };
    let response = parts.into_http().unwrap();
    assert_eq!(response.headers().len(), 4);
    let via: Vec<&[u8]> = response.headers().get_all("via").iter().map(|v| v.as_bytes()).collect();
    assert_eq!(via, vec![&b"1"[..], &b"3"[..], "caf\u{e9}".as_bytes()]);
    let b: Vec<&[u8]> = response.headers().get_all("x-b").iter().map(|v| v.as_bytes()).collect();
    assert_eq!(b, vec![&b"2"[..]]);
    assert_eq!(response.headers().get_all("x-c").iter().count(), 0);
}

#[test]
fn a_response_of_few_headers_always_converts() {
    assert_eq!(SURE_HEADERS, 1024);
    let mut headers = Vec::new();
    for i in 0..SURE_HEADERS {
        headers.push(header(&format!("x-header-{i}"), "v"));
    }
    let parts = ResponseParts { status: 200, headers, extension: None, body: String::new() };
    let response = parts.into_http().unwrap();
    assert_eq!(response.headers().len(), SURE_HEADERS);
    let same: Vec<(String, String)> = (0..SURE_HEADERS).map(|i| header("x-same", &format!("{i}"))).collect();
    let parts = ResponseParts { status: 200, headers: same, extension: None, body: String::new() };
    let response = parts.into_http().unwrap();
    assert_eq!(response.headers().get_all("x-same").iter().count(), SURE_HEADERS);
}

#[test]
fn http_refuses_more_names_than_its_map_takes() {
    let mut headers = Vec::new();
    for i in 0..32769 {
        headers.push(header(&format!("x-header-{i}"), "v"));
    }
    let parts = ResponseParts { status: 200, headers, extension: None, body: String::new() };
    assert_eq!(parts.into_http().unwrap_err().reason, "max size reached");
}

#[test]
fn routing_errors_render_as_http_responses() {
    let json = into_http_response::<AwsRestJson1, _>(Error::NotFound);
    assert_eq!(json.status().as_u16(), 404);
    assert_eq!(json.headers().get("content-type").unwrap(), "application/json");
    assert_eq!(json.headers().get("x-amzn-errortype").unwrap(), "UnknownOperationException");
    assert_eq!(json.extensions().get::<RuntimeErrorExtension>().unwrap().0, "UnknownOperationException");
    assert_eq!(json.body(), "{}");
    let xml = into_http_response::<AwsRestXml, _>(Error::NotFound);
    assert_eq!(xml.status().as_u16(), 404);
    assert_eq!(xml.headers().len(), 1);
    assert_eq!(xml.headers().get("content-type").unwrap(), "application/xml");
    assert_eq!(xml.extensions().get::<RuntimeErrorExtension>().unwrap().0, "UnknownOperationException");
    assert_eq!(xml.body(), "");
    let not_allowed = into_http_response::<AwsRestJson1, _>(Error::MethodNotAllowed);
    assert_eq!(not_allowed.status().as_u16(), 405);
    assert!(not_allowed.headers().is_empty());
    assert!(not_allowed.extensions().get::<RuntimeErrorExtension>().is_none());
    assert_eq!(not_allowed.body(), "");
    let not_allowed = into_http_response::<AwsRestXml, _>(Error::MethodNotAllowed);
    assert_eq!(not_allowed.status().as_u16(), 405);
}
