use custom_tcp_listener::response::{is_valid_utf8, write_response};
use custom_tcp_listener::{response_to_bytes, try_response_to_bytes, HttpResponse, HttpVersion, Test};
use std::sync::Arc;

#[test]
fn ok_response_bytes() {
    let r = HttpResponse {
        version: HttpVersion::Http11,
        status: 200,
        headers: vec![("content-type".to_string(), b"text/plain".to_vec())],
        body: b"hi".to_vec(),
    };
    assert_eq!(
        response_to_bytes(r),
        b"HTTP/1.1 200 OK\r\ncontent-type:text/plain\r\n\r\nhi".to_vec()
    );
}

#[test]
fn unknown_status_has_placeholder_reason() {
    let r = HttpResponse { version: HttpVersion::Http10, status: 599, headers: vec![], body: vec![] };
    assert_eq!(response_to_bytes(r), b"HTTP/1.0 599 <unknown status code>\r\n\r\n".to_vec());
}

#[test]
fn versions_are_written_as_http_writes_them() {
    assert_eq!(HttpVersion::Http09.as_str(), format!("{:?}", http::Version::HTTP_09));
    assert_eq!(HttpVersion::Http10.as_str(), format!("{:?}", http::Version::HTTP_10));
    assert_eq!(HttpVersion::Http11.as_str(), format!("{:?}", http::Version::HTTP_11));
    assert_eq!(HttpVersion::Http2.as_str(), format!("{:?}", http::Version::HTTP_2));
    assert_eq!(HttpVersion::Http3.as_str(), format!("{:?}", http::Version::HTTP_3));
}

#[test]
fn matches_http_status_display() {
    for code in [100u16, 204, 404, 418, 500, 999] {
        let r = HttpResponse { version: HttpVersion::Http2, status: code, headers: vec![], body: vec![] };
        let expected = format!("HTTP/2.0 {}\r\n\r\n", http::StatusCode::from_u16(code).unwrap());
        assert_eq!(response_to_bytes(r), expected.into_bytes());
    }
}

#[test]
fn headers_keep_their_order() {
    let r = HttpResponse {
        version: HttpVersion::Http11,
        status: 404,
        headers: vec![("b".to_string(), b"2".to_vec()), ("a".to_string(), b"1".to_vec())],
        body: "é".as_bytes().to_vec(),
    };
    let mut expected = b"HTTP/1.1 404 Not Found\r\nb:2\r\na:1\r\n\r\n".to_vec();
    expected.extend_from_slice("é".as_bytes());
    assert_eq!(response_to_bytes(r), expected);
}

#[test]
fn utf8_check() {
    assert!(is_valid_utf8(b"plain"));
    assert!(is_valid_utf8("é".as_bytes()));
    assert!(!is_valid_utf8(&[0xff]));
    assert!(!is_valid_utf8(&[0xc3]));
}

#[test]
fn decoration_holds_its_value() {
    let t = Test::new(Arc::new(5));
    assert!(format!("{:?}", t).contains('5'));
}

#[test]
fn try_response_refuses_what_cannot_be_text() {
    let ok = HttpResponse {
        version: HttpVersion::Http11,
        status: 201,
        headers: vec![("x".to_string(), b"a\tb".to_vec())],
        body: b"ok".to_vec(),
    };
    assert_eq!(try_response_to_bytes(ok), Some(b"HTTP/1.1 201 Created\r\nx:a\tb\r\n\r\nok".to_vec()));
    let bad_header = HttpResponse {
        version: HttpVersion::Http11,
        status: 200,
        headers: vec![("x".to_string(), vec![0x80])],
        body: vec![],
    };
    assert_eq!(try_response_to_bytes(bad_header), None);
    let bad_body = HttpResponse { version: HttpVersion::Http11, status: 200, headers: vec![], body: vec![0xff] };
    assert_eq!(try_response_to_bytes(bad_body), None);
}

#[test]
fn write_response_uses_given_reason() {
    let r = HttpResponse { version: HttpVersion::Http11, status: 200, headers: vec![], body: b"x".to_vec() };
    assert_eq!(
        write_response(r, "Fine"),
        b"HTTP/1.1 200 Fine\r\n\r\nx".to_vec()
    );
}
