use custom_tcp_listener::request::{
    build_header_map, content_length, extract_body, keep_last_pairs, parameters_from_captures,
    parse_request_head, parse_usize_bytes, HeaderField,
};
use custom_tcp_listener::{get, post, Resolution, Router};

fn router() -> Router<&'static str> {
    let r = Router::new();
    let r = match r.route("/*".to_string(), get("any")) {
        Ok(r) => r,
        Err(_) => panic!(),
    };
    let r = match r.route("/users/:id:/posts/:post:".to_string(), get("post")) {
        Ok(r) => r,
        Err(_) => panic!(),
    };
    match r.route("/upload".to_string(), post("upload")) {
        Ok(r) => r,
        Err(_) => panic!(),
    }
}

fn buffer(bytes: &[u8]) -> Vec<u8> {
    let mut b = bytes.to_vec();
    b.resize(1024, 0);
    b
}

#[test]
fn request_is_routed_with_parameters() {
    let r = router();
    let buf = buffer(b"GET /users/42/posts/7 HTTP/1.1\r\nHost: example.com\r\n\r\n");
    match r.route_request(&buf) {
        Resolution::Found(route, req) => {
            assert_eq!(route.handler, "post");
            assert_eq!(req.method, "GET");
            assert_eq!(req.path, "/users/42/posts/7");
            assert!(req.body.is_empty());
            assert_eq!(
                req.parameters,
                vec![("id".to_string(), "42".to_string()), ("post".to_string(), "7".to_string())]
            );
            assert_eq!(req.headers.get("host").unwrap(), "example.com");
            assert_eq!(req.headers.len(), 1);
        }
        _ => panic!("expected a route"),
    }
}

#[test]
fn body_is_cut_to_content_length() {
    let r = router();
    let buf = buffer(b"POST /upload HTTP/1.1\r\nContent-Length: 5\r\nX-A: 1\r\n\r\nhello world");
    match r.route_request(&buf) {
        Resolution::Found(route, req) => {
            assert_eq!(route.handler, "upload");
            assert_eq!(req.body, b"hello".to_vec());
            assert_eq!(req.headers.get("content-length").unwrap(), "5");
            assert_eq!(req.headers.get("x-a").unwrap(), "1");
            assert!(req.parameters.is_empty());
        }
        _ => panic!("expected a route"),
    }
}

#[test]
fn later_header_replaces_earlier() {
    let r = router();
    let buf = buffer(b"GET /x HTTP/1.1\r\nX-A: 1\r\nx-a: 2\r\n\r\n");
    match r.route_request(&buf) {
        Resolution::Found(route, req) => {
            assert_eq!(route.handler, "any");
            assert_eq!(req.headers.get_all("x-a").iter().count(), 1);
            assert_eq!(req.headers.get("x-a").unwrap(), "2");
        }
        _ => panic!("expected a route"),
    }
}

#[test]
fn unknown_method_is_not_found() {
    let r = router();
    let buf = buffer(b"BREW /x HTTP/1.1\r\n\r\n");
    assert!(matches!(r.route_request(&buf), Resolution::NotFound));
}

#[test]
fn method_without_route_is_not_found() {
    let r = router();
    let buf = buffer(b"POST /x HTTP/1.1\r\n\r\n");
    assert!(matches!(r.route_request(&buf), Resolution::NotFound));
}

#[test]
fn oversized_content_length_is_malformed() {
    let r = router();
    let buf = buffer(b"POST /upload HTTP/1.1\r\nContent-Length: 5000\r\n\r\n");
    assert!(matches!(r.route_request(&buf), Resolution::Malformed));
}

#[test]
fn garbage_is_malformed() {
    let r = router();
    let buf = buffer(b"\x01\x02 nonsense");
    assert!(matches!(r.route_request(&buf), Resolution::Malformed));
}

#[test]
fn incomplete_head_is_malformed() {
    let r = router();
    let buf = b"GET /x HTTP/1.1\r\nHost: a\r\n".to_vec();
    assert!(matches!(r.route_request(&buf), Resolution::Malformed));
}

#[test]
fn content_length_reads_first_exact_header() {
    let h = |n: &str, v: &[u8]| HeaderField { name: n.to_string(), value: v.to_vec() };
    assert_eq!(content_length(&vec![h("Host", b"a"), h("Content-Length", b"12")]), 12);
    assert_eq!(content_length(&vec![h("content-length", b"12")]), 0);
    assert_eq!(content_length(&vec![h("Content-Length", b"x"), h("Content-Length", b"3")]), 0);
    assert_eq!(content_length(&vec![]), 0);
}

#[test]
fn decimal_parsing_follows_usize_from_str() {
    let p = |s: &[u8]| parse_usize_bytes(&s.to_vec());
    assert_eq!(p(b"0"), Some(0));
    assert_eq!(p(b"+17"), Some(17));
    assert_eq!(p(b"007"), Some(7));
    assert_eq!(p(b""), None);
    assert_eq!(p(b"+"), None);
    assert_eq!(p(b"-1"), None);
    assert_eq!(p(b" 1"), None);
    assert_eq!(p(b"18446744073709551615"), Some(usize::MAX));
    assert_eq!(p(b"18446744073709551616"), None);
    for n in [0usize, 1, 9, 10, 12345, usize::MAX] {
        assert_eq!(p(n.to_string().as_bytes()), n.to_string().parse::<usize>().ok());
    }
}

#[test]
fn parameters_keep_the_last_match_of_each_name() {
    let names = vec!["a".to_string(), "b".to_string()];
    let caps = vec![
        vec![Some("1".to_string()), Some("2".to_string())],
        vec![Some("3".to_string()), Some("4".to_string())],
    ];
    assert_eq!(
        parameters_from_captures(&names, &caps),
        Some(vec![("a".to_string(), "3".to_string()), ("b".to_string(), "4".to_string())])
    );
    let missing = vec![vec![Some("1".to_string()), None]];
    assert_eq!(parameters_from_captures(&names, &missing), None);
    assert_eq!(parameters_from_captures(&names, &vec![]), Some(vec![]));
}

#[test]
fn body_extraction_bounds() {
    let buf = b"0123456789";
    assert_eq!(extract_body(None, 5, buf), Some(vec![]));
    assert_eq!(extract_body(Some(2), 3, buf), Some(b"234".to_vec()));
    assert_eq!(extract_body(Some(8), 2, buf), Some(b"89".to_vec()));
    assert_eq!(extract_body(Some(8), 3, buf), None);
    assert_eq!(extract_body(Some(1), usize::MAX, buf), None);
}

#[test]
fn header_map_keeps_last_value_and_refuses_bad_bytes() {
    let h = |n: &str, v: &[u8]| HeaderField { name: n.to_string(), value: v.to_vec() };
    let map = build_header_map(&vec![h("A", b"1"), h("b", b"2"), h("a", b"3")])
        .expect("valid headers");
    assert_eq!(map.len(), 2);
    assert_eq!(map.get("a").unwrap(), "3");
    assert!(build_header_map(&vec![h("", b"1")]).is_none());
    assert!(build_header_map(&vec![h("a b", b"1")]).is_none());
    assert!(build_header_map(&vec![h("a", b"\x01")]).is_none());
    assert!(build_header_map(&vec![]).unwrap().is_empty());
}

#[test]
fn parsed_head_is_copied_out() {
    let head = parse_request_head(b"PUT /p HTTP/1.1\r\nA: b\r\n\r\nrest", 4)
        .expect("a valid head");
    assert_eq!(head.body_offset, Some(25));
    assert_eq!(head.method.as_deref(), Some("PUT"));
    assert_eq!(head.path.as_deref(), Some("/p"));
    assert_eq!(head.headers.len(), 1);
    assert_eq!(head.headers[0].name, "A");
    assert_eq!(head.headers[0].value, b"b".to_vec());
    let partial = parse_request_head(b"GET /x HTTP/1.1\r\nA: b\r\n", 4).unwrap();
    assert_eq!(partial.body_offset, None);
    assert_eq!(partial.headers.len(), 4);
    assert!(parse_request_head(b"\x00\x01", 4).is_none());
}

#[test]
fn routing_twice_gives_the_same_outcome() {
    let r = router();
    let buf = buffer(b"GET /users/1/posts/2 HTTP/1.1\r\nA: b\r\n\r\n");
    let first = r.route_request(&buf);
    let second = r.route_request(&buf);
    match (first, second) {
        (Resolution::Found(r1, q1), Resolution::Found(r2, q2)) => {
            assert!(std::ptr::eq(r1, r2));
            assert_eq!(q1.method, q2.method);
            assert_eq!(q1.path, q2.path);
            assert_eq!(q1.body, q2.body);
            assert_eq!(q1.parameters, q2.parameters);
            assert_eq!(q1.headers, q2.headers);
        }
        _ => panic!("expected a route both times"),
    }
}

#[test]
fn last_pair_of_each_name_is_kept_in_first_seen_order() {
    let p = |a: &str, b: &str| (a.to_string(), b.to_string());
    assert_eq!(
        keep_last_pairs(&vec![p("x", "1"), p("y", "2"), p("x", "3"), p("z", "4"), p("y", "5")]),
        vec![p("x", "3"), p("y", "5"), p("z", "4")]
    );
    assert_eq!(keep_last_pairs(&vec![]), vec![]);
    assert_eq!(keep_last_pairs(&vec![p("x", "1")]), vec![p("x", "1")]);
}

#[test]
fn parameter_matched_twice_holds_the_last_value() {
    let r: Router<&'static str> = match Router::new().route("/:id:".to_string(), get("one")) {
        Ok(r) => r,
        Err(_) => panic!(),
    };
    let buf = buffer(b"GET /a/b HTTP/1.1\r\n\r\n");
    match r.route_request(&buf) {
        Resolution::Found(route, req) => {
            assert_eq!(route.handler, "one");
            assert_eq!(req.parameters, vec![("id".to_string(), "b".to_string())]);
        }
        _ => panic!("expected a route"),
    }
}
