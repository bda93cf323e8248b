use custom_tcp_listener::method::{connect, delete, get, head, option, patch, post, put, trace};
use custom_tcp_listener::ERouterMethod;

#[test]
fn as_str_names_every_method() {
    assert_eq!(ERouterMethod::CONNECT.as_str(), "CONNECT");
    assert_eq!(ERouterMethod::DELETE.as_str(), "DELETE");
    assert_eq!(ERouterMethod::GET.as_str(), "GET");
    assert_eq!(ERouterMethod::HEAD.as_str(), "HEAD");
    assert_eq!(ERouterMethod::OPTIONS.as_str(), "OPTIONS");
    assert_eq!(ERouterMethod::PATCH.as_str(), "PATCH");
    assert_eq!(ERouterMethod::POST.as_str(), "POST");
    assert_eq!(ERouterMethod::PUT.as_str(), "PUT");
    assert_eq!(ERouterMethod::TRACE.as_str(), "TRACE");
}

#[test]
fn as_slice_lists_methods_in_order() {
    let all = ERouterMethod::as_slice();
    let names: Vec<&str> = all.iter().map(|m| m.as_str()).collect();
    assert_eq!(
        names,
        vec!["CONNECT", "DELETE", "GET", "HEAD", "OPTIONS", "PATCH", "POST", "PUT", "TRACE"]
    );
}

#[test]
fn from_name_inverts_as_str() {
    for m in ERouterMethod::as_slice() {
        assert_eq!(ERouterMethod::from_name(m.as_str()), Some(m));
    }
}

#[test]
fn from_name_rejects_unknown_and_lowercase() {
    assert_eq!(ERouterMethod::from_name("get"), None);
    assert_eq!(ERouterMethod::from_name("FETCH"), None);
    assert_eq!(ERouterMethod::from_name(""), None);
    assert_eq!(ERouterMethod::from_name("GETX"), None);
}

#[test]
fn index_follows_declaration_order() {
    for (i, m) in ERouterMethod::as_slice().iter().enumerate() {
        assert_eq!(m.index(), i);
    }
}

#[test]
fn helpers_pair_handler_with_method() {
    assert_eq!(connect(1).0, ERouterMethod::CONNECT);
    assert_eq!(get(2), (ERouterMethod::GET, 2));
    assert_eq!(delete(3).0, ERouterMethod::DELETE);
    assert_eq!(head(4).0, ERouterMethod::HEAD);
    assert_eq!(option(5).0, ERouterMethod::OPTIONS);
    assert_eq!(patch(6).0, ERouterMethod::PATCH);
    assert_eq!(post(7).0, ERouterMethod::POST);
    assert_eq!(put(8).0, ERouterMethod::PUT);
    assert_eq!(trace(9), (ERouterMethod::TRACE, 9));
}
