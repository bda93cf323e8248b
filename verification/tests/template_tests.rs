use custom_tcp_listener::extract_path_parameter;

fn extract(path: &str) -> (String, Vec<String>) {
    extract_path_parameter(&path.to_string())
}

#[test]
fn plain_template_escapes_slashes() {
    let (pattern, params) = extract("/api/v1/users");
    assert_eq!(pattern, "\\/api\\/v1\\/users");
    assert!(params.is_empty());
}

#[test]
fn parameter_becomes_named_group() {
    let (pattern, params) = extract("/users/:id:/posts");
    assert_eq!(pattern, "\\/users\\/(?<id>[^\\/]*)\\/posts");
    assert_eq!(params, vec!["id".to_string()]);
}

#[test]
fn several_parameters_keep_their_order() {
    let (pattern, params) = extract("/:a:/x/:b:");
    assert_eq!(pattern, "\\/(?<a>[^\\/]*)\\/x\\/(?<b>[^\\/]*)");
    assert_eq!(params, vec!["a".to_string(), "b".to_string()]);
}

#[test]
fn parameter_name_runs_from_first_to_last_colon() {
    let (pattern, params) = extract("/pre:a:b:post/x");
    assert_eq!(pattern, "\\/pre(?<a:b>[^\\/]*)post\\/x");
    assert_eq!(params, vec!["a:b".to_string()]);
}

#[test]
fn single_colon_is_literal() {
    let (pattern, params) = extract("/:x");
    assert_eq!(pattern, "\\/:x");
    assert!(params.is_empty());
}

#[test]
fn trailing_star_becomes_wildcard() {
    assert_eq!(extract("/*").0, "\\/(.+)");
    assert_eq!(extract("/files/*").0, "\\/files\\/(.+)");
}

#[test]
fn star_elsewhere_is_kept() {
    assert_eq!(extract("/a*").0, "\\/a*");
    assert_eq!(extract("*").0, "*");
    assert_eq!(extract("/*/x").0, "\\/*\\/x");
}

#[test]
fn empty_template() {
    let (pattern, params) = extract("");
    assert_eq!(pattern, "");
    assert!(params.is_empty());
}
