use spa_host::route::{route_request, Route};

fn components(path: &str) -> Option<Vec<String>> {
    match route_request(path.as_bytes()) {
        Route::Asset(c) => Some(c.into_iter().map(|v| String::from_utf8(v).unwrap()).collect()),
        _ => None,
    }
}

fn is_not_found(path: &str) -> bool {
    matches!(route_request(path.as_bytes()), Route::NotFound)
}

fn is_entry(path: &str) -> bool {
    matches!(route_request(path.as_bytes()), Route::Entry)
}

#[test]
fn asset_file_is_served_from_asset_dir() {
    assert_eq!(components("/assets/app.js"), Some(vec!["app.js".to_string()]));
    assert_eq!(
        components("/assets/fonts/inter.woff2"),
        Some(vec!["fonts".to_string(), "inter.woff2".to_string()])
    );
}

#[test]
fn missing_asset_still_goes_to_static_handler() {
    assert_eq!(
        components("/assets/does-not-exist.js"),
        Some(vec!["does-not-exist.js".to_string()])
    );
    assert!(!is_entry("/assets/does-not-exist.js"));
}

#[test]
fn other_paths_go_to_entry_document() {
    assert!(is_entry("/"));
    assert!(is_entry(""));
    assert!(is_entry("/dashboard/settings"));
    assert!(is_entry("/assetsfoo/app.js"));
    assert!(is_entry("/asset"));
    assert!(is_entry("/static/assets/app.js"));
}

#[test]
fn parent_traversal_is_not_found() {
    assert!(is_not_found("/assets/../../etc/passwd"));
    assert!(is_not_found("/assets/css/../../index.html"));
    assert!(is_not_found("/assets/.."));
}

#[test]
fn encoded_traversal_is_not_found() {
    assert!(is_not_found("/assets/%2e%2e/%2E%2E/etc/passwd"));
    assert!(is_not_found("/assets/..%2f..%2fetc/passwd"));
    assert!(is_not_found("/assets/%2e./secret"));
    assert!(is_not_found("/assets/%2Fetc/passwd"));
}

#[test]
fn asset_root_itself_is_not_found() {
    assert!(is_not_found("/assets"));
    assert!(is_not_found("/assets/"));
    assert!(is_not_found("/assets//./"));
}

#[test]
fn empty_and_dot_pieces_are_dropped() {
    assert_eq!(
        components("/assets//css/./site.css"),
        Some(vec!["css".to_string(), "site.css".to_string()])
    );
    assert_eq!(components("///assets/x"), None);
}

#[test]
fn percent_encoded_names_are_decoded() {
    assert_eq!(components("/assets/my%20font.ttf"), Some(vec!["my font.ttf".to_string()]));
    assert_eq!(components("/assets/a%2Fb"), Some(vec!["a".to_string(), "b".to_string()]));
}

#[test]
fn dotted_names_are_ordinary_files() {
    assert_eq!(components("/assets/...js"), Some(vec!["...js".to_string()]));
    assert_eq!(components("/assets/.hidden"), Some(vec![".hidden".to_string()]));
}
