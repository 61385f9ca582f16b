use spa_host::page::{entry_page, STATUS_OK};

#[test]
fn document_is_served_verbatim() {
    let doc = b"<!doctype html><div id=\"root\">{{not a template}}</div>".to_vec();
    let page = entry_page(Ok(doc.clone()), b"dist/index.html");
    assert_eq!(page.status, 200);
    assert_eq!(page.body, doc);
    assert!(page.diagnostic.is_none());
}

#[test]
fn each_read_is_reflected() {
    let first = entry_page(Ok(b"v1".to_vec()), b"dist/index.html");
    let second = entry_page(Ok(b"v2".to_vec()), b"dist/index.html");
    assert_eq!(first.body, b"v1".to_vec());
    assert_eq!(second.body, b"v2".to_vec());
}

#[test]
fn missing_document_gives_error_page_with_status_ok() {
    let page = entry_page(Err(b"No such file or directory (os error 2)".to_vec()), b"/srv/dist/index.html");
    assert_eq!(page.status, STATUS_OK);
    let body = String::from_utf8(page.body).unwrap();
    assert_eq!(body, "<h1>Error: index.html not found at \"/srv/dist/index.html\"</h1>");
    assert!(body.contains("Error"));
    assert!(body.contains("/srv/dist/index.html"));
}

#[test]
fn missing_document_emits_one_diagnostic_line() {
    let page = entry_page(Err(b"permission denied".to_vec()), b"dist/index.html");
    let line = String::from_utf8(page.diagnostic.unwrap()).unwrap();
    assert_eq!(line, "Failed to read index.html from \"dist/index.html\": permission denied");
}

#[test]
fn empty_document_is_served_as_empty() {
    let page = entry_page(Ok(Vec::new()), b"dist/index.html");
    assert_eq!(page.status, 200);
    assert!(page.body.is_empty());
}

#[test]
fn path_with_newline_gives_a_single_diagnostic_line() {
    let page = entry_page(Err(b"No such file or directory (os error 2)".to_vec()), b"a\nb/index.html");
    let line = String::from_utf8(page.diagnostic.unwrap()).unwrap();
    assert!(!line.contains('\n'));
    assert_eq!(line.lines().count(), 1);
    assert_eq!(line, "Failed to read index.html from \"a\\nb/index.html\": No such file or directory (os error 2)");
    let body = String::from_utf8(page.body).unwrap();
    assert_eq!(body, "<h1>Error: index.html not found at \"a\\nb/index.html\"</h1>");
}

#[test]
fn path_is_escaped_as_debug_formatting_does() {
    for path in ["plain/dir/index.html", "q\"uote", "back\\slash", "t\tr\r0\0", "esc\u{1b}del\u{7f}one\u{1}", "it's"] {
        let page = entry_page(Err(b"e".to_vec()), path.as_bytes());
        let line = String::from_utf8(page.diagnostic.unwrap()).unwrap();
        assert_eq!(line, format!("Failed to read index.html from {:?}: e", path));
    }
}
