use dupdb::frontend::{parse_http_request_line, route, Route};

#[test]
fn a_request_line_gives_its_method_and_target() {
    assert_eq!(parse_http_request_line("GET /duplicates HTTP/1.1\r\n"), ("GET", "/duplicates"));
    assert_eq!(parse_http_request_line("POST /remove"), ("POST", "/remove"));
    assert_eq!(parse_http_request_line("Nonsense!"), ("???", "???"));
    assert_eq!(parse_http_request_line("GET  x"), ("GET", ""));
}

#[test]
fn requests_are_routed_by_method_and_target() {
    assert!(matches!(route("GET", "/duplicates"), Route::Duplicates));
    assert!(matches!(route("POST", "/remove"), Route::Remove));
    assert!(matches!(route("GET", "/shutdown"), Route::Shutdown));
    assert!(matches!(route("GET", "/"), Route::Home));
    match route("GET", "/photos/cat.png") {
        Route::File(reference) => assert_eq!(reference, "photos/cat.png"),
        _ => panic!("a file was asked for"),
    }
    assert!(matches!(route("GET", ""), Route::Invalid));
    assert!(matches!(route("PUT", "/"), Route::Invalid));
    assert!(matches!(route("???", "???"), Route::Invalid));
}
