use log_analyzer::web::{asset_path, content_type, not_found_response, ok_header, request_target, ContentType};

#[test]
fn request_target_is_second_word() {
    assert_eq!(request_target("GET /app.js HTTP/1.1"), Some("/app.js".to_string()));
    assert_eq!(request_target("  GET\t/  HTTP/1.1 "), Some("/".to_string()));
    assert_eq!(request_target("GET"), None);
    assert_eq!(request_target(""), None);
}

#[test]
fn root_serves_index() {
    assert_eq!(asset_path("/"), "index.html");
    assert_eq!(asset_path("/assets/app.wasm"), "assets/app.wasm");
    assert_eq!(asset_path("x"), "");
}

#[test]
fn content_types_by_extension() {
    assert!(matches!(content_type("app.js"), ContentType::Javascript));
    assert!(matches!(content_type("pkg/x.wasm"), ContentType::Wasm));
    assert!(matches!(content_type("style.css"), ContentType::Css));
    assert!(matches!(content_type("a.b.png"), ContentType::Png));
    assert!(matches!(content_type("index.html"), ContentType::Html));
    assert!(matches!(content_type("js"), ContentType::Javascript));
    assert!(matches!(content_type("archive.js.gz"), ContentType::Html));
    assert_eq!(ContentType::Wasm.mime_str(), "application/wasm");
    assert_eq!(ContentType::Html.mime_str(), "text/html");
}

#[test]
fn ok_header_text() {
    assert_eq!(
        ok_header(ContentType::Css, 1234),
        "HTTP/1.1 200 OK\r\nContent-Type: text/css\r\nContent-Length: 1234\r\nConnection: close\r\n\r\n"
    );
    assert_eq!(not_found_response(), "HTTP/1.1 404 NOT FOUND\r\nContent-Length: 0\r\n\r\n");
}
