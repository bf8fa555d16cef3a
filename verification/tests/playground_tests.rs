use tomli_rust::playground::{content_type, request_path, response, route, Asset};

#[test]
fn playground_path_of_get_request() {
    assert_eq!(request_path("GET /style.css HTTP/1.1\r\nHost: x\r\n\r\n"), "/style.css");
    assert_eq!(request_path("GET / HTTP/1.1\r\n"), "/");
    assert_eq!(request_path("GET /main.js HTTP/1.1"), "/main.js");
}

#[test]
fn playground_path_without_space_is_empty() {
    assert_eq!(request_path("GET /index.html\r\nHost: a b\r\n"), "");
    assert_eq!(request_path("GET /index.html"), "");
    assert_eq!(request_path("GET "), "");
}

#[test]
fn playground_path_of_other_requests_is_empty() {
    assert_eq!(request_path("POST / HTTP/1.1\r\n"), "");
    assert_eq!(request_path("get / HTTP/1.1\r\n"), "");
    assert_eq!(request_path(""), "");
    assert_eq!(request_path("\nGET / HTTP/1.1"), "");
}

#[test]
fn playground_routes() {
    assert_eq!(route("/"), Some(Asset::IndexHtml));
    assert_eq!(route("/index.html"), Some(Asset::IndexHtml));
    assert_eq!(route("/style.css"), Some(Asset::StyleCss));
    assert_eq!(route("/main.js"), Some(Asset::MainJs));
    assert_eq!(route("/pkg/tomli_wasm.js"), Some(Asset::WasmJs));
    assert_eq!(route("/pkg/tomli_wasm_bg.wasm"), Some(Asset::WasmBg));
    assert_eq!(route(""), None);
    assert_eq!(route("/index.htm"), None);
}

#[test]
fn playground_content_types() {
    assert_eq!(content_type(Asset::IndexHtml), "text/html");
    assert_eq!(content_type(Asset::StyleCss), "text/css");
    assert_eq!(content_type(Asset::MainJs), "application/javascript");
    assert_eq!(content_type(Asset::WasmJs), "application/javascript");
    assert_eq!(content_type(Asset::WasmBg), "application/wasm");
}

#[test]
fn playground_response_for_a_file() {
    let r = response(Some(Asset::StyleCss), b"body{}");
    assert_eq!(
        r,
        b"HTTP/1.1 200 OK\r\nContent-Type: text/css\r\nContent-Length: 6\r\n\r\nbody{}".to_vec()
    );
    let w = response(Some(Asset::WasmBg), &[0, 97, 115, 109]);
    let mut expected = b"HTTP/1.1 200 OK\r\nContent-Type: application/wasm\r\nContent-Length: 4\r\n\r\n".to_vec();
    expected.extend_from_slice(&[0, 97, 115, 109]);
    assert_eq!(w, expected);
}

#[test]
fn playground_response_not_found() {
    assert_eq!(response(None, b"ignored"), b"HTTP/1.1 404 NOT FOUND\r\n\r\n404 Not Found".to_vec());
}
