use lipi::server::{keep_serving, percent_decode, request_path, Routes};

#[test]
fn path_of_request_line() {
    assert_eq!(request_path("GET /a/b HTTP/1.1\r\n"), "/a/b");
    assert_eq!(request_path("  GET   /x  "), "/x");
    assert_eq!(request_path("GET"), "/");
    assert_eq!(request_path(""), "/");
}

#[test]
fn percent_decoding() {
    assert_eq!(percent_decode("/%E0%A4%A8%E0%A4%AE"), "/नम");
    assert_eq!(percent_decode("/a%20b"), "/a b");
    assert_eq!(percent_decode("/a+b"), "/a+b");
    assert_eq!(percent_decode("/%zz"), "/%zz");
    assert_eq!(percent_decode("/%4"), "/%4");
    // bytes that are not UTF-8: the raw text stays
    assert_eq!(percent_decode("/%FF"), "/%FF");
}

#[test]
fn routed_page_and_not_found() {
    let mut r = Routes::new();
    r.route("/".to_string(), "नमस्ते".to_string());
    let ok = r.respond("GET / HTTP/1.1");
    assert_eq!(
        ok,
        "HTTP/1.1 200 OK\r\nContent-Type: text/html; charset=utf-8\r\nContent-Length: 18\r\nConnection: close\r\n\r\nनमस्ते"
    );
    let nf = r.respond("GET /missing HTTP/1.1");
    assert!(nf.starts_with("HTTP/1.1 404 Not Found\r\n"));
    assert!(nf.ends_with("\r\n\r\n404 नहीं मिला"));
}

#[test]
fn route_replaces_and_decodes() {
    let mut r = Routes::new();
    r.route("/नम".to_string(), "a".to_string());
    r.route("/नम".to_string(), "b".to_string());
    assert!(r.respond("GET /%E0%A4%A8%E0%A4%AE HTTP/1.1").ends_with("\r\n\r\nb"));
}

#[test]
fn serving_limit() {
    assert!(keep_serving(5, 0));
    assert!(keep_serving(1, 2));
    assert!(!keep_serving(2, 2));
}
