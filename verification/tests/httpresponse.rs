use rpc::httpresponse::HttpResponse;

#[test]
fn test_response_struct_creation_200() {
    let response_actual = HttpResponse::new("200", None, Some("xxxx".into()));
    let response_expected = HttpResponse {
        version: "HTTP/1.1",
        status_code: "200",
        status_text: "OK",
        headers: {
            let mut h = Vec::new();
            h.push(("Content-Type", "text/html"));
            Some(h)
        },
        body: Some("xxxx".into()),
    };
    assert_eq!(response_actual, response_expected);
}

#[test]
fn test_response_struct_creation_404() {
    let response_actual = HttpResponse::new("404", None, Some("xxxx".into()));
    let response_expected = HttpResponse {
        version: "HTTP/1.1",
        status_code: "404",
        status_text: "Not Found",
        headers: {
            let mut h = Vec::new();
            h.push(("Content-Type", "text/html"));
            Some(h)
        },
        body: Some("xxxx".into()),
    };
    assert_eq!(response_actual, response_expected);
}

#[test]
fn test_http_response_creation() {
    let response_expected = HttpResponse {
        version: "HTTP/1.1",
        status_code: "404",
        status_text: "Not Found",
        headers: {
            let mut h = Vec::new();
            h.push(("Content-Type", "text/html"));
            Some(h)
        },
        body: Some("xxxx".into()),
    };
    let http_string: String = response_expected.into();
    let actual_string =
        "HTTP/1.1 404 Not Found\r\nContent-Type:text/html\r\nContent-Length: 4\r\n\r\nxxxx";
    assert_eq!(http_string, actual_string);
}

#[test]
fn test_default_response() {
    let r = HttpResponse::default();
    assert_eq!(r.version, "HTTP/1.1");
    assert_eq!(r.status_code, "200");
    assert_eq!(r.status_text, "OK");
    assert_eq!(r.headers, None);
    assert_eq!(r.body, None);
    assert_eq!(r.body(), "");
}

#[test]
fn test_status_texts() {
    assert_eq!(HttpResponse::new("400", None, None).status_text, "Bad Request");
    assert_eq!(HttpResponse::new("500", None, None).status_text, "Internal Server Error");
    assert_eq!(HttpResponse::new("302", None, None).status_text, "Not Found");
    assert_eq!(HttpResponse::new("302", None, None).status_code, "302");
    let given = HttpResponse::new("200", Some(vec![("Content-Type", "application/json")]), None);
    assert_eq!(given.headers, Some(vec![("Content-Type", "application/json")]));
}

#[test]
fn test_send_response() {
    let r = HttpResponse::new(
        "200",
        Some(vec![("Content-Type", "text/css"), ("X", "y")]),
        Some("é".to_string()),
    );
    let mut out = String::from("> ");
    r.send_response(&mut out);
    // The length counts UTF-8 bytes.
    assert_eq!(out, "> HTTP/1.1 200 OK\r\nContent-Type:text/css\r\nX:y\r\nContent-Length: 2\r\n\r\né");
    assert_eq!(r.to_text(), String::from(r.clone()));
}

#[test]
fn test_from_str() {
    let text = "HTTP/1.1 404 Not Found\r\nContent-Type: text/html\r\nContent-Length: 4\r\n\r\nxx\r\nxx";
    let r = HttpResponse::from_str(text);
    assert_eq!(r.version, "HTTP/1.1");
    assert_eq!(r.status_code, "404");
    assert_eq!(r.status_text, "Not");
    assert_eq!(
        r.headers,
        Some(vec![("Content-Type", "text/html"), ("Content-Length", "4")])
    );
    assert_eq!(r.body, Some("xx\r\nxx".to_string()));
    assert_eq!(r.body(), "xx\r\nxx");
}

#[test]
fn test_from_str_without_empty_line() {
    let r = HttpResponse::from_str("HTTP/1.1\r\nBad header\r\nK: v");
    assert_eq!(r.version, "HTTP/1.1");
    assert_eq!(r.status_code, "");
    assert_eq!(r.status_text, "");
    assert_eq!(r.headers, Some(vec![("K", "v")]));
    assert_eq!(r.body, Some(String::new()));
    let e = HttpResponse::from_str("");
    assert_eq!(e.version, "");
    assert_eq!(e.headers, Some(vec![]));
    assert_eq!(e.body, Some(String::new()));
}

#[test]
fn test_response_text_roundtrip() {
    let r = HttpResponse::new("200", None, Some("{\"result\":[1,2]}".to_string()));
    let text: String = r.clone().into();
    let back = HttpResponse::from_str(&text);
    assert_eq!(back.version, r.version);
    assert_eq!(back.status_code, r.status_code);
    assert_eq!(back.status_text, "OK");
    assert_eq!(back.body, r.body);
    // Header lines are written as `key:value` and only the length line,
    // `Content-Length: n`, is read back as a header.
    assert_eq!(back.headers, Some(vec![("Content-Length", "16")]));
}

#[test]
fn test_from_str_repeated_header() {
    let r = HttpResponse::from_str("HTTP/1.1 200 OK\r\nA: 1\r\nB: 2\r\nA: 3\r\n\r\nbody");
    assert_eq!(r.headers, Some(vec![("A", "3"), ("B", "2")]));
    assert_eq!(r.body(), "body");
}
