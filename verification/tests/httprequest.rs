use rpc::httprequest::{HttpRequest, Method, Resource, Version};

#[test]
fn test_method_into() {
    let m: Method = "GET".into();
    assert_eq!(m, Method::Get);
    let p: Method = "POST".into();
    assert_eq!(p, Method::Post);
    let u: Method = "PUT".into();
    assert_eq!(u, Method::Uninitialized);
}

#[test]
fn test_version_into() {
    let v: Version = "HTTP/1.1".into();
    assert_eq!(v, Version::V1_1);
    let w: Version = "HTTP/2.0".into();
    assert_eq!(w, Version::V2_0);
    let u: Version = "HTTP/3".into();
    assert_eq!(u, Version::Uninitialized);
}

#[test]
fn test_read_http() {
    let s: String = String::from(
        "GET /greeting HTTP/1.1\r\nHost: localhost:3000\r\nUser-Agent: curl/7.71.1\r\nAccept: */*\r\n\r\n",
    );
    let req = HttpRequest::parse(&s);
    assert_eq!(Method::Get, req.method);
    assert_eq!(Version::V1_1, req.version);
    assert_eq!(Resource::Path("/greeting".to_string()), req.resource);
    let expected: Vec<(String, String)> = vec![
        ("Host".to_string(), " localhost:3000".to_string()),
        ("User-Agent".to_string(), " curl/7.71.1".to_string()),
        ("Accept".to_string(), " */*".to_string()),
    ];
    assert_eq!(req.headers, expected);
    assert_eq!(req.msg_body, "");
}

#[test]
fn test_read_http_body_and_repeated_header() {
    let s = "POST /api/add HTTP/2.0\nA: 1\nA: 2\n\n[1, 2]";
    let req = HttpRequest::try_parse(s).expect("complete request line");
    assert_eq!(req.method, Method::Post);
    assert_eq!(req.version, Version::V2_0);
    assert_eq!(req.resource, Resource::Path("/api/add".to_string()));
    assert_eq!(req.headers, vec![("A".to_string(), " 2".to_string())]);
    assert_eq!(req.msg_body, "[1, 2]");
}

#[test]
fn test_read_http_incomplete_request_line() {
    assert!(HttpRequest::try_parse("GET HTTP/1.1\r\n").is_none());
    let req = HttpRequest::try_parse("no request line").expect("no line holds HTTP");
    assert_eq!(req.method, Method::Uninitialized);
    assert_eq!(req.version, Version::V1_1);
    assert_eq!(req.resource, Resource::Path(String::new()));
    assert_eq!(req.msg_body, "no request line");
}
