use rpc::call::parse_to_vec_u8;
use rpc::client::{build_request, result_value};
use rpc::router::{Route, Router};
use rpc::httprequest::{HttpRequest, Method, Resource};

#[test]
fn test_build_request() {
    let text = build_request("add", 3, &[1, 20, 255]);
    assert_eq!(
        text,
        "GET /api/add HTTP/1.1\nHost: localhost:3000\nContent-Type: application/json\nContent-Length: 3\n\n[1, 20, 255]"
    );
    // The server reads the request back.
    let req = HttpRequest::parse(&text);
    assert_eq!(req.method, Method::Get);
    assert_eq!(req.resource, Resource::Path("/api/add".to_string()));
    assert_eq!(req.msg_body, "[1, 20, 255]");
    assert_eq!(Router::route(&req), Route::WebService);
    assert_eq!(parse_to_vec_u8(&req.msg_body), Ok(vec![1, 20, 255]));
    assert_eq!(
        req.headers,
        vec![
            ("Host".to_string(), " localhost:3000".to_string()),
            ("Content-Type".to_string(), " application/json".to_string()),
            ("Content-Length".to_string(), " 3".to_string()),
        ]
    );
}

#[test]
fn test_result_value() {
    assert_eq!(result_value("{\"result\":[1,2,3]}"), "[1,2,3]");
    assert_eq!(result_value("{\"a\":\"b:c\"}"), "\"b:c\"");
    assert_eq!(result_value("{}"), "");
    assert_eq!(result_value("{no colon}"), "");
}
