use rpc::httprequest::HttpRequest;
use rpc::router::{path_of, Route, Router};

fn request(text: &str) -> HttpRequest {
    HttpRequest::parse(text)
}

#[test]
fn test_route_api() {
    let req = request("GET /api/add HTTP/1.1\r\n\r\n[1, 2]");
    assert_eq!(path_of(&req), "/api/add");
    assert!(Router::can_route(&req));
    assert_eq!(Router::route(&req), Route::WebService);
}

#[test]
fn test_route_static_and_other_methods() {
    let req = request("GET /index HTTP/1.1\r\n");
    assert_eq!(Router::route(&req), Route::StaticPage);
    let req = request("GET /apis HTTP/1.1\r\n");
    assert_eq!(Router::route(&req), Route::StaticPage);
    let req = request("POST /api/add HTTP/1.1\r\n");
    assert_eq!(Router::route(&req), Route::PageNotFound);
    let req = request("PUT /x HTTP/1.1\r\n");
    assert_eq!(Router::route(&req), Route::PageNotFound);
}

#[test]
fn test_route_needs_a_slash() {
    let req = request("GET index HTTP/1.1\r\n");
    assert!(!Router::can_route(&req));
    let req = request("POST index HTTP/1.1\r\n");
    assert!(Router::can_route(&req));
}
