use rpc::call::ClientRequest;
use rpc::handler::{Answer, OrderStatus, PageNotFoundHandler, StaticPageHandler, WebServiceHandler};
use rpc::httprequest::HttpRequest;
use rpc::httpresponse::HttpResponse;
use rpc::rsa_crypto::{decrypt_u8, generate_keys, PrivateKey, PublicKey};

/// A small fixed server key (15 = 3 * 5); the handler's replies use only
/// the client's key, so these tests need no generated server key.
fn small_server_key() -> PrivateKey {
    PrivateKey::from_parts(vec![15], vec![3], vec![3], vec![vec![3], vec![5]]).expect("valid key")
}
use rpc::call::parse_to_vec_u8;
use rpc::client::result_value;
use rpc::message::Message;

fn respond(a: Answer<'_>) -> HttpResponse<'_> {
    match a {
        Answer::Respond(r) => r,
        Answer::NotFound => panic!("not found"),
    }
}

#[test]
fn test_static_named_pages() {
    let h = StaticPageHandler;
    let req = HttpRequest::parse("GET /index HTTP/1.1\r\n");
    assert_eq!(h.page_file(&req), "index.html");
    let r = respond(h.handle(&req, Some("<p>hi</p>".to_string())));
    assert_eq!(r.status_code, "200");
    assert_eq!(r.headers, Some(vec![("Content-Type", "text/html")]));
    assert_eq!(r.body, Some("<p>hi</p>".to_string()));
    // A named page that could not be read is answered without a body.
    let req = HttpRequest::parse("GET /health HTTP/1.1\r\n");
    assert_eq!(h.page_file(&req), "health.html");
    let r = respond(h.handle(&req, None));
    assert_eq!(r.status_code, "200");
    assert_eq!(r.body, None);
}

#[test]
fn test_static_files() {
    let h = StaticPageHandler;
    let req = HttpRequest::parse("GET /styles.css HTTP/1.1\r\n");
    assert_eq!(h.page_file(&req), "styles.css");
    let r = respond(h.handle(&req, Some("body {}".to_string())));
    assert_eq!(r.headers, Some(vec![("Content-Type", "text/css")]));
    let req = HttpRequest::parse("GET /app.js HTTP/1.1\r\n");
    let r = respond(h.handle(&req, Some("f()".to_string())));
    assert_eq!(r.headers, Some(vec![("Content-Type", "text/javascript")]));
    let req = HttpRequest::parse("GET /page.txt HTTP/1.1\r\n");
    let r = respond(h.handle(&req, Some("t".to_string())));
    assert_eq!(r.headers, Some(vec![("Content-Type", "text/html")]));
    // A file that could not be read is not found.
    assert!(matches!(h.handle(&req, None), Answer::NotFound));
}

#[test]
fn test_page_not_found() {
    let r = PageNotFoundHandler.handle(Some("gone".to_string()));
    assert_eq!(r.status_code, "404");
    assert_eq!(r.status_text, "Not Found");
    assert_eq!(r.body, Some("gone".to_string()));
}

#[test]
fn test_order_status() {
    let o = OrderStatus::new(7, "2024-05-01".to_string(), "Shipped".to_string());
    assert_eq!(o.order_id(), 7);
    assert_eq!(o.order_date(), "2024-05-01");
    assert_eq!(o.order_status(), "Shipped");
}

#[test]
fn test_web_service_reply() {
    let (client_key, client_pub) = generate_keys().expect("failed to generate a key");
    let h = WebServiceHandler::new(small_server_key(), client_pub);
    assert_eq!(h.client_key_size(), 256);
    assert!(matches!(h.handle("Error parsing message: x"), Answer::NotFound));
    let r = respond(h.handle("3"));
    assert_eq!(r.status_code, "200");
    assert_eq!(r.headers, Some(vec![("Content-Type", "application/json")]));
    let body = r.body.clone().unwrap();
    assert!(body.starts_with("{\"result\":["));
    // The client reads the ciphertext back and decrypts the reply.
    let ct = parse_to_vec_u8(result_value(&body)).expect("a byte list");
    assert_eq!(decrypt_u8(&client_key, &ct), b"3".to_vec());
    // The same through the response text that the server sends.
    let text: String = r.clone().into();
    let back = HttpResponse::from_str(&text);
    assert_eq!(back.body(), body);
    let ct2 = parse_to_vec_u8(result_value(back.body())).expect("a byte list");
    assert_eq!(ct2, ct);

    // Whole requests: a malformed body is answered with an empty reply, a
    // message that did not parse with "not found", a service call with its
    // result.
    let r = match h.answer(None) {
        Some(Answer::Respond(r)) => r,
        _ => panic!("expected a response"),
    };
    let ct = parse_to_vec_u8(result_value(r.body())).expect("a byte list");
    assert_eq!(decrypt_u8(&client_key, &ct), Vec::<u8>::new());
    assert!(matches!(h.answer(Some(Err("bad".to_string()))), Some(Answer::NotFound)));
    let mes = Message { service_name: "subtract".to_string(), data_len: 3, data: "1 9".to_string() };
    let r = match h.answer(Some(Ok(mes))) {
        Some(Answer::Respond(r)) => r,
        _ => panic!("expected a response"),
    };
    let ct = parse_to_vec_u8(result_value(r.body())).expect("a byte list");
    assert_eq!(decrypt_u8(&client_key, &ct), b"-8".to_vec());
    // Long texts give short replies.
    let long = Message { service_name: "x".repeat(300), data_len: 0, data: String::new() };
    assert!(h.answer(Some(Ok(long))).is_some());
    assert!(h.answer(Some(Err("y".repeat(300)))).is_some());

    // Under a client key too small for any reply, only error replies are answered.
    let tiny = PublicKey::from_parts(vec![15], vec![3]).expect("valid key");
    let h = WebServiceHandler::new(small_server_key(), tiny);
    assert!(h.answer(None).is_none());
    assert!(matches!(h.answer(Some(Err("bad".to_string()))), Some(Answer::NotFound)));
}

#[test]
fn test_web_service_decode() {
    let client_pub = PublicKey::from_parts(vec![15], vec![3]).expect("valid key");
    let h = WebServiceHandler::new(small_server_key(), client_pub);
    let req = HttpRequest::parse("GET /api/add HTTP/1.1\r\n\r\n[1, x]");
    assert!(matches!(h.decode(&req), ClientRequest::Malformed));
}
