use rpc::decimal::{decimal_string, parse_i32, parse_u8, signed_decimal_string, IntErrorKind};
use rpc::message::Message;
use rpc::server::Server;
use rpc::stub::{add, subtract};
use rpc::tcp_call;
use rpc::text::{lines_of, splitn2, trim_class, CharClass};

#[test]
fn test_stub() {
    assert_eq!(add(1, 2), 3);
    assert_eq!(subtract(5, 3), 2);
    assert_eq!(add(-7, 3), -4);
    assert_eq!(subtract(i32::MIN + 1, 1), i32::MIN);
}

#[test]
fn test_tcp_match_service() {
    let m = |name: &str| Message { service_name: name.to_string(), data_len: 3, data: "9 9".to_string() };
    assert_eq!(tcp_call::match_service(m("add")), "3");
    assert_eq!(tcp_call::match_service(m(" subtract\n")), "2");
    assert_eq!(tcp_call::match_service(m("mul")), "Unknown request");
}

#[test]
fn test_server_new() {
    let s = Server::new("localhost:3000");
    assert_eq!(s.socket_addr(), "localhost:3000");
}

#[test]
fn test_numbers() {
    assert_eq!(decimal_string(0), "0");
    assert_eq!(decimal_string(1234567890), "1234567890");
    assert_eq!(signed_decimal_string(-42), "-42");
    assert_eq!(signed_decimal_string(i32::MIN as i64), "-2147483648");
    assert_eq!(parse_i32("-2147483648"), Some(i32::MIN));
    assert_eq!(parse_i32("+2147483647"), Some(i32::MAX));
    assert_eq!(parse_i32("2147483648"), None);
    assert_eq!(parse_i32("-"), None);
    assert_eq!(parse_i32(""), None);
    assert_eq!(parse_u8("+7"), Ok(7));
    assert_eq!(parse_u8("").unwrap_err().kind, IntErrorKind::Empty);
    assert_eq!(parse_u8("").unwrap_err().message(), "cannot parse integer from empty string");
    assert_eq!(parse_u8("-").unwrap_err().kind, IntErrorKind::InvalidDigit);
    assert_eq!(parse_u8("1000").unwrap_err().kind, IntErrorKind::PosOverflow);
}

#[test]
fn test_text_helpers() {
    assert_eq!(trim_class("\t a b \u{3000}", CharClass::Whitespace), "a b");
    assert_eq!(trim_class("[[1]]", CharClass::Bracket), "1");
    assert_eq!(splitn2("a: b: c", ": "), vec!["a", "b: c"]);
    assert_eq!(splitn2("abc", ":"), vec!["abc"]);
    assert_eq!(lines_of("a\r\nb\n\nc\r"), vec!["a", "b", "", "c\r"]);
    assert_eq!(lines_of("a\n"), vec!["a"]);
    assert_eq!(lines_of(""), Vec::<&str>::new());
}
