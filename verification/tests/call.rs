use rpc::call::{
    decode_request, format_byte_list, handle_client, match_service, parse_to_vec_u8, reply_to, service_is_defined,
    ClientRequest,
};
use rpc::decimal::IntErrorKind;
use rpc::message::Message;
use rpc::rsa_crypto::{encrypt_str, generate_keys, PrivateKey, PublicKey};

#[test]
fn test_parse_to_vec_u8() {
    let input = "[15, 69, 40]";
    let result = parse_to_vec_u8(input);
    assert_eq!(result, Ok(vec![15, 69, 40]));
}

#[test]
fn test_match_service() {
    let mes = Message {
        service_name: "add".to_string(),
        data_len: 2,
        data: "1 2".to_string(),
    };

    let result = match_service(mes);
    assert_eq!(result, "3");
}

#[test]
fn test_match_service_unknown_request() {
    let mes = Message {
        service_name: "unknown".to_string(),
        data_len: 2,
        data: "1 2".to_string(),
    };

    let result = match_service(mes);
    assert_eq!(result, "Unknown request");
}

#[test]
fn test_handle_client() {
    let req_data = "{\"service_name\":\"add\",\"data_len\":2,\"data\":\"1 2\"}";
    let (priv_key, pub_key) = generate_keys().expect("failed to generate a key");
    let encrypted = encrypt_str(&pub_key, req_data);
    let mut string = String::from("[");
    for (i, &value) in encrypted.iter().enumerate() {
        if i != 0 {
            string.push_str(", ");
        }
        string.push_str(&value.to_string());
    }
    string.push_str("]");
    assert_eq!(string, format_byte_list(&encrypted));

    let payload = handle_client(&string, &priv_key, &pub_key).expect("a byte list");
    assert!(matches!(
        decode_request(&string, &priv_key, &pub_key),
        ClientRequest::Payload(ref m) if *m == payload
    ));
    assert_eq!(payload, req_data.as_bytes().to_vec());
    let value: serde_json::Value = serde_json::from_slice(&payload).expect("a JSON message");
    let mes = Message {
        service_name: value["service_name"].as_str().unwrap().to_string(),
        data_len: value["data_len"].as_u64().unwrap() as u8,
        data: value["data"].as_str().unwrap().to_string(),
    };
    assert!(service_is_defined(&mes));
    let result = reply_to(Ok(mes));
    assert_eq!(result, "3");
}

#[test]
fn test_handle_client_refusals() {
    let priv_key =
        PrivateKey::from_parts(vec![15], vec![3], vec![3], vec![vec![3], vec![5]]).expect("valid key");
    let pub_key = PublicKey::from_parts(vec![15], vec![3]).expect("valid key");
    assert_eq!(handle_client("[1, 2, x]", &priv_key, &pub_key), None);
    assert_eq!(handle_client("[1, 2, 300]", &priv_key, &pub_key), None);
    // Bytes that do not decrypt are what `decode_request` tells apart before
    // it calls `handle_client`.
    assert!(matches!(decode_request("[1, 2, x]", &priv_key, &pub_key), ClientRequest::Malformed));
    assert!(matches!(decode_request("[1, 2, 3]", &priv_key, &pub_key), ClientRequest::Undecryptable));
}

#[test]
fn test_parse_to_vec_u8_forms() {
    assert_eq!(parse_to_vec_u8("[]"), Ok(vec![]));
    assert_eq!(parse_to_vec_u8(""), Ok(vec![]));
    assert_eq!(parse_to_vec_u8("[0,255]"), Ok(vec![0, 255]));
    assert_eq!(parse_to_vec_u8("[[1,\t2,, +3]]"), Ok(vec![1, 2, 3]));
    assert_eq!(parse_to_vec_u8("1 2 3"), Ok(vec![1, 2, 3]));
}

#[test]
fn test_parse_to_vec_u8_errors() {
    let e = parse_to_vec_u8("[1, 256]").unwrap_err();
    assert_eq!(e.kind, IntErrorKind::PosOverflow);
    assert_eq!(e.message(), "number too large to fit in target type");
    let e = parse_to_vec_u8("[1, -2]").unwrap_err();
    assert_eq!(e.kind, IntErrorKind::InvalidDigit);
    assert_eq!(e.message(), "invalid digit found in string");
    let e = parse_to_vec_u8("[+]").unwrap_err();
    assert_eq!(e.kind, IntErrorKind::InvalidDigit);
    // The first bad number decides the error.
    let e = parse_to_vec_u8("[x, 999]").unwrap_err();
    assert_eq!(e.kind, IntErrorKind::InvalidDigit);
    // Leading spaces keep the bracket.
    let e = parse_to_vec_u8(" [1]").unwrap_err();
    assert_eq!(e.kind, IntErrorKind::InvalidDigit);
}

#[test]
fn test_byte_list_roundtrip() {
    let bytes: Vec<u8> = vec![0, 7, 10, 99, 100, 255];
    let text = format_byte_list(&bytes);
    assert_eq!(text, "[0, 7, 10, 99, 100, 255]");
    assert_eq!(text, format!("{:?}", bytes));
    assert_eq!(parse_to_vec_u8(&text), Ok(bytes));
    assert_eq!(format_byte_list(&[]), "[]");
    // The JSON array that the server writes reads back too.
    assert_eq!(parse_to_vec_u8("[0,7,255]"), Ok(vec![0, 7, 255]));
}

#[test]
fn test_match_service_subtract_and_operands() {
    let mes = Message {
        service_name: " subtract ".to_string(),
        data_len: 5,
        data: " 10 -4 ".to_string(),
    };
    assert!(service_is_defined(&mes));
    assert_eq!(match_service(mes), "14");
    // A text that is no number counts as 0.
    let mes = Message { service_name: "add".to_string(), data_len: 3, data: "x 5".to_string() };
    assert_eq!(match_service(mes), "5");
    // Only two operands are read, and the reported length does not count.
    let mes = Message { service_name: "add".to_string(), data_len: 5, data: "1 2 3".to_string() };
    assert_eq!(match_service(mes), "3");
    let mes = Message { service_name: "add".to_string(), data_len: 200, data: "1 2 99".to_string() };
    assert_eq!(match_service(mes), "3");
    // Operands are split at single spaces.
    let mes = Message { service_name: "add".to_string(), data_len: 4, data: "1  2".to_string() };
    assert_eq!(match_service(mes), "1");
}

#[test]
fn test_service_defined() {
    let one = Message { service_name: "add".to_string(), data_len: 1, data: "1".to_string() };
    assert!(!service_is_defined(&one));
    let over = Message {
        service_name: "add".to_string(),
        data_len: 21,
        data: "2147483647 1".to_string(),
    };
    assert!(!service_is_defined(&over));
    let unknown = Message { service_name: "mul".to_string(), data_len: 0, data: String::new() };
    assert!(service_is_defined(&unknown));
    assert_eq!(match_service(unknown), "Unknown request");
}

#[test]
fn test_reply_to_parse_error() {
    let res = reply_to(Err("EOF while parsing a value at line 1 column 0".to_string()));
    assert_eq!(res, "Error parsing message: EOF while parsing a value at line 1 column 0");
}
