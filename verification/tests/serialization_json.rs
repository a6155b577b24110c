use rpc::serialization_json::{deserder_vec, serde_vec, try_deserder_vec};

#[test]
fn test_vecserde() {
    let numbers: Vec<u8> = [108, 123, 122].to_vec();
    let json_string = serde_vec(numbers);
    assert_eq!(json_string, "[108,123,122]");
}

#[test]
fn test_vecdeserde() {
    let json_string = r#"[108, 123, 122]"#;
    let numbers: Vec<u8> = deserder_vec(json_string.to_string());
    assert_eq!(numbers, vec![108, 123, 122]);
}

#[test]
fn test_vec_json_readback() {
    let empty = serde_vec(Vec::new());
    assert_eq!(empty, "[]");
    assert_eq!(try_deserder_vec(empty), Some(Vec::new()));
    let text = serde_vec(vec![0, 9, 10, 255]);
    assert_eq!(text, "[0,9,10,255]");
    assert_eq!(try_deserder_vec(text), Some(vec![0, 9, 10, 255]));
}

#[test]
fn test_vec_json_refused() {
    assert_eq!(try_deserder_vec("[256]".to_string()), None);
    assert_eq!(try_deserder_vec("[1, 2".to_string()), None);
    assert_eq!(try_deserder_vec("not json".to_string()), None);
}
