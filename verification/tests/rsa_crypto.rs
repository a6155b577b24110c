use rpc::rsa_crypto::{
    decrypt_u8, encrypt_str, encrypt_u8, generate_keys, try_decrypt_str, try_decrypt_u8,
    PrivateKey, PublicKey,
};
use rsa::{BigUint, RsaPublicKey};

#[test]
fn test_encrypt_decrypt() {
    let (priv_key, pub_key) = generate_keys().expect("failed to generate a key");
    let message = "Hello, world!";
    let encrypted = encrypt_str(&pub_key, message);
    let decrypted = decrypt_u8(&priv_key, &encrypted);
    assert_eq!(decrypted, message.as_bytes().to_vec());
}

#[test]
fn test_encrypt_decrypt_u8() {
    let (priv_key, pub_key) = generate_keys().expect("failed to generate a key");
    let message = "Hello, world!";
    let encrypted = encrypt_u8(&pub_key, message.as_bytes());
    let decrypted = decrypt_u8(&priv_key, &encrypted);
    assert_eq!(decrypted, message.as_bytes().to_vec());

    // A ciphertext is as long as the modulus, and the padding is random.
    assert_eq!(pub_key.size(), 256);
    assert_eq!(encrypted.len(), pub_key.size());
    let again = encrypt_u8(&pub_key, message.as_bytes());
    assert_ne!(again, encrypted);
    assert_eq!(decrypt_u8(&priv_key, &again), message.as_bytes().to_vec());

    // Bytes that are no ciphertext do not decrypt.
    assert_eq!(try_decrypt_u8(&priv_key, &[1, 2, 3]), None);
    assert_eq!(try_decrypt_u8(&priv_key, &encrypted), Some(message.as_bytes().to_vec()));
    assert_eq!(try_decrypt_str(&priv_key, "not a ciphertext"), None);
}

#[test]
fn test_public_key_checks() {
    // 15 with exponent 3 is accepted.
    let k = PublicKey::from_parts(vec![15], vec![3]).expect("valid key");
    assert_eq!(k.modulus_bytes(), &[15u8][..]);
    assert_eq!(k.exponent_bytes(), &[3u8][..]);
    assert_eq!(k.size(), 1);
    // An even modulus, an even exponent, an exponent not below the modulus,
    // an exponent below 2, and a leading zero byte are refused.
    assert!(PublicKey::from_parts(vec![14], vec![3]).is_none());
    assert!(PublicKey::from_parts(vec![15], vec![4]).is_none());
    assert!(PublicKey::from_parts(vec![15], vec![17]).is_none());
    assert!(PublicKey::from_parts(vec![15], vec![1]).is_none());
    assert!(PublicKey::from_parts(vec![0, 15], vec![3]).is_none());
    // A modulus above 4096 bits is accepted: the crate's checks set no limit.
    let mut big = vec![0xffu8; 600];
    big[599] = 0xfd;
    let k = PublicKey::from_parts(big.clone(), vec![3]).expect("valid key");
    assert_eq!(k.size(), 600);
    assert_eq!(encrypt_u8(&k, b"hi").len(), 600);
}

#[test]
fn test_private_key_checks() {
    // 15 = 3 * 5 with e = 3 and d = 3 (3 * 3 = 9 = 1 mod lcm(2, 4)).
    assert!(PrivateKey::from_parts(vec![15], vec![3], vec![3], vec![vec![3], vec![5]]).is_some());
    // Primes that do not multiply to the modulus are refused, and so are
    // fewer than two primes.
    assert!(PrivateKey::from_parts(vec![15], vec![3], vec![3], vec![vec![3], vec![7]]).is_none());
    assert!(PrivateKey::from_parts(vec![15], vec![3], vec![3], vec![vec![15]]).is_none());
    assert!(PrivateKey::from_parts(vec![15], vec![3], vec![3], Vec::new()).is_none());
    // So is a modulus with a leading zero byte.
    assert!(PrivateKey::from_parts(vec![0, 15], vec![3], vec![3], vec![vec![3], vec![5]]).is_none());
}

#[test]
fn test_public_key_bincode() {
    let k = PublicKey::from_parts(vec![15], vec![3]).expect("valid key");
    let bytes = k.to_bincode();
    // Each number is a length-prefixed list of its base-2^32 digits.
    assert_eq!(
        bytes,
        vec![1, 0, 0, 0, 0, 0, 0, 0, 15, 0, 0, 0, 1, 0, 0, 0, 0, 0, 0, 0, 3, 0, 0, 0]
    );
    let rsa_key = RsaPublicKey::new(BigUint::from_bytes_be(&[15]), BigUint::from_bytes_be(&[3]))
        .expect("valid key");
    assert_eq!(bytes, bincode::serialize(&rsa_key).expect("serializable"));
    let back = PublicKey::from_bincode(&bytes).expect("a key");
    assert_eq!(back.modulus_bytes(), &[15u8][..]);
    assert_eq!(back.exponent_bytes(), &[3u8][..]);

    // A leading zero byte of the exponent is not kept.
    let k = PublicKey::from_parts(vec![15], vec![0, 3]).expect("valid key");
    let back = PublicKey::from_bincode(&k.to_bincode()).expect("a key");
    assert_eq!(back.exponent_bytes(), &[3u8][..]);

    // Bytes that carry no key, or a key that the library refuses.
    assert!(PublicKey::from_bincode(&[1, 2, 3]).is_none());
    let even = RsaPublicKey::new_unchecked(BigUint::from_bytes_be(&[14]), BigUint::from_bytes_be(&[3]));
    assert!(PublicKey::from_bincode(&bincode::serialize(&even).expect("serializable")).is_none());
}

#[test]
fn test_key_exchange() {
    let (priv_key, pub_key) = generate_keys().expect("failed to generate a key");
    let received = PublicKey::from_bincode(&pub_key.to_bincode()).expect("a key");
    assert_eq!(received.modulus_bytes(), pub_key.modulus_bytes());
    assert_eq!(received.exponent_bytes(), &[1u8, 0, 1][..]);
    let ct = encrypt_u8(&received, b"1 2");
    assert_eq!(decrypt_u8(&priv_key, &ct), b"1 2".to_vec());
}
