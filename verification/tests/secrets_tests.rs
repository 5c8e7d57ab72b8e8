use client_core::values::{
    Array, EcdsaDigestMessage, EcdsaPrivateKey, EcdsaPublicKey, EcdsaSignature, EddsaMessage,
    EddsaPrivateKey, EddsaPublicKey, EddsaSignature, NadaValue, SecretBlob, SecretBoolean,
    SecretInteger, SecretUnsignedInteger, StoreId,
};
use client_core::ValueError;

#[test]
fn test_secret_integer() {
    let integer = SecretInteger::new(22);
    assert_eq!(integer.get_value(), 22);
}

#[test]
fn secrets_tests_test_secret_unsigned_integer() {
    let integer = SecretUnsignedInteger::new(22);
    assert_eq!(integer.get_value(), 22);
}

#[test]
fn test_secret_boolean() {
    let boolean = SecretBoolean::new(true);
    assert!(boolean.get_value());
}

#[test]
fn test_secret_array_of_integers() {
    let array =
        Array::new(vec![NadaValue::SecretInteger(22), NadaValue::SecretInteger(44)]).unwrap();
    assert_eq!(array.__len__(), 2);
}

#[test]
fn test_secret_array_int_value_eq() {
    let array =
        Array::new(vec![NadaValue::SecretInteger(22), NadaValue::SecretInteger(44)]).unwrap();
    let int_1 = SecretInteger::new(22);
    let int_2 = SecretInteger::new(44);
    assert_eq!(array.get_value(), vec![int_1.inner, int_2.inner]);
}

#[test]
fn test_secret_blob() {
    let blob = SecretBlob::new(vec![1, 2, 3]);
    assert_eq!(blob.get_value(), vec![1, 2, 3]);
}

#[test]
fn test_ecdsa_private_key() {
    let ecdsa_pk_ba = vec![7u8; 32];
    let ecdsa_pk = EcdsaPrivateKey::new(ecdsa_pk_ba.clone()).unwrap();
    assert_eq!(ecdsa_pk.get_value(), ecdsa_pk_ba);
}

#[test]
fn test_bad_ecdsa_private_key() {
    // Key creation fails with a byte string whose size is not 32.
    let ecdsa_pk_ba = vec![7u8; 33];
    assert!(EcdsaPrivateKey::new(ecdsa_pk_ba).is_err());
    // Key creation fails with the zero key.
    let zero_key_ba = vec![0u8; 32];
    assert!(EcdsaPrivateKey::new(zero_key_ba).is_err());
}

#[test]
fn test_ecdsa_digest_message() {
    let ecdsa_digest_msg_ba = vec![9u8; 32];
    let ecdsa_digest_msg = EcdsaDigestMessage::new(ecdsa_digest_msg_ba.clone()).unwrap();
    assert_eq!(ecdsa_digest_msg.get_value(), ecdsa_digest_msg_ba);
}

#[test]
fn test_bad_ecdsa_digest_message() {
    // Digest creation fails with a byte string whose size is not 32.
    let ecdsa_pk_ba = vec![9u8; 33];
    assert_eq!(EcdsaDigestMessage::new(ecdsa_pk_ba), Err(ValueError::FormatError));
}

#[test]
fn test_ecdsa_signature() {
    let r = vec![11u8; 10];
    let s = vec![13u8; 10];
    let sig = EcdsaSignature::new(r, s).unwrap();
    let (r_bytes, s_bytes) = sig.get_value();
    assert_eq!(r_bytes.len(), 32);
    assert_eq!(s_bytes.len(), 32);
}

#[test]
fn test_bad_ecdsa_signature() {
    // Signature creation fails with a component far larger than the order.
    let r = vec![11u8; 1234];
    let s = vec![13u8; 32];
    assert_eq!(EcdsaSignature::new(r, s), Err(ValueError::FormatError));
}

#[test]
fn test_ecdsa_public_key() {
    let key_bytes = vec![3u8; 33];
    let ecdsa_pk = EcdsaPublicKey::new(key_bytes.clone()).unwrap();
    assert_eq!(ecdsa_pk.get_value(), key_bytes);
}

#[test]
fn test_store_id() {
    let store_id_bytes = vec![5u8; 16];
    let store_id = StoreId::new(store_id_bytes.clone()).unwrap();
    assert_eq!(store_id.get_value(), store_id_bytes);
}

#[test]
fn test_eddsa_private_key() {
    let eddsa_pk_ba = vec![
        84u8, 104, 105, 115, 32, 109, 101, 115, 115, 97, 103, 101, 32, 105, 115, 32, 101, 120,
        97, 99, 116, 108, 121, 32, 51, 50, 32, 98, 121, 116, 101, 0,
    ];
    let eddsa_pk = EddsaPrivateKey::new(eddsa_pk_ba.clone()).unwrap();
    assert_eq!(eddsa_pk.get_value(), eddsa_pk_ba);
}

#[test]
fn test_bad_eddsa_private_key() {
    // Key creation fails with a byte string whose size is not 32.
    let eddsa_pk_ba = vec![7u8; 33];
    assert!(EddsaPrivateKey::new(eddsa_pk_ba).is_err());
    // Key creation fails with the zero key.
    let zero_key_ba = vec![0u8; 32];
    assert!(EddsaPrivateKey::new(zero_key_ba).is_err());
}

#[test]
fn test_eddsa_public_key() {
    let key_bytes = vec![6u8; 32];
    let eddsa_pk = EddsaPublicKey::new(key_bytes.clone()).unwrap();
    assert_eq!(eddsa_pk.get_value(), key_bytes);
}

#[test]
fn test_eddsa_message() {
    let eddsa_msg_ba = vec![17u8; 45];
    let eddsa_msg = EddsaMessage::new(eddsa_msg_ba.clone());
    assert_eq!(eddsa_msg.get_value(), eddsa_msg_ba);
}

#[test]
fn test_eddsa_signature() {
    let r = vec![
        6u8, 125, 237, 201, 123, 78, 227, 152, 251, 46, 236, 39, 224, 73, 18, 4, 103, 85, 109,
        69, 181, 210, 56, 234, 17, 157, 209, 38, 242, 124, 237, 250,
    ];
    let z = vec![21u8; 10];
    let sig = EddsaSignature::new(r.clone(), z).unwrap();
    let (r_bytes, z_bytes) = sig.get_value();
    assert_eq!(r_bytes, r);
    assert_eq!(z_bytes.len(), 32);
}
