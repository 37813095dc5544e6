use crypto::digest::Digest;
use transafe_server::crypto_functional::{
    from_base64, generate_key, sign_and_encrypt, to_base64, verify_and_decrypt, DecriptionError,
};

fn zero_key() -> Vec<u8> {
    vec![0u8; 16]
}

fn some_key() -> Vec<u8> {
    (1u8..=16u8).collect()
}

#[test]
fn round_trip_hi_zero_key() {
    let key = zero_key();
    let plain = b"hi".to_vec();
    let envelope = sign_and_encrypt(&plain, &key);
    let back = verify_and_decrypt(&envelope, &key).unwrap();
    let mut expected = b"hi".to_vec();
    expected.extend_from_slice(&[0u8; 14]);
    assert_eq!(back, expected);
}

#[test]
fn round_trip_whole_blocks() {
    let key = some_key();
    let plain: Vec<u8> = (0u8..32u8).collect();
    let envelope = sign_and_encrypt(&plain, &key);
    let back = verify_and_decrypt(&envelope, &key).unwrap();
    assert_eq!(back, plain);
}

#[test]
fn round_trip_empty() {
    let key = some_key();
    let plain: Vec<u8> = vec![];
    let envelope = sign_and_encrypt(&plain, &key);
    let back = verify_and_decrypt(&envelope, &key).unwrap();
    assert_eq!(back, plain);
}

#[test]
fn round_trip_long_uneven() {
    let key = some_key();
    let plain: Vec<u8> = (0u8..100u8).collect();
    let envelope = sign_and_encrypt(&plain, &key);
    let back = verify_and_decrypt(&envelope, &key).unwrap();
    let mut expected = plain.clone();
    expected.extend_from_slice(&[0u8; 12]);
    assert_eq!(back, expected);
}

#[test]
fn envelope_shape_and_digest() {
    let key = some_key();
    let plain = b"payload".to_vec();
    let envelope = sign_and_encrypt(&plain, &key);
    let sep = envelope.find("===").expect("envelope has a separator");
    assert_eq!(sep, 40);
    let digest = &envelope[..40];
    assert!(digest.chars().all(|c| c.is_ascii_hexdigit() && !c.is_ascii_uppercase()));

    let mut padded = plain.clone();
    padded.resize(16, 0u8);
    let mut hasher = crypto::sha1::Sha1::new();
    hasher.input(&padded);
    assert_eq!(digest, hasher.result_str());

    let ciphertext = base64::decode(&envelope[43..]).expect("ciphertext part is base64");
    assert_eq!(ciphertext.len(), 16);
    assert_ne!(ciphertext, padded, "the cipher must actually transform the block");
}

#[test]
fn tampered_ciphertext_is_rejected() {
    let key = some_key();
    let plain = b"do not touch".to_vec();
    let envelope = sign_and_encrypt(&plain, &key);
    let sep = envelope.find("===").unwrap();
    let digest = &envelope[..sep];
    let mut ciphertext = base64::decode(&envelope[sep + 3..]).unwrap();
    ciphertext[0] ^= 0x01;
    let tampered = format!("{}==={}", digest, base64::encode(&ciphertext));
    assert_eq!(
        verify_and_decrypt(&tampered, &key),
        Err(DecriptionError::VerificationFailure)
    );
}

#[test]
fn wrong_key_is_rejected() {
    let plain = b"secret".to_vec();
    let envelope = sign_and_encrypt(&plain, &zero_key());
    assert_eq!(
        verify_and_decrypt(&envelope, &some_key()),
        Err(DecriptionError::VerificationFailure)
    );
}

#[test]
fn unaligned_ciphertext_is_wrong_format() {
    let key = zero_key();
    let digest: String = "a".repeat(40);
    let envelope = format!("{}==={}", digest, base64::encode(&[1u8, 2, 3, 4, 5]));
    assert_eq!(
        verify_and_decrypt(&envelope, &key),
        Err(DecriptionError::WrongFormat)
    );
}

#[test]
fn missing_separator_is_wrong_format() {
    let key = zero_key();
    assert_eq!(
        verify_and_decrypt("no separator here", &key),
        Err(DecriptionError::WrongFormat)
    );
}

#[test]
fn short_digest_is_wrong_format() {
    let key = zero_key();
    let envelope = format!("abc==={}", base64::encode(&[0u8; 16]));
    assert_eq!(
        verify_and_decrypt(&envelope, &key),
        Err(DecriptionError::WrongFormat)
    );
}

#[test]
fn malformed_base64_is_reported() {
    let key = zero_key();
    let digest: String = "b".repeat(40);
    let envelope = format!("{}===!!!!", digest);
    assert_eq!(
        verify_and_decrypt(&envelope, &key),
        Err(DecriptionError::Base64Failure)
    );
}

#[test]
fn to_base64_exact_value() {
    assert_eq!(to_base64(&vec![104u8, 105u8]), "aGk=");
}

#[test]
fn from_base64_round_trip() {
    let bytes = vec![1u8, 2, 3, 4, 5, 6, 7];
    let encoded = to_base64(&bytes);
    assert_eq!(from_base64(&encoded), Ok(bytes));
}

#[test]
fn from_base64_rejects_garbage() {
    assert_eq!(from_base64("%%%"), Err(DecriptionError::Base64Failure));
}

#[test]
fn generated_key_is_sixteen_bytes() {
    assert_eq!(generate_key().len(), 16);
}
