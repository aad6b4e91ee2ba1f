use passman::cryptman::{decrypt_file_mem_gen_key, encrypt_file_mem_with_salt, pass_2_key};
use passman::StoreError;
use rand::RngCore;

fn fresh_nonce() -> Vec<u8> {
    let mut n = vec![0u8; 24];
    rand::rngs::OsRng.fill_bytes(&mut n);
    n
}

#[test]
fn envelope_round_trip() {
    let payload = b"tiny secret".to_vec();
    let (key, salt) = pass_2_key("hunter2", vec![0u8; 32]).unwrap();
    let nonce = fresh_nonce();
    let env = encrypt_file_mem_with_salt(payload.clone(), &key, &nonce, &salt).unwrap();
    assert_eq!(env.len(), payload.len() + 16 + 56);
    // the ciphertext region is not the plaintext
    assert_ne!(&env[..payload.len()], &payload[..]);
    let opened = decrypt_file_mem_gen_key(env, "hunter2").unwrap();
    assert_eq!(opened, payload);
}

fn sealed_single_byte_envelope() -> Vec<u8> {
    let payload = vec![7u8];
    let (key, salt) = pass_2_key("pw", vec![0u8; 32]).unwrap();
    let nonce = fresh_nonce();
    encrypt_file_mem_with_salt(payload, &key, &nonce, &salt).unwrap()
}

fn assert_tampered_fails(env: &[u8], positions: std::ops::Range<usize>) {
    for pos in positions {
        let mut bad = env.to_vec();
        bad[pos] ^= 0x01;
        match decrypt_file_mem_gen_key(bad, "pw") {
            Err(StoreError::AuthenticationFailed) => {}
            other => panic!(
                "byte {} flipped yet open did not fail with AuthenticationFailed: ok={}",
                pos,
                other.is_ok()
            ),
        }
    }
}

#[test]
fn tamper_detection_front_half() {
    // ciphertext and tag occupy everything before the 56-byte trailer
    let env = sealed_single_byte_envelope();
    let ct_len = env.len() - 56;
    assert_tampered_fails(&env, 0..ct_len / 2);
}

#[test]
fn tamper_detection_back_half() {
    let env = sealed_single_byte_envelope();
    let ct_len = env.len() - 56;
    assert_tampered_fails(&env, ct_len / 2..ct_len);
}

#[test]
fn wrong_password_fails() {
    let payload = b"s".to_vec();
    let (key, salt) = pass_2_key("right horse", vec![0u8; 32]).unwrap();
    let nonce = fresh_nonce();
    let env = encrypt_file_mem_with_salt(payload, &key, &nonce, &salt).unwrap();
    match decrypt_file_mem_gen_key(env, "wrong horse") {
        Err(StoreError::AuthenticationFailed) => {}
        other => panic!("wrong password did not fail with AuthenticationFailed: {:?}", other.is_ok()),
    }
}

#[test]
fn fresh_nonces_give_distinct_envelopes() {
    let payload = b"same payload".to_vec();
    let (key, salt) = pass_2_key("pw", vec![0u8; 32]).unwrap();
    let n1 = fresh_nonce();
    let n2 = fresh_nonce();
    assert_ne!(n1, n2);
    let e1 = encrypt_file_mem_with_salt(payload.clone(), &key, &n1, &salt).unwrap();
    let e2 = encrypt_file_mem_with_salt(payload, &key, &n2, &salt).unwrap();
    assert_ne!(e1, e2);
}

#[test]
fn short_envelope_is_malformed() {
    let data = vec![0u8; 56];
    match decrypt_file_mem_gen_key(data, "pw") {
        Err(StoreError::MalformedEnvelope) => {}
        other => panic!("short envelope accepted: {:?}", other.is_ok()),
    }
}

#[test]
fn nonzero_salt_is_kept() {
    let salt_in = vec![9u8; 32];
    let (_, salt_out) = pass_2_key("pw", salt_in.clone()).unwrap();
    assert_eq!(salt_out, salt_in);
    // the same password and salt derive the same key
    let (k1, _) = pass_2_key("pw", salt_in.clone()).unwrap();
    let (k2, _) = pass_2_key("pw", salt_in.clone()).unwrap();
    assert_eq!(k1, k2);
    assert_eq!(k1.len(), 32);
    // the key is a digest, not the salt or the password handed back
    assert_ne!(k1, salt_in);
    assert_ne!(k1, b"pw".to_vec());
}
