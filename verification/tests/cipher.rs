use crdt_enc::cipher::{EncHandler, DATA_VERSION, KEY_VERSION};
use crdt_enc::error::Error;
use crdt_enc::utils::version_bytes::VersionBytes;

#[test]
fn gen_key_shape() {
    let handler = EncHandler::new();
    let key = handler.gen_key().unwrap();
    assert_eq!(key.version(), KEY_VERSION);
    assert_eq!(key.as_ref().len(), 32);
}

#[test]
fn encrypt_decrypt_round_trip() {
    let handler = EncHandler::new();
    let key = handler.gen_key().unwrap();
    let msg = b"attack at dawn".to_vec();
    let ct = handler.encrypt(key.as_version_bytes_ref(), &msg).unwrap();
    let pt = handler.decrypt(key.as_version_bytes_ref(), &ct).unwrap();
    assert_eq!(pt, msg);
}

#[test]
fn encrypt_decrypt_round_trip_empty() {
    let handler = EncHandler::new();
    let key = handler.gen_key().unwrap();
    let ct = handler.encrypt(key.as_version_bytes_ref(), &[]).unwrap();
    let pt = handler.decrypt(key.as_version_bytes_ref(), &ct).unwrap();
    assert_eq!(pt, Vec::<u8>::new());
}

#[test]
fn ciphertext_is_framed_with_data_version() {
    let handler = EncHandler::new();
    let key = handler.gen_key().unwrap();
    let ct = handler.encrypt(key.as_version_bytes_ref(), &[1, 2, 3]).unwrap();
    // the output is a self-describing envelope; a fresh nonce makes two
    // encryptions of one message differ
    let ct2 = handler.encrypt(key.as_version_bytes_ref(), &[1, 2, 3]).unwrap();
    assert_ne!(ct, ct2);
    let _ = DATA_VERSION;
}

#[test]
fn tampering_any_byte_fails() {
    let handler = EncHandler::new();
    let key = handler.gen_key().unwrap();
    let msg = b"integrity".to_vec();
    let ct = handler.encrypt(key.as_version_bytes_ref(), &msg).unwrap();
    for i in 0..ct.len() {
        let mut bad = ct.clone();
        bad[i] ^= 0x01;
        let r = handler.decrypt(key.as_version_bytes_ref(), &bad);
        assert!(r.is_err(), "tampered byte {} was accepted", i);
    }
}

#[test]
fn wrong_key_version_fails_before_aead() {
    let handler = EncHandler::new();
    let key = handler.gen_key().unwrap();
    let ct = handler.encrypt(key.as_version_bytes_ref(), &[9, 9]).unwrap();
    let wrong = VersionBytes::new(0xdead_beef, key.as_ref().to_vec());
    match handler.decrypt(wrong.as_version_bytes_ref(), &ct) {
        Err(Error::VersionMismatch { expected, got }) => {
            assert_eq!(expected, vec![KEY_VERSION]);
            assert_eq!(got, 0xdead_beef);
        },
        other => panic!("expected a version mismatch, got {:?}", other.map(|_| ())),
    }
    // encryption is gated the same way
    match handler.encrypt(wrong.as_version_bytes_ref(), &[1]) {
        Err(Error::VersionMismatch { got, .. }) => assert_eq!(got, 0xdead_beef),
        other => panic!("expected a version mismatch, got {:?}", other.map(|_| ())),
    }
}

#[test]
fn wrong_key_material_fails() {
    let handler = EncHandler::new();
    let key = handler.gen_key().unwrap();
    let other = handler.gen_key().unwrap();
    let ct = handler.encrypt(key.as_version_bytes_ref(), &[5, 5, 5]).unwrap();
    assert!(handler.decrypt(other.as_version_bytes_ref(), &ct).is_err());
}

#[test]
fn short_key_fails() {
    let handler = EncHandler::new();
    let short = VersionBytes::new(KEY_VERSION, vec![0u8; 16]);
    assert!(handler.encrypt(short.as_version_bytes_ref(), &[1]).is_err());
    assert!(handler.decrypt(short.as_version_bytes_ref(), &[0u8; 64]).is_err());
}

#[test]
fn malformed_envelope_is_rejected() {
    let handler = EncHandler::new();
    let key = handler.gen_key().unwrap();
    let r = handler.decrypt(key.as_version_bytes_ref(), &[0u8; 20]);
    assert!(matches!(r, Err(Error::Serialization)));
}
