use synaptic_mesh::crypto::{PostQuantumSignature, QuDAGCrypto, QuantumFingerprint, SecretKey, SignatureAlgorithm};
use synaptic_mesh::dag::DAGNode;
use synaptic_mesh::error::QuDAGError;

#[test]
fn test_ed25519_keygen() {
    let mut crypto = QuDAGCrypto::new();

    assert!(crypto.generate_signing_keypair().is_ok());
    assert!(crypto.signing_public_key().is_ok());
}

#[test]
fn test_x25519_keygen() {
    let mut crypto = QuDAGCrypto::new();

    assert!(crypto.generate_exchange_keypair().is_ok());
    assert!(crypto.exchange_public_key().is_ok());
}

#[test]
fn keys_are_missing_before_generation() {
    let crypto = QuDAGCrypto::new();
    assert!(matches!(crypto.signing_public_key(), Err(QuDAGError::CryptoError(_))));
    assert!(matches!(crypto.exchange_public_key(), Err(QuDAGError::CryptoError(_))));
    assert!(matches!(crypto.sign(b"x"), Err(QuDAGError::CryptoError(_))));
    assert!(matches!(crypto.create_shared_secret(&[0u8; 32]), Err(QuDAGError::CryptoError(_))));
}

#[test]
fn test_quantum_fingerprint() {
    let crypto = QuDAGCrypto::new();
    let data = b"test data";

    let fingerprint = crypto.generate_quantum_fingerprint(data);
    assert!(crypto.verify_quantum_fingerprint(&fingerprint, data).unwrap());

    let wrong_data = b"wrong data";
    assert!(!crypto.verify_quantum_fingerprint(&fingerprint, wrong_data).unwrap());
}

#[test]
fn fingerprint_hashes_prefix_input_and_key() {
    let crypto = QuDAGCrypto::new();
    let fingerprint = crypto.generate_quantum_fingerprint(b"abc");
    let mut expected = b"qudag-quantum-fingerprint-v1".to_vec();
    expected.extend_from_slice(b"abc");
    assert_eq!(fingerprint.hash, blake3::hash(&expected).as_bytes().to_vec());
    assert_eq!(fingerprint.algorithm, "BLAKE3-QR");

    let mut signer = QuDAGCrypto::new();
    signer.generate_signing_keypair().unwrap();
    let keyed = signer.generate_quantum_fingerprint(b"abc");
    let mut with_key = expected.clone();
    with_key.extend_from_slice(&signer.signing_public_key().unwrap());
    assert_eq!(keyed.hash, blake3::hash(&with_key).as_bytes().to_vec());
}

#[test]
fn test_dark_domain() {
    let crypto = QuDAGCrypto::new();
    let data = b"test.example.com";

    let fingerprint = crypto.generate_quantum_fingerprint(data);
    let dark_domain = fingerprint.to_dark_domain();

    assert!(dark_domain.ends_with(".dark"));
    assert!(dark_domain.len() > 5);

    let parsed = QuantumFingerprint::from_dark_domain(&dark_domain);
    assert!(parsed.is_ok());
}

#[test]
fn dark_domain_round_trip_and_errors() {
    let fingerprint = QuantumFingerprint {
        hash: (0u8..32).collect(),
        algorithm: "BLAKE3-QR".to_string(),
        timestamp: 7,
    };
    let domain = fingerprint.to_dark_domain();
    assert_eq!(domain, "000102030405060708090a0b0c0d0e0f.dark");
    let parsed = QuantumFingerprint::from_dark_domain(&domain).unwrap();
    assert_eq!(parsed.hash, (0u8..16).collect::<Vec<u8>>());
    assert_eq!(parsed.timestamp, 0);
    assert_eq!(QuantumFingerprint::from_dark_domain("ABcd.dark").unwrap().hash, vec![0xab, 0xcd]);
    assert!(matches!(QuantumFingerprint::from_dark_domain("abcd.onion"), Err(QuDAGError::CryptoError(_))));
    assert!(matches!(QuantumFingerprint::from_dark_domain("abc.dark"), Err(QuDAGError::CryptoError(_))));
    assert!(matches!(QuantumFingerprint::from_dark_domain("zz.dark"), Err(QuDAGError::CryptoError(_))));
}

#[test]
fn test_encryption_decryption() {
    let mut crypto1 = QuDAGCrypto::new();
    let mut crypto2 = QuDAGCrypto::new();

    crypto1.generate_exchange_keypair().unwrap();
    crypto2.generate_exchange_keypair().unwrap();

    let pub1 = crypto1.exchange_public_key().unwrap();
    let pub2 = crypto2.exchange_public_key().unwrap();

    let shared1 = crypto1.create_shared_secret(&pub2).unwrap();
    let shared2 = crypto2.create_shared_secret(&pub1).unwrap();

    let plaintext = b"Hello, QuDAG!";
    let encrypted = crypto1.encrypt(plaintext, &shared1).unwrap();
    let decrypted = crypto2.decrypt(&encrypted, &shared2).unwrap();

    assert_eq!(plaintext, &decrypted[..]);
}

#[test]
fn decryption_failures() {
    let mut crypto = QuDAGCrypto::new();
    crypto.generate_exchange_keypair().unwrap();
    let other = crypto.exchange_public_key().unwrap();
    let shared = crypto.create_shared_secret(&other).unwrap();
    assert!(matches!(crypto.decrypt(&[1, 2, 3], &shared), Err(QuDAGError::CryptoError(_))));
    let mut encrypted = crypto.encrypt(b"secret", &shared).unwrap();
    assert_eq!(encrypted.len(), 12 + 6 + 16);
    let last = encrypted.len() - 1;
    encrypted[last] ^= 1;
    assert!(matches!(crypto.decrypt(&encrypted, &shared), Err(QuDAGError::CryptoError(_))));
    assert!(matches!(crypto.create_shared_secret(&[1, 2, 3]), Err(QuDAGError::CryptoError(_))));
}

#[test]
fn signed_nodes_verify() {
    let mut crypto = QuDAGCrypto::new();
    crypto.generate_signing_keypair().unwrap();
    let mut node = DAGNode::genesis(b"payload".to_vec());
    let sig = crypto.sign(&node.data).unwrap();
    assert_eq!(sig.algorithm, SignatureAlgorithm::Ed25519);
    assert_eq!(sig.signature.len(), 64);
    assert_eq!(sig.public_key, crypto.signing_public_key().unwrap());
    node.sign(sig);
    assert!(crypto.verify_signature(&node).is_ok());

    let mut tampered = node.clone();
    tampered.data.push(0);
    assert!(matches!(crypto.verify_signature(&tampered), Err(QuDAGError::CryptoError(_))));

    let unsigned = DAGNode::genesis(b"x".to_vec());
    assert!(matches!(crypto.verify_signature(&unsigned), Err(QuDAGError::ValidationError(_))));

    let mut wrong_algo = node.clone();
    wrong_algo.sign(PostQuantumSignature {
        algorithm: SignatureAlgorithm::MLDSA,
        signature: vec![0; 64],
        public_key: vec![0; 32],
    });
    assert!(matches!(crypto.verify_signature(&wrong_algo), Err(QuDAGError::CryptoError(_))));

    let mut short_key = node.clone();
    short_key.sign(PostQuantumSignature {
        algorithm: SignatureAlgorithm::Ed25519,
        signature: vec![0; 64],
        public_key: vec![0; 31],
    });
    assert!(matches!(crypto.verify_signature(&short_key), Err(QuDAGError::CryptoError(_))));
}

#[test]
fn peer_keys_are_kept_by_peer() {
    let mut crypto = QuDAGCrypto::new();
    crypto.register_peer_key("peer-a".to_string(), vec![1, 2, 3]);
    crypto.register_peer_key("peer-b".to_string(), vec![4]);
    crypto.register_peer_key("peer-a".to_string(), vec![9]);
    assert_eq!(crypto.get_peer_key(&"peer-a".to_string()), Some(vec![9]));
    assert_eq!(crypto.get_peer_key(&"peer-b".to_string()), Some(vec![4]));
    assert_eq!(crypto.get_peer_key(&"peer-c".to_string()), None);
}

#[test]
fn secret_key_holds_its_bytes() {
    let key = SecretKey::new(vec![1, 2, 3]);
    assert_eq!(key.as_bytes(), &[1, 2, 3]);
}

#[test]
fn a_copied_secret_key_keeps_its_bytes() {
    let k = SecretKey::new(vec![1, 2, 3]);
    let c = k.clone();
    assert_eq!(c.as_bytes(), &[1u8, 2, 3][..]);
    assert_eq!(k.as_bytes(), &[1u8, 2, 3][..]);
}

#[test]
fn short_ciphertext_is_refused_with_its_message() {
    let crypto = QuDAGCrypto::new();
    match crypto.decrypt(&[0u8; 11], &[7u8; 32]) {
        Err(QuDAGError::CryptoError(m)) => assert_eq!(m, "Invalid encrypted data"),
        other => panic!("unexpected {:?}", other),
    }
}

#[test]
fn tampered_ciphertext_fails_with_the_aead_message() {
    let crypto = QuDAGCrypto::new();
    let key = [9u8; 32];
    let mut sealed = crypto.encrypt(b"hello", &key).unwrap();
    let last = sealed.len() - 1;
    sealed[last] ^= 1;
    match crypto.decrypt(&sealed, &key) {
        Err(QuDAGError::CryptoError(m)) => assert_eq!(m, "Decryption failed: aead::Error"),
        other => panic!("unexpected {:?}", other),
    }
}

#[test]
fn crypto_errors_carry_their_messages() {
    let crypto = QuDAGCrypto::new();
    match crypto.sign(b"x") {
        Err(QuDAGError::CryptoError(m)) => assert_eq!(m, "Ed25519 keypair not initialized"),
        other => panic!("unexpected {:?}", other),
    }
    match crypto.create_shared_secret(&[1u8; 32]) {
        Err(QuDAGError::CryptoError(m)) => assert_eq!(m, "X25519 secret not initialized"),
        other => panic!("unexpected {:?}", other),
    }
    let mut keyed = QuDAGCrypto::new();
    keyed.generate_exchange_keypair().unwrap();
    match keyed.create_shared_secret(&[1u8; 31]) {
        Err(QuDAGError::CryptoError(m)) => assert_eq!(m, "Invalid peer public key size"),
        other => panic!("unexpected {:?}", other),
    }
    match QuantumFingerprint::from_dark_domain("abc.onion") {
        Err(QuDAGError::CryptoError(m)) => assert_eq!(m, "Invalid .dark domain"),
        other => panic!("unexpected {:?}", other),
    }
    match QuantumFingerprint::from_dark_domain("zz.dark") {
        Err(QuDAGError::CryptoError(m)) => assert!(m.starts_with("Invalid hex in .dark domain: ")),
        other => panic!("unexpected {:?}", other),
    }
}

#[test]
fn keys_come_from_the_drawn_bytes() {
    // RFC 8032, Ed25519 test 1
    let seed = hex::decode("9d61b19deffd5a60ba844af492ec2cc44449c5697b326919703bac031cae7f60").unwrap();
    let mut c = QuDAGCrypto::new();
    c.generate_signing_keypair_from(seed).unwrap();
    assert_eq!(
        hex::encode(c.signing_public_key().unwrap()),
        "d75a980182b10ab7d54bfed3c964073a0ee172f3daa62325af021a68f707511a"
    );
    // RFC 7748, section 6.1: Alice's key pair
    let secret = hex::decode("77076d0a7318a57d3c16c17251b26645df4c2f87ebc0992ab177fba51db92c2a").unwrap();
    c.generate_exchange_keypair_from(secret).unwrap();
    assert_eq!(
        hex::encode(c.exchange_public_key().unwrap()),
        "8520f0098930a754748b7ddcb43ef75a0dbf3a0d26381af4eba4a98eaa9b4e6a"
    );
}

#[test]
fn encryption_with_a_given_nonce_matches_the_published_vector() {
    // AES-256-GCM with an all-zero key and nonce: the empty plaintext seals
    // to its tag alone
    let crypto = QuDAGCrypto::new();
    let out = crypto.encrypt_with_nonce(b"", &[0u8; 32], &[0u8; 12]).unwrap();
    assert_eq!(hex::encode(&out[..12]), "000000000000000000000000");
    assert_eq!(hex::encode(&out[12..]), "530f8afbc74536b9a963b4f1c4cb738b");
    assert_eq!(crypto.decrypt(&out, &[0u8; 32]).unwrap(), Vec::<u8>::new());
}
