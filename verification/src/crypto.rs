//! Signatures, key exchange, authenticated encryption and quantum
//! fingerprints for QuDAG.  The primitives themselves come from the
//! `blake3`, `ed25519-dalek`, `x25519-dalek`, `aes-gcm` and `hex` crates;
//! this module holds the protocol logic around them.

use vstd::prelude::*;

use crate::dag::{DAGNode, DAGNodeView};
use crate::error::{text, QuDAGError};
use crate::hexfmt::{hex_bytes, hex_decode, hex_encode, hex_lower, lemma_hex_round_trip, valid_hex};

verus! {

/// Supported signature algorithms.
#[derive(Debug, Clone, Copy, PartialEq, Eq, Structural)]
pub enum SignatureAlgorithm {
    Ed25519,
    MLDSA,
}

/// Signature attached to a DAG node together with the signer's public key.
#[derive(Debug)]
pub struct PostQuantumSignature {
    pub algorithm: SignatureAlgorithm,
    pub signature: Vec<u8>,
    pub public_key: Vec<u8>,
}

/// Mathematical value of a [`PostQuantumSignature`].
pub struct SignatureView {
    pub algorithm: SignatureAlgorithm,
    pub signature: Seq<u8>,
    pub public_key: Seq<u8>,
}

impl View for PostQuantumSignature {
    type V = SignatureView;

    open spec fn view(&self) -> SignatureView {
        SignatureView {
            algorithm: self.algorithm,
            signature: self.signature@,
            public_key: self.public_key@,
        }
    }
}

impl Clone for PostQuantumSignature {
    fn clone(&self) -> (res: Self)
        ensures
            res@ == self@,
    {
        let signature = self.signature.clone();
        let public_key = self.public_key.clone();
        assert(signature@ =~= self.signature@);
        assert(public_key@ =~= self.public_key@);
        PostQuantumSignature { algorithm: self.algorithm, signature, public_key }
    }
}

/// The BLAKE3 digest of a byte string (what `blake3::hash` computes).
pub uninterp spec fn blake3_digest(data: Seq<u8>) -> Seq<u8>;

/// Calls `blake3::hash` on `data` and returns the 32 digest bytes.
/// Trusted: the result is `blake3_digest(data)` and is 32 bytes long
/// (BLAKE3's default output length, as the crate documents).
#[verifier::external_body]
pub(crate) fn blake3_hash(data: &[u8]) -> (digest: Vec<u8>)
    ensures
        digest@ == blake3_digest(data@),
        digest@.len() == 32,
{
    blake3::hash(data).as_bytes().to_vec()
}

// ---------------------------------------------------------------------
// Names for what the primitives compute
// ---------------------------------------------------------------------

/// The Ed25519 public key of a 32-byte secret seed.
pub uninterp spec fn ed25519_public_key(seed: Seq<u8>) -> Seq<u8>;

/// The Ed25519 signature of `msg` under the key with secret seed `seed`.
pub uninterp spec fn ed25519_signature(seed: Seq<u8>, msg: Seq<u8>) -> Seq<u8>;

/// The 32 bytes encode a point that `VerifyingKey::from_bytes` accepts.
pub uninterp spec fn ed25519_key_valid(public_key: Seq<u8>) -> bool;

/// `sig` is a valid Ed25519 signature of `msg` under `public_key`.
pub uninterp spec fn ed25519_accepts(public_key: Seq<u8>, msg: Seq<u8>, sig: Seq<u8>) -> bool;

/// The X25519 public key of a 32-byte secret.
pub uninterp spec fn x25519_public_key(secret: Seq<u8>) -> Seq<u8>;

/// The X25519 shared secret of our `secret` and a peer's public key.
pub uninterp spec fn x25519_shared(secret: Seq<u8>, peer_public: Seq<u8>) -> Seq<u8>;

/// AES-256-GCM encryption (ciphertext with tag), `None` when refused.
pub uninterp spec fn aes_gcm_seal(key: Seq<u8>, nonce: Seq<u8>, plaintext: Seq<u8>) -> Option<Seq<u8>>;

/// AES-256-GCM decryption, `None` when authentication fails.
pub uninterp spec fn aes_gcm_open(key: Seq<u8>, nonce: Seq<u8>, ciphertext: Seq<u8>) -> Option<Seq<u8>>;

#[verifier::external_type_specification]
#[verifier::external_body]
pub struct ExSignatureError(ed25519_dalek::SignatureError);

#[verifier::external_type_specification]
#[verifier::external_body]
pub struct ExAeadError(aes_gcm::Error);

// ---------------------------------------------------------------------
// Trusted calls into the primitives
// ---------------------------------------------------------------------

/// `SigningKey::from_bytes(seed).verifying_key().to_bytes()`.
/// Trusted: the result is `ed25519_public_key(seed)`, 32 bytes long, and
/// a point that `VerifyingKey::from_bytes` accepts (it came from one).
#[verifier::external_body]
fn ed25519_public_key_of(seed: &[u8]) -> (pk: Vec<u8>)
    requires
        seed@.len() == 32,
    ensures
        pk@ == ed25519_public_key(seed@),
        pk@.len() == 32,
        ed25519_key_valid(pk@),
{
    let seed: [u8; 32] = seed.try_into().unwrap();
    ed25519_dalek::SigningKey::from_bytes(&seed).verifying_key().to_bytes().to_vec()
}

/// `Signer::sign` with `SigningKey::from_bytes(seed)`: Ed25519 signing,
/// which is deterministic.  Trusted: the result is
/// `ed25519_signature(seed, message)`, 64 bytes long, and it verifies
/// under the seed's public key.
#[verifier::external_body]
fn ed25519_sign(seed: &[u8], message: &[u8]) -> (sig: Vec<u8>)
    requires
        seed@.len() == 32,
    ensures
        sig@ == ed25519_signature(seed@, message@),
        sig@.len() == 64,
        ed25519_accepts(ed25519_public_key(seed@), message@, sig@),
{
    let seed: [u8; 32] = seed.try_into().unwrap();
    let key = ed25519_dalek::SigningKey::from_bytes(&seed);
    ed25519_dalek::Signer::sign(&key, message).to_bytes().to_vec()
}

/// `VerifyingKey::from_bytes`.  Trusted: it succeeds exactly when
/// `ed25519_key_valid(public_key)`.
#[verifier::external_body]
fn ed25519_check_key(public_key: &[u8]) -> (r: Result<(), ed25519_dalek::SignatureError>)
    requires
        public_key@.len() == 32,
    ensures
        r is Ok <==> ed25519_key_valid(public_key@),
{
    let bytes: [u8; 32] = public_key.try_into().unwrap();
    match ed25519_dalek::VerifyingKey::from_bytes(&bytes) {
        Ok(_) => Ok(()),
        Err(e) => Err(e),
    }
}

/// `Verifier::verify` of a valid public key on a 64-byte signature.
/// Trusted: it succeeds exactly when `ed25519_accepts(public_key, message, sig)`.
#[verifier::external_body]
fn ed25519_verify(public_key: &[u8], message: &[u8], sig: &[u8]) -> (r: Result<(), ed25519_dalek::SignatureError>)
    requires
        public_key@.len() == 32,
        sig@.len() == 64,
        ed25519_key_valid(public_key@),
    ensures
        r is Ok <==> ed25519_accepts(public_key@, message@, sig@),
{
    let bytes: [u8; 32] = public_key.try_into().unwrap();
    let key = ed25519_dalek::VerifyingKey::from_bytes(&bytes).unwrap();
    let sig_bytes: [u8; 64] = sig.try_into().unwrap();
    let signature = ed25519_dalek::Signature::from_bytes(&sig_bytes);
    ed25519_dalek::Verifier::verify(&key, message, &signature)
}

/// `PublicKey::from(&StaticSecret::from(secret))`.  Trusted: the result is
/// `x25519_public_key(secret)` and 32 bytes long.
#[verifier::external_body]
fn x25519_public_of(secret: &[u8]) -> (pk: Vec<u8>)
    requires
        secret@.len() == 32,
    ensures
        pk@ == x25519_public_key(secret@),
        pk@.len() == 32,
{
    let bytes: [u8; 32] = secret.try_into().unwrap();
    let secret = x25519_dalek::StaticSecret::from(bytes);
    x25519_dalek::PublicKey::from(&secret).to_bytes().to_vec()
}

/// `StaticSecret::diffie_hellman`.  Trusted: the result is
/// `x25519_shared(secret, peer_public)`, 32 bytes long, and both sides of
/// an exchange agree on it (the peer's secret with our public key gives
/// the same bytes), as the crate documents.
#[verifier::external_body]
fn x25519_diffie_hellman(secret: &[u8], peer_public: &[u8]) -> (shared: Vec<u8>)
    requires
        secret@.len() == 32,
        peer_public@.len() == 32,
    ensures
        shared@ == x25519_shared(secret@, peer_public@),
        shared@.len() == 32,
        forall|other: Seq<u8>|
            other.len() == 32 && #[trigger] x25519_public_key(other) == peer_public@ ==> x25519_shared(
                other,
                x25519_public_key(secret@),
            ) == shared@,
{
    let bytes: [u8; 32] = secret.try_into().unwrap();
    let peer: [u8; 32] = peer_public.try_into().unwrap();
    let secret = x25519_dalek::StaticSecret::from(bytes);
    secret.diffie_hellman(&x25519_dalek::PublicKey::from(peer)).to_bytes().to_vec()
}

/// `Aes256Gcm::encrypt` with a 32-byte key and a 12-byte nonce.  Trusted:
/// it succeeds exactly when `aes_gcm_seal` gives a ciphertext, returns
/// that ciphertext, and decrypting it with the same key and nonce gives
/// the plaintext back.  It refuses only a plaintext longer than 2^36
/// bytes, so a shorter one is always sealed.
#[verifier::external_body]
fn aes256_gcm_encrypt(key: &[u8], nonce: &[u8], plaintext: &[u8]) -> (r: Result<Vec<u8>, aes_gcm::Error>)
    requires
        key@.len() == 32,
        nonce@.len() == 12,
    ensures
        r is Ok <==> aes_gcm_seal(key@, nonce@, plaintext@) is Some,
        plaintext@.len() <= 0x10_0000_0000 ==> r is Ok,
        r matches Ok(c) ==> aes_gcm_seal(key@, nonce@, plaintext@) == Some(c@) && aes_gcm_open(
            key@,
            nonce@,
            c@,
        ) == Some(plaintext@),
{
    let cipher = <aes_gcm::Aes256Gcm as aes_gcm::KeyInit>::new(aes_gcm::Key::<aes_gcm::Aes256Gcm>::from_slice(key));
    aes_gcm::aead::Aead::encrypt(&cipher, aes_gcm::Nonce::from_slice(nonce), plaintext)
}

/// `Aes256Gcm::decrypt` with a 32-byte key and a 12-byte nonce.  Trusted:
/// the outcome is `aes_gcm_open(key, nonce, ciphertext)`.
#[verifier::external_body]
fn aes256_gcm_decrypt(key: &[u8], nonce: &[u8], ciphertext: &[u8]) -> (r: Result<Vec<u8>, aes_gcm::Error>)
    requires
        key@.len() == 32,
        nonce@.len() == 12,
    ensures
        match r {
            Ok(p) => aes_gcm_open(key@, nonce@, ciphertext@) == Some(p@),
            Err(_) => aes_gcm_open(key@, nonce@, ciphertext@) is None,
        },
{
    let cipher = <aes_gcm::Aes256Gcm as aes_gcm::KeyInit>::new(aes_gcm::Key::<aes_gcm::Aes256Gcm>::from_slice(key));
    aes_gcm::aead::Aead::decrypt(&cipher, aes_gcm::Nonce::from_slice(nonce), ciphertext)
}

/// The text of an AES-GCM failure, by `aes_gcm::Error`'s `Display`, which
/// writes `aead::Error` and nothing else.
#[verifier::external_body]
fn aead_error_text(e: &aes_gcm::Error) -> (s: String)
    ensures
        s@ == "aead::Error"@,
{
    e.to_string()
}

/// `n` bytes from `rand::thread_rng().fill_bytes`.  Only the length is
/// stated: the bytes are random.
#[verifier::external_body]
fn random_bytes(n: usize) -> (v: Vec<u8>)
    ensures
        v@.len() == n,
{
    let mut v = vec![0u8; n];
    rand::RngCore::fill_bytes(&mut rand::thread_rng(), &mut v);
    v
}

// ---------------------------------------------------------------------
// Signatures, key exchange, encryption, fingerprints
// ---------------------------------------------------------------------

/// `s` is an Ed25519 signature with a valid 32-byte key that signs the
/// BLAKE3 digest of `data`.
pub open spec fn signature_accepts(s: SignatureView, data: Seq<u8>) -> bool {
    &&& s.algorithm == SignatureAlgorithm::Ed25519
    &&& s.public_key.len() == 32
    &&& ed25519_key_valid(s.public_key)
    &&& s.signature.len() == 64
    &&& ed25519_accepts(s.public_key, blake3_digest(data), s.signature)
}

/// `m` is the message for the first check of `signature_accepts` that `s`
/// fails; the texts of the Ed25519 errors follow their fixed prefixes.
pub open spec fn signature_failure_message(s: SignatureView, m: Seq<char>) -> bool {
    if s.algorithm != SignatureAlgorithm::Ed25519 {
        m == "Unsupported signature algorithm"@
    } else if s.public_key.len() != 32 {
        m == "Invalid public key length"@
    } else if !ed25519_key_valid(s.public_key) {
        exists|t: Seq<char>| m == "Invalid public key: "@ + t
    } else if s.signature.len() != 64 {
        m == "Invalid signature length"@
    } else {
        exists|t: Seq<char>| m == "Signature verification failed: "@ + t
    }
}

/// The node carries a signature that verifies over its data.
pub open spec fn signature_verifies(n: DAGNodeView) -> bool {
    match n.signature {
        Some(s) => signature_accepts(s, n.data),
        None => false,
    }
}

/// Domain-separation prefix of quantum fingerprints.
pub open spec fn fingerprint_prefix() -> Seq<u8> {
    seq![
        113u8, 117, 100, 97, 103, 45, 113, 117, 97, 110, 116, 117, 109, 45, 102, 105, 110, 103, 101,
        114, 112, 114, 105, 110, 116, 45, 118, 49,
    ]
}

/// The bytes a fingerprint hashes: prefix, input, and the signing public
/// key when there is one.
pub open spec fn fingerprint_input(input: Seq<u8>, seed: Option<Seq<u8>>) -> Seq<u8> {
    match seed {
        Some(sd) => fingerprint_prefix() + input + ed25519_public_key(sd),
        None => fingerprint_prefix() + input,
    }
}

/// Fingerprint of a name for `.dark` addressing.
#[derive(Debug)]
pub struct QuantumFingerprint {
    pub hash: Vec<u8>,
    pub algorithm: String,
    pub timestamp: u64,
}

/// Builds the algorithm label of fingerprints.
fn fingerprint_algorithm() -> (s: String)
    ensures
        s@ == "BLAKE3-QR"@,
{
    text("BLAKE3-QR")
}

impl QuantumFingerprint {
    /// The `.dark` domain: hex of the first 16 hash bytes, then `.dark`.
    pub fn to_dark_domain(&self) -> (d: String)
        requires
            self.hash@.len() >= 16,
        ensures
            d@ == hex_lower(self.hash@.subrange(0, 16)) + ".dark"@,
    {
        let mut head: Vec<u8> = Vec::new();
        let mut i: usize = 0;
        while i < 16
            invariant
                i <= 16,
                self.hash@.len() >= 16,
                head@ == self.hash@.subrange(0, i as int),
            decreases 16 - i,
        {
            head.push(self.hash[i]);
            i = i + 1;
            assert(head@ =~= self.hash@.subrange(0, i as int));
        }
        let encoded = hex_encode(head.as_slice());
        encoded.concat(".dark")
    }

    /// Parses a `.dark` domain: the hex before the `.dark` suffix becomes
    /// the hash prefix.
    pub fn from_dark_domain(domain: &str) -> (r: Result<QuantumFingerprint, QuDAGError>)
        ensures
            !has_dark_suffix(domain@) ==> (r matches Err(QuDAGError::CryptoError(m)) && m@
                == "Invalid .dark domain"@),
            has_dark_suffix(domain@) && !valid_hex(dark_label(domain@)) ==> (r matches Err(
                QuDAGError::CryptoError(m),
            ) && exists|t: Seq<char>| m@ == "Invalid hex in .dark domain: "@ + t),
            has_dark_suffix(domain@) && valid_hex(dark_label(domain@)) ==> (r matches Ok(fp) && fp.hash@
                == hex_bytes(dark_label(domain@)) && fp.algorithm@ == "BLAKE3-QR"@ && fp.timestamp == 0),
    {
        let n = domain.unicode_len();
        proof {
            reveal_strlit(".dark");
        }
        if n < 5 || domain.get_char(n - 5) != '.' || domain.get_char(n - 4) != 'd' || domain.get_char(n - 3)
            != 'a' || domain.get_char(n - 2) != 'r' || domain.get_char(n - 1) != 'k' {
            proof {
                if has_dark_suffix(domain@) {
                    let t = domain@.subrange(n - 5, n as int);
                    assert(t[0] == domain@[n - 5] && t[1] == domain@[n - 4] && t[2] == domain@[n - 3]
                        && t[3] == domain@[n - 2] && t[4] == domain@[n - 1]);
                }
            }
            return Err(QuDAGError::crypto("Invalid .dark domain"));
        }
        proof {
            assert(domain@.subrange(n - 5, n as int) =~= ".dark"@);
        }
        let label = domain.substring_char(0, n - 5);
        match hex_decode(label) {
            Ok(hash) => Ok(QuantumFingerprint { hash, algorithm: fingerprint_algorithm(), timestamp: 0 }),
            Err(e) => {
                let msg = text("Invalid hex in .dark domain: ").concat(e.to_string().as_str());
                Err(QuDAGError::CryptoError(msg))
            },
        }
    }
}

/// The text ends in `.dark`.
pub open spec fn has_dark_suffix(d: Seq<char>) -> bool {
    d.len() >= 5 && d.subrange(d.len() - 5, d.len() as int) == ".dark"@
}

/// The text before the `.dark` suffix.
pub open spec fn dark_label(d: Seq<char>) -> Seq<char> {
    d.subrange(0, d.len() - 5)
}

/// A `.dark` domain made from a fingerprint parses back to the first 16
/// bytes of its hash.
pub proof fn lemma_dark_domain_round_trip(hash: Seq<u8>)
    requires
        hash.len() >= 16,
    ensures
        has_dark_suffix(hex_lower(hash.subrange(0, 16)) + ".dark"@),
        dark_label(hex_lower(hash.subrange(0, 16)) + ".dark"@) == hex_lower(hash.subrange(0, 16)),
        valid_hex(dark_label(hex_lower(hash.subrange(0, 16)) + ".dark"@)),
        hex_bytes(dark_label(hex_lower(hash.subrange(0, 16)) + ".dark"@)) == hash.subrange(0, 16),
{
    let h = hex_lower(hash.subrange(0, 16));
    let d = h + ".dark"@;
    reveal_strlit(".dark");
    assert(d.subrange(d.len() - 5, d.len() as int) =~= ".dark"@);
    assert(d.subrange(0, d.len() - 5) =~= h);
    lemma_hex_round_trip(hash.subrange(0, 16));
}

/// Key material kept apart from other data.
#[derive(Debug)]
pub struct SecretKey {
    inner: Vec<u8>,
}

impl SecretKey {
    /// Wraps key bytes.
    pub fn new(key: Vec<u8>) -> (k: Self)
        ensures
            k.spec_bytes() == key@,
    {
        SecretKey { inner: key }
    }

    /// The key bytes.
    pub closed spec fn spec_bytes(&self) -> Seq<u8> {
        self.inner@
    }

    /// The key bytes.
    pub fn as_bytes(&self) -> (b: &[u8])
        ensures
            b@ == self.spec_bytes(),
    {
        self.inner.as_slice()
    }
}

impl Clone for SecretKey {
    /// A copy holding the same key bytes.
    fn clone(&self) -> (k: Self)
        ensures
            k.spec_bytes() == self.spec_bytes(),
    {
        let inner = self.inner.clone();
        assert(inner@ =~= self.inner@);
        SecretKey { inner }
    }
}

/// Signing, key exchange, encryption and fingerprints for one node.
/// Secrets are 32-byte seeds; peers' verifying keys are kept by the text
/// of their peer identifier.
#[derive(Debug)]
pub struct QuDAGCrypto {
    signing_seed: Option<Vec<u8>>,
    x25519_secret: Option<Vec<u8>>,
    known_keys: Vec<(String, Vec<u8>)>,
}

/// The value held for an optional byte vector.
pub open spec fn opt_bytes(o: Option<Vec<u8>>) -> Option<Seq<u8>> {
    match o {
        Some(v) => Some(v@),
        None => None,
    }
}

impl QuDAGCrypto {
    /// The Ed25519 secret seed, once generated.
    pub closed spec fn spec_signing_seed(&self) -> Option<Seq<u8>> {
        opt_bytes(self.signing_seed)
    }

    /// The X25519 secret, once generated.
    pub closed spec fn spec_exchange_secret(&self) -> Option<Seq<u8>> {
        opt_bytes(self.x25519_secret)
    }

    /// The registered peer keys, by peer identifier text.
    pub closed spec fn spec_peer_keys(&self) -> Map<Seq<char>, Seq<u8>> {
        Map::new(
            |p: Seq<char>| exists|i: int| 0 <= i < self.known_keys@.len() && self.known_keys@[i].0@ == p,
            |p: Seq<char>|
                self.known_keys@[choose|i: int|
                    0 <= i < self.known_keys@.len() && self.known_keys@[i].0@ == p].1@,
        )
    }

    /// Secrets are 32 bytes; each peer is registered once.
    pub closed spec fn wf(&self) -> bool {
        &&& (self.signing_seed matches Some(s) ==> s@.len() == 32)
        &&& (self.x25519_secret matches Some(s) ==> s@.len() == 32)
        &&& forall|i: int, j: int|
            0 <= i < j < self.known_keys@.len() ==> self.known_keys@[i].0@ != self.known_keys@[j].0@
    }

    /// No keys yet.
    pub fn new() -> (c: Self)
        ensures
            c.wf(),
            c.spec_signing_seed() is None,
            c.spec_exchange_secret() is None,
            c.spec_peer_keys() == Map::<Seq<char>, Seq<u8>>::empty(),
    {
        let c = QuDAGCrypto { signing_seed: None, x25519_secret: None, known_keys: Vec::new() };
        assert(c.spec_peer_keys() =~= Map::<Seq<char>, Seq<u8>>::empty());
        c
    }

    /// Generates a fresh Ed25519 key pair (a random 32-byte seed).
    pub fn generate_signing_keypair(&mut self) -> (r: Result<(), QuDAGError>)
        requires
            old(self).wf(),
        ensures
            final(self).wf(),
            r is Ok,
            final(self).spec_signing_seed() matches Some(s) && s.len() == 32,
            final(self).spec_exchange_secret() == old(self).spec_exchange_secret(),
            final(self).spec_peer_keys() == old(self).spec_peer_keys(),
    {
        self.generate_signing_keypair_from(random_bytes(32))
    }

    /// Makes `seed` (32 bytes drawn from a random source) the Ed25519
    /// signing seed; the public key is then `ed25519_public_key(seed)`.
    pub fn generate_signing_keypair_from(&mut self, seed: Vec<u8>) -> (r: Result<(), QuDAGError>)
        requires
            old(self).wf(),
            seed@.len() == 32,
        ensures
            final(self).wf(),
            r is Ok,
            final(self).spec_signing_seed() == Some(seed@),
            final(self).spec_exchange_secret() == old(self).spec_exchange_secret(),
            final(self).spec_peer_keys() == old(self).spec_peer_keys(),
    {
        self.signing_seed = Some(seed);
        Ok(())
    }

    /// Generates a fresh X25519 secret (32 random bytes).
    pub fn generate_exchange_keypair(&mut self) -> (r: Result<(), QuDAGError>)
        requires
            old(self).wf(),
        ensures
            final(self).wf(),
            r is Ok,
            final(self).spec_exchange_secret() matches Some(s) && s.len() == 32,
            final(self).spec_signing_seed() == old(self).spec_signing_seed(),
            final(self).spec_peer_keys() == old(self).spec_peer_keys(),
    {
        self.generate_exchange_keypair_from(random_bytes(32))
    }

    /// Makes `secret` (32 bytes drawn from a random source) the X25519
    /// secret; the public key is then `x25519_public_key(secret)`.
    pub fn generate_exchange_keypair_from(&mut self, secret: Vec<u8>) -> (r: Result<(), QuDAGError>)
        requires
            old(self).wf(),
            secret@.len() == 32,
        ensures
            final(self).wf(),
            r is Ok,
            final(self).spec_exchange_secret() == Some(secret@),
            final(self).spec_signing_seed() == old(self).spec_signing_seed(),
            final(self).spec_peer_keys() == old(self).spec_peer_keys(),
    {
        self.x25519_secret = Some(secret);
        Ok(())
    }

    /// Signs the BLAKE3 digest of `data` with Ed25519.  Fails when no key
    /// pair has been generated.  The signature verifies over `data`.
    pub fn sign(&self, data: &[u8]) -> (r: Result<PostQuantumSignature, QuDAGError>)
        requires
            self.wf(),
        ensures
            self.spec_signing_seed() is None ==> (r matches Err(QuDAGError::CryptoError(m)) && m@
                == "Ed25519 keypair not initialized"@),
            self.spec_signing_seed() matches Some(seed) ==> (r matches Ok(sig) && sig@.algorithm
                == SignatureAlgorithm::Ed25519 && sig@.signature == ed25519_signature(
                seed,
                blake3_digest(data@),
            ) && sig@.public_key == ed25519_public_key(seed) && signature_accepts(sig@, data@)),
    {
        match &self.signing_seed {
            None => Err(QuDAGError::crypto("Ed25519 keypair not initialized")),
            Some(seed) => {
                let digest = blake3_hash(data);
                let signature = ed25519_sign(seed.as_slice(), digest.as_slice());
                let public_key = ed25519_public_key_of(seed.as_slice());
                Ok(PostQuantumSignature { algorithm: SignatureAlgorithm::Ed25519, signature, public_key })
            },
        }
    }

    /// Checks the node's Ed25519 signature over the BLAKE3 digest of its data.
    pub fn verify_signature(&self, node: &DAGNode) -> (r: Result<(), QuDAGError>)
        ensures
            r is Ok <==> signature_verifies(node@),
            node@.signature is None ==> (r matches Err(QuDAGError::ValidationError(m)) && m@
                == "No signature found"@),
            node@.signature matches Some(sig) ==> (!signature_accepts(sig, node@.data) ==> (r matches Err(
                QuDAGError::CryptoError(m),
            ) && signature_failure_message(sig, m@))),
    {
        let signature = match &node.signature {
            Some(s) => s,
            None => {
                return Err(QuDAGError::validation("No signature found"));
            },
        };
        if signature.algorithm != SignatureAlgorithm::Ed25519 {
            return Err(QuDAGError::crypto("Unsupported signature algorithm"));
        }
        if signature.public_key.len() != 32 {
            return Err(QuDAGError::crypto("Invalid public key length"));
        }
        match ed25519_check_key(signature.public_key.as_slice()) {
            Ok(()) => {},
            Err(e) => {
                let msg = text("Invalid public key: ").concat(e.to_string().as_str());
                return Err(QuDAGError::CryptoError(msg));
            },
        }
        if signature.signature.len() != 64 {
            return Err(QuDAGError::crypto("Invalid signature length"));
        }
        let digest = blake3_hash(node.data.as_slice());
        match ed25519_verify(signature.public_key.as_slice(), digest.as_slice(), signature.signature.as_slice()) {
            Ok(()) => Ok(()),
            Err(e) => {
                let msg = text("Signature verification failed: ").concat(e.to_string().as_str());
                Err(QuDAGError::CryptoError(msg))
            },
        }
    }

    /// X25519 shared secret with a peer's 32-byte public key.
    pub fn create_shared_secret(&self, peer_public: &[u8]) -> (r: Result<Vec<u8>, QuDAGError>)
        requires
            self.wf(),
        ensures
            self.spec_exchange_secret() is None ==> (r matches Err(QuDAGError::CryptoError(m)) && m@
                == "X25519 secret not initialized"@),
            self.spec_exchange_secret() is Some && peer_public@.len() != 32 ==> (r matches Err(
                QuDAGError::CryptoError(m),
            ) && m@ == "Invalid peer public key size"@),
            self.spec_exchange_secret() matches Some(sk) ==> (peer_public@.len() == 32 ==> (r matches Ok(
                shared,
            ) && shared@ == x25519_shared(sk, peer_public@) && shared@.len() == 32)),
            self.spec_exchange_secret() matches Some(sk) ==> (r matches Ok(shared) ==> forall|other: Seq<u8>|
                other.len() == 32 && #[trigger] x25519_public_key(other) == peer_public@ ==> x25519_shared(
                    other,
                    x25519_public_key(sk),
                ) == shared@),
    {
        match &self.x25519_secret {
            None => Err(QuDAGError::crypto("X25519 secret not initialized")),
            Some(secret) => {
                if peer_public.len() != 32 {
                    return Err(QuDAGError::crypto("Invalid peer public key size"));
                }
                Ok(x25519_diffie_hellman(secret.as_slice(), peer_public))
            },
        }
    }

    /// AES-256-GCM encryption under a 32-byte shared secret with a fresh
    /// random nonce; the result is the 12-byte nonce followed by the
    /// ciphertext.  Data of at most 2^36 bytes is always encrypted.
    pub fn encrypt(&self, data: &[u8], shared_secret: &[u8]) -> (r: Result<Vec<u8>, QuDAGError>)
        requires
            shared_secret@.len() == 32,
        ensures
            exists|nonce: Seq<u8>|
                nonce.len() == 12 && match #[trigger] aes_gcm_seal(shared_secret@, nonce, data@) {
                    Some(c) => r matches Ok(out) && out@ == nonce + c,
                    None => r matches Err(QuDAGError::CryptoError(m)) && m@ == "Encryption failed: "@
                        + "aead::Error"@,
                },
            data@.len() <= 0x10_0000_0000 ==> r is Ok,
            r matches Ok(out) ==> out@.len() >= 12 && aes_gcm_open(
                shared_secret@,
                out@.subrange(0, 12),
                out@.subrange(12, out@.len() as int),
            ) == Some(data@),
    {
        let nonce = random_bytes(12);
        let r = self.encrypt_with_nonce(data, shared_secret, nonce.as_slice());
        assert(nonce@.len() == 12 && match aes_gcm_seal(shared_secret@, nonce@, data@) {
            Some(c) => r matches Ok(out) && out@ == nonce@ + c,
            None => r matches Err(QuDAGError::CryptoError(m)) && m@ == "Encryption failed: "@ + "aead::Error"@,
        });
        r
    }

    /// AES-256-GCM encryption of `data` under a 32-byte shared secret with
    /// the given 12-byte nonce (which must never be used twice with one
    /// key); the result is the nonce followed by the ciphertext.
    pub fn encrypt_with_nonce(&self, data: &[u8], shared_secret: &[u8], nonce: &[u8]) -> (r: Result<
        Vec<u8>,
        QuDAGError,
    >)
        requires
            shared_secret@.len() == 32,
            nonce@.len() == 12,
        ensures
            match aes_gcm_seal(shared_secret@, nonce@, data@) {
                Some(c) => r matches Ok(out) && out@ == nonce@ + c,
                None => r matches Err(QuDAGError::CryptoError(m)) && m@ == "Encryption failed: "@
                    + "aead::Error"@,
            },
            data@.len() <= 0x10_0000_0000 ==> r is Ok,
            r matches Ok(out) ==> out@.len() >= 12 && aes_gcm_open(
                shared_secret@,
                out@.subrange(0, 12),
                out@.subrange(12, out@.len() as int),
            ) == Some(data@),
    {
        match aes256_gcm_encrypt(shared_secret, nonce, data) {
            Ok(ciphertext) => {
                let mut out: Vec<u8> = Vec::new();
                crate::bytes::push_bytes(&mut out, nonce);
                assert(out@ =~= nonce@);
                crate::bytes::push_bytes(&mut out, ciphertext.as_slice());
                assert(aes_gcm_seal(shared_secret@, nonce@, data@) == Some(ciphertext@));
                assert(out@.subrange(0, 12) =~= nonce@);
                assert(out@.subrange(12, out@.len() as int) =~= ciphertext@);
                Ok(out)
            },
            Err(e) => {
                let msg = text("Encryption failed: ").concat(aead_error_text(&e).as_str());
                assert(aes_gcm_seal(shared_secret@, nonce@, data@) is None);
                Err(QuDAGError::CryptoError(msg))
            },
        }
    }

    /// AES-256-GCM decryption of a nonce-prefixed ciphertext.
    pub fn decrypt(&self, encrypted: &[u8], shared_secret: &[u8]) -> (r: Result<Vec<u8>, QuDAGError>)
        requires
            shared_secret@.len() == 32,
        ensures
            encrypted@.len() < 12 ==> (r matches Err(QuDAGError::CryptoError(m)) && m@
                == "Invalid encrypted data"@),
            encrypted@.len() >= 12 ==> match aes_gcm_open(
                shared_secret@,
                encrypted@.subrange(0, 12),
                encrypted@.subrange(12, encrypted@.len() as int),
            ) {
                Some(p) => r matches Ok(out) && out@ == p,
                None => r matches Err(QuDAGError::CryptoError(m)) && m@ == "Decryption failed: "@
                    + "aead::Error"@,
            },
    {
        if encrypted.len() < 12 {
            return Err(QuDAGError::crypto("Invalid encrypted data"));
        }
        let mut nonce: Vec<u8> = Vec::new();
        let mut body: Vec<u8> = Vec::new();
        let mut i: usize = 0;
        while i < encrypted.len()
            invariant
                12 <= encrypted@.len(),
                i <= encrypted@.len(),
                nonce@ == encrypted@.subrange(0, if i < 12 { i as int } else { 12 }),
                body@ == encrypted@.subrange(12, if i < 12 { 12 } else { i as int }),
            decreases encrypted@.len() - i,
        {
            if i < 12 {
                nonce.push(encrypted[i]);
            } else {
                body.push(encrypted[i]);
            }
            i = i + 1;
            assert(nonce@ =~= encrypted@.subrange(0, if i < 12 { i as int } else { 12 }));
            assert(body@ =~= encrypted@.subrange(12, if i < 12 { 12 } else { i as int }));
        }
        match aes256_gcm_decrypt(shared_secret, nonce.as_slice(), body.as_slice()) {
            Ok(p) => Ok(p),
            Err(e) => {
                let msg = text("Decryption failed: ").concat(aead_error_text(&e).as_str());
                Err(QuDAGError::CryptoError(msg))
            },
        }
    }

    /// BLAKE3 over the fingerprint prefix, the input and the signing public
    /// key (if any).
    fn fingerprint_hash(&self, input: &[u8]) -> (h: Vec<u8>)
        requires
            self.wf(),
        ensures
            h@ == blake3_digest(fingerprint_input(input@, self.spec_signing_seed())),
            h@.len() == 32,
    {
        let mut buf: Vec<u8> = Vec::new();
        let prefix: [u8; 28] = [
            113u8, 117, 100, 97, 103, 45, 113, 117, 97, 110, 116, 117, 109, 45, 102, 105, 110, 103, 101,
            114, 112, 114, 105, 110, 116, 45, 118, 49,
        ];
        crate::bytes::push_bytes(&mut buf, &prefix);
        assert(buf@ =~= fingerprint_prefix());
        crate::bytes::push_bytes(&mut buf, input);
        match &self.signing_seed {
            Some(seed) => {
                let pk = ed25519_public_key_of(seed.as_slice());
                crate::bytes::push_bytes(&mut buf, pk.as_slice());
            },
            None => {},
        }
        blake3_hash(buf.as_slice())
    }

    /// Fingerprint of `input`, stamped with the current time.
    pub fn generate_quantum_fingerprint(&self, input: &[u8]) -> (fp: QuantumFingerprint)
        requires
            self.wf(),
        ensures
            fp.hash@ == blake3_digest(fingerprint_input(input@, self.spec_signing_seed())),
            fp.hash@.len() == 32,
            fp.algorithm@ == "BLAKE3-QR"@,
    {
        let hash = self.fingerprint_hash(input);
        QuantumFingerprint {
            hash,
            algorithm: fingerprint_algorithm(),
            timestamp: crate::clock::now_unix_secs(),
        }
    }

    /// Whether the fingerprint's hash is the one `input` gives now.
    pub fn verify_quantum_fingerprint(&self, fingerprint: &QuantumFingerprint, input: &[u8]) -> (r: Result<
        bool,
        QuDAGError,
    >)
        requires
            self.wf(),
        ensures
            r matches Ok(b) && b == (fingerprint.hash@ == blake3_digest(
                fingerprint_input(input@, self.spec_signing_seed()),
            )),
    {
        let expected = self.fingerprint_hash(input);
        Ok(crate::dag::bytes_eq(&fingerprint.hash, &expected))
    }

    /// The Ed25519 public key.
    pub fn signing_public_key(&self) -> (r: Result<Vec<u8>, QuDAGError>)
        requires
            self.wf(),
        ensures
            self.spec_signing_seed() is None ==> (r matches Err(e) && e is CryptoError),
            self.spec_signing_seed() matches Some(seed) ==> (r matches Ok(pk) && pk@ == ed25519_public_key(
                seed,
            )),
    {
        match &self.signing_seed {
            None => Err(QuDAGError::crypto("Ed25519 keypair not initialized")),
            Some(seed) => Ok(ed25519_public_key_of(seed.as_slice())),
        }
    }

    /// The X25519 public key.
    pub fn exchange_public_key(&self) -> (r: Result<Vec<u8>, QuDAGError>)
        requires
            self.wf(),
        ensures
            self.spec_exchange_secret() is None ==> (r matches Err(e) && e is CryptoError),
            self.spec_exchange_secret() matches Some(sk) ==> (r matches Ok(pk) && pk@ == x25519_public_key(
                sk,
            ) && pk@.len() == 32),
    {
        match &self.x25519_secret {
            None => Err(QuDAGError::crypto("X25519 secret not initialized")),
            Some(secret) => Ok(x25519_public_of(secret.as_slice())),
        }
    }

    /// Registers (or replaces) a peer's verifying key.
    pub fn register_peer_key(&mut self, peer_id: String, public_key: Vec<u8>)
        requires
            old(self).wf(),
        ensures
            final(self).wf(),
            final(self).spec_peer_keys() == old(self).spec_peer_keys().insert(peer_id@, public_key@),
            final(self).spec_signing_seed() == old(self).spec_signing_seed(),
            final(self).spec_exchange_secret() == old(self).spec_exchange_secret(),
    {
        let ghost old_keys = self.known_keys@;
        let ghost old_map = self.spec_peer_keys();
        let mut i: usize = 0;
        while i < self.known_keys.len()
            invariant
                self.known_keys@ == old_keys,
                old_keys == old(self).known_keys@,
                old_map == old(self).spec_peer_keys(),
                self.signing_seed == old(self).signing_seed,
                self.x25519_secret == old(self).x25519_secret,
                old(self).wf(),
                i <= old_keys.len(),
                forall|j: int| 0 <= j < i ==> old_keys[j].0@ != peer_id@,
            decreases old_keys.len() - i,
        {
            if self.known_keys[i].0 == peer_id {
                let old_entry = self.known_keys.remove(i);
                proof {
                    assert(old_entry == old_keys[i as int]);
                }
                self.known_keys.insert(i, (peer_id, public_key));
                proof {
                    let ks = self.known_keys@;
                    assert(ks =~= old_keys.update(i as int, ks[i as int]));
                    assert forall|a: int, b: int| 0 <= a < b < ks.len() implies ks[a].0@ != ks[b].0@ by {
                        assert(ks[a].0@ == old_keys[a].0@ && ks[b].0@ == old_keys[b].0@);
                    }
                    assert forall|p: Seq<char>| #[trigger] self.spec_peer_keys().contains_key(p) <==> old_map.insert(
                        peer_id@,
                        public_key@,
                    ).contains_key(p) by {
                        if old_map.contains_key(p) {
                            let j = choose|j: int| 0 <= j < old_keys.len() && old_keys[j].0@ == p;
                            assert(ks[j].0@ == p);
                        }
                        if self.spec_peer_keys().contains_key(p) {
                            let j = choose|j: int| 0 <= j < ks.len() && ks[j].0@ == p;
                            assert(old_keys[j].0@ == p);
                        }
                    }
                    assert forall|p: Seq<char>| #[trigger] self.spec_peer_keys().contains_key(p) implies self.spec_peer_keys()[p]
                        == old_map.insert(peer_id@, public_key@)[p] by {
                        let j = choose|j: int| 0 <= j < ks.len() && ks[j].0@ == p;
                        assert(old_keys[j].0@ == p);
                        if p == peer_id@ {
                            assert(j == i);
                        } else {
                            let k = choose|k: int| 0 <= k < old_keys.len() && old_keys[k].0@ == p;
                            assert(j == k);
                        }
                    }
                    assert(self.spec_peer_keys() =~= old_map.insert(peer_id@, public_key@));
                }
                return;
            }
            i = i + 1;
        }
        self.known_keys.push((peer_id, public_key));
        proof {
            let ks = self.known_keys@;
            let n = old_keys.len() as int;
            assert forall|a: int, b: int| 0 <= a < b < ks.len() implies ks[a].0@ != ks[b].0@ by {
                if b < n {
                    assert(ks[a] == old_keys[a] && ks[b] == old_keys[b]);
                }
            }
            assert forall|p: Seq<char>| #[trigger] self.spec_peer_keys().contains_key(p) <==> old_map.insert(
                peer_id@,
                public_key@,
            ).contains_key(p) by {
                if old_map.contains_key(p) {
                    let j = choose|j: int| 0 <= j < old_keys.len() && old_keys[j].0@ == p;
                    assert(ks[j].0@ == p);
                }
                if p == peer_id@ {
                    assert(ks[n].0@ == p);
                }
                if self.spec_peer_keys().contains_key(p) {
                    let j = choose|j: int| 0 <= j < ks.len() && ks[j].0@ == p;
                    if j < n {
                        assert(old_keys[j].0@ == p);
                    }
                }
            }
            assert forall|p: Seq<char>| #[trigger] self.spec_peer_keys().contains_key(p) implies self.spec_peer_keys()[p]
                == old_map.insert(peer_id@, public_key@)[p] by {
                let j = choose|j: int| 0 <= j < ks.len() && ks[j].0@ == p;
                if p == peer_id@ {
                    assert(j == n);
                } else {
                    assert(j < n);
                    assert(old_keys[j].0@ == p);
                    let k = choose|k: int| 0 <= k < old_keys.len() && old_keys[k].0@ == p;
                    assert(j == k);
                }
            }
            assert(self.spec_peer_keys() =~= old_map.insert(peer_id@, public_key@));
        }
    }

    /// A peer's registered verifying key.
    pub fn get_peer_key(&self, peer_id: &String) -> (r: Option<Vec<u8>>)
        requires
            self.wf(),
        ensures
            match r {
                Some(k) => self.spec_peer_keys().contains_key(peer_id@) && k@ == self.spec_peer_keys()[peer_id@],
                None => !self.spec_peer_keys().contains_key(peer_id@),
            },
    {
        let mut i: usize = 0;
        while i < self.known_keys.len()
            invariant
                self.wf(),
                i <= self.known_keys@.len(),
                forall|j: int| 0 <= j < i ==> self.known_keys@[j].0@ != peer_id@,
            decreases self.known_keys@.len() - i,
        {
            if self.known_keys[i].0 == *peer_id {
                let k = self.known_keys[i].1.clone();
                proof {
                    let c = choose|j: int|
                        0 <= j < self.known_keys@.len() && self.known_keys@[j].0@ == peer_id@;
                    assert(c == i as int);
                    assert(k@ =~= self.known_keys@[i as int].1@);
                }
                return Some(k);
            }
            i = i + 1;
        }
        None
    }
}

impl Default for QuDAGCrypto {
    fn default() -> (c: Self)
        ensures
            c.wf(),
            c.spec_signing_seed() is None,
            c.spec_exchange_secret() is None,
            c.spec_peer_keys() == Map::<Seq<char>, Seq<u8>>::empty(),
    {
        Self::new()
    }
}

} // verus!
