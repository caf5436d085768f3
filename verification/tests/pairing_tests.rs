use murmur::pairing::{PairingError, PairingToken, DEFAULT_EXPIRY_SECS};
use murmur::types::DeviceId;
use std::time::{SystemTime, UNIX_EPOCH};

const TWELVE_WORDS: &str =
    "abandon abandon abandon abandon abandon abandon abandon abandon abandon abandon abandon about";
const TWENTY_FOUR_WORDS: &str = "legal winner thank year wave sausage worth useful legal winner thank year wave sausage worth useful legal winner thank year wave sausage worth title";

fn issuer() -> (DeviceId, [u8; 32]) {
    let sk: [u8; 32] = rand::random();
    (DeviceId::from_secret_key(&sk), sk)
}

fn now() -> u64 {
    SystemTime::now().duration_since(UNIX_EPOCH).unwrap().as_secs()
}

#[test]
fn test_issue_redeem_roundtrip() {
    let (id, key) = issuer();
    let m = TWELVE_WORDS.to_string();
    let t = PairingToken::issue(&m, id, &key, now() + 60);
    let decoded = t.redeem(now()).unwrap();
    assert_eq!(decoded, m);
}

#[test]
fn test_signature_verifies_with_issuer_key() {
    let (id, key) = issuer();
    let t = PairingToken::issue("test mnemonic phrase", id, &key, now() + 60);
    let mut tampered = t.clone();
    tampered.mnemonic_ciphertext[0] ^= 0x01;
    match tampered.redeem(now()) {
        Err(PairingError::BadSignature) => {}
        other => panic!("expected BadSignature, got {other:?}"),
    }
}

#[test]
fn test_wrong_issuer_rejected() {
    let (_id_a, key_a) = issuer();
    let (id_b, _) = issuer();
    let mut raw = PairingToken::issue("mnemonic here", id_b, &key_a, now() + 60);
    raw.issued_by = id_b;
    match raw.redeem(now()) {
        Err(PairingError::BadSignature) => {}
        other => panic!("expected BadSignature, got {other:?}"),
    }
}

#[test]
fn test_expired_token_rejected() {
    let (id, key) = issuer();
    let t = PairingToken::issue("abc", id, &key, 1000);
    match t.redeem(2000) {
        Err(PairingError::Expired) => {}
        other => panic!("expected Expired, got {other:?}"),
    }
}

#[test]
fn test_url_roundtrip() {
    let (id, key) = issuer();
    let m = TWENTY_FOUR_WORDS.to_string();
    let t = PairingToken::issue(&m, id, &key, now() + 60);
    let url = t.to_url();
    assert!(url.starts_with("murmur://join?token="));
    let parsed = PairingToken::from_url(&url).unwrap();
    assert!(parsed == t);
    assert_eq!(parsed.redeem(now()).unwrap(), m);
}

#[test]
fn test_from_url_rejects_wrong_scheme() {
    let err = match PairingToken::from_url("https://example.com/?token=abc") {
        Err(e) => e,
        Ok(_) => panic!("expected an error"),
    };
    assert!(matches!(err, PairingError::InvalidUrl));
}

#[test]
fn test_from_url_ignores_trailing_fragment() {
    let (id, key) = issuer();
    let t = PairingToken::issue("abc", id, &key, now() + 60);
    let url = format!("{}#frag", t.to_url());
    let parsed = PairingToken::from_url(&url).unwrap();
    assert!(parsed == t);
}

#[test]
fn test_issue_default_expiry_window() {
    let (id, key) = issuer();
    let t = PairingToken::issue_default("mnem", id, &key);
    let n = now();
    assert!(t.expires_at_unix > n);
    assert!(t.expires_at_unix <= n + DEFAULT_EXPIRY_SECS + 2);
}

#[test]
fn test_nonce_unique_per_issue() {
    let (id, key) = issuer();
    let t1 = PairingToken::issue("a", id, &key, now() + 60);
    let t2 = PairingToken::issue("a", id, &key, now() + 60);
    assert_ne!(t1.nonce, t2.nonce);
    assert_ne!(t1.mnemonic_ciphertext, t2.mnemonic_ciphertext);
}

#[test]
fn test_tampered_ciphertext_fails_sig() {
    let (id, key) = issuer();
    let mut t = PairingToken::issue("m", id, &key, now() + 60);
    t.mnemonic_ciphertext.push(0x42);
    assert!(matches!(t.redeem(now()), Err(PairingError::BadSignature)));
}

// Device A issues an invite; device B redeems the URL and receives the
// correct mnemonic.
#[test]
fn test_invite_redeem_end_to_end() {
    let (issuer_id, signing_key) = issuer();
    let mnemonic = TWELVE_WORDS;

    let token = PairingToken::issue_default(mnemonic, issuer_id, &signing_key);
    let url = token.to_url();
    assert!(url.starts_with("murmur://join?token="));

    let parsed = PairingToken::from_url(&url).expect("decode URL");
    let recovered = parsed.redeem(now()).expect("redeem");
    assert_eq!(recovered, mnemonic);
}

#[test]
fn test_invite_signed_by_wrong_key_rejected() {
    let (real_id, _real_sk) = issuer();
    let (_fake_id, fake_sk) = issuer();

    let token = PairingToken::issue_default(TWELVE_WORDS, real_id, &fake_sk);
    let url = token.to_url();
    let parsed = PairingToken::from_url(&url).unwrap();
    assert!(matches!(parsed.redeem(now()), Err(PairingError::BadSignature)));
}

#[test]
fn test_invite_expired_rejected() {
    let (id, sk) = issuer();
    let token = PairingToken::issue("mnemonic", id, &sk, 1000);
    assert!(matches!(token.redeem(2000), Err(PairingError::Expired)));
}

#[test]
fn test_redeem_at_expiry_second_rejected() {
    let (id, sk) = issuer();
    let token = PairingToken::issue("mnemonic", id, &sk, 1000);
    assert!(matches!(token.redeem(1000), Err(PairingError::Expired)));
    assert_eq!(token.redeem(999).unwrap(), "mnemonic");
}

#[test]
fn test_signature_checked_before_expiry() {
    let (id_a, sk_a) = issuer();
    let (id_b, _) = issuer();
    assert_ne!(id_a, id_b);
    let token = PairingToken::issue("mnemonic", id_b, &sk_a, 1000);
    assert!(matches!(token.redeem(2000), Err(PairingError::BadSignature)));
}

#[test]
fn test_short_signature_rejected() {
    let (id, sk) = issuer();
    let mut token = PairingToken::issue("mnemonic", id, &sk, now() + 60);
    token.signature.pop();
    assert!(matches!(token.redeem(now()), Err(PairingError::BadSignature)));
}

#[test]
fn test_from_url_bad_base64_and_bad_token() {
    assert!(matches!(
        PairingToken::from_url("murmur://join?token=!!!"),
        Err(PairingError::Decode(_))
    ));
    assert!(matches!(
        PairingToken::from_url("murmur://join?token=AAAA"),
        Err(PairingError::Decode(_))
    ));
    assert!(matches!(PairingToken::from_url("murmur://join"), Err(PairingError::InvalidUrl)));
}

#[test]
fn test_from_url_stops_at_ampersand() {
    let (id, key) = issuer();
    let t = PairingToken::issue("abc", id, &key, now() + 60);
    let url = format!("{}&extra=1", t.to_url());
    let parsed = PairingToken::from_url(&url).unwrap();
    assert!(parsed == t);
}

#[test]
fn test_issue_ciphertext_is_plaintext_plus_tag() {
    let (id, key) = issuer();
    let t = PairingToken::issue("abc", id, &key, now() + 60);
    assert_eq!(t.mnemonic_ciphertext.len(), 3 + 16);
}
