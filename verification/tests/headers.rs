use didcomm_headers::CryptoAlgorithm;
use didcomm_headers::DidcommHeader;
use didcomm_headers::Jwk;
use didcomm_headers::JwmHeader;
use didcomm_headers::MessageType;
use didcomm_headers::Recepient;
use didcomm_headers::SignatureAlgorithm;

fn default_jwm() -> JwmHeader {
    JwmHeader {
        typ: String::from("JWM"),
        enc: None,
        kid: None,
        skid: None,
        alg: None,
        jku: None,
        jwk: None,
        epk: None,
        cty: None,
    }
}

#[test]
fn new_header_has_draft_defaults() {
    let h = DidcommHeader::new();
    assert!(!h.id.is_empty());
    assert!(h.id.chars().all(|c| c.is_ascii_digit()));
    assert_eq!(h.m_type, MessageType::DidcommRaw);
    assert_eq!(h.to, vec![String::new()]);
    assert_eq!(h.from, Some(String::new()));
    assert_eq!(h.created_time, None);
    assert_eq!(h.expires_time, None);
    assert!(h.other.is_empty());
    assert!(h.from_prior().is_none());
}

#[test]
fn gen_random_id_is_decimal() {
    let id = DidcommHeader::gen_random_id();
    assert!(!id.is_empty());
    assert!(id.chars().all(|c| c.is_ascii_digit()));
}

#[test]
fn forward_copies_inputs_and_stamps_time() {
    let before = std::time::SystemTime::now()
        .duration_since(std::time::SystemTime::UNIX_EPOCH)
        .unwrap()
        .as_secs();
    let h = DidcommHeader::forward(
        vec!["did:example:bob".to_string()],
        Some("did:example:alice".to_string()),
        None,
    )
    .unwrap();
    let after = std::time::SystemTime::now()
        .duration_since(std::time::SystemTime::UNIX_EPOCH)
        .unwrap()
        .as_secs();
    assert!(!h.id.is_empty());
    assert_eq!(h.to, vec!["did:example:bob".to_string()]);
    assert_eq!(h.from, Some("did:example:alice".to_string()));
    let created = h.created_time.unwrap();
    assert!(before <= created && created <= after);
    assert_eq!(h.expires_time, None);
    assert!(h.from_prior().is_none());
}

#[test]
fn forward_keeps_expiry() {
    let h = DidcommHeader::forward(vec![], None, Some(1700000099)).unwrap();
    assert_eq!(h.expires_time, Some(1700000099));
    assert_eq!(h.from, None);
}

#[test]
fn as_signed_stamps_registered_strings() {
    for (alg, expected) in [
        (SignatureAlgorithm::EdDsa, "EdDSA"),
        (SignatureAlgorithm::Es256, "ES256"),
        (SignatureAlgorithm::Es256k, "ES256K"),
    ] {
        let mut h = default_jwm();
        h.typ = String::from("other");
        h.as_signed(&alg);
        assert_eq!(h.typ, "JWM");
        assert_eq!(h.alg.as_deref(), Some(expected));
        assert_eq!(h.enc, None);
    }
}

#[test]
fn as_encrypted_stamps_registered_strings() {
    for (alg, enc, kw) in [
        (CryptoAlgorithm::A256GCM, "A256GCM", "ECDH-1PU+A256KW"),
        (CryptoAlgorithm::XC20P, "XC20P", "ECDH-1PU+XC20PKW"),
    ] {
        let mut h = default_jwm();
        h.as_encrypted(&alg);
        assert_eq!(h.typ, "JWM");
        assert_eq!(h.enc.as_deref(), Some(enc));
        assert_eq!(h.alg.as_deref(), Some(kw));
    }
}

#[test]
fn stamping_twice_equals_stamping_once() {
    let mut once = default_jwm();
    once.as_encrypted(&CryptoAlgorithm::A256GCM);
    let mut twice = once.clone();
    twice.as_encrypted(&CryptoAlgorithm::A256GCM);
    assert_eq!(once, twice);

    let mut s_once = default_jwm();
    s_once.as_signed(&SignatureAlgorithm::Es256k);
    let mut s_twice = s_once.clone();
    s_twice.as_signed(&SignatureAlgorithm::Es256k);
    assert_eq!(s_once, s_twice);
}

#[test]
fn kid_sets_only_kid() {
    let mut h = default_jwm();
    h.as_signed(&SignatureAlgorithm::EdDsa);
    let before = h.clone();
    h.kid(Some("key-1".to_string()));
    assert_eq!(h.kid.as_deref(), Some("key-1"));
    assert_eq!(h.typ, before.typ);
    assert_eq!(h.alg, before.alg);
    assert_eq!(h.enc, before.enc);
}

#[test]
fn recipient_aggregates_parts() {
    let jwk = Jwk { kty: "OKP".to_string(), crv: Some("X25519".to_string()), x: None };
    let r = Recepient::new(jwk.clone(), "wrapped-key".to_string());
    assert_eq!(r.header, jwk);
    assert_eq!(r.encrypted_key, "wrapped-key");
}

#[test]
fn jwm_default_is_raw_message_header() {
    let h = JwmHeader::default();
    assert_eq!(h.typ, "JWM");
    assert_eq!(h.enc, None);
    assert_eq!(h.kid, None);
    assert_eq!(h.skid, None);
    assert_eq!(h.alg, None);
    assert_eq!(h.jku, None);
    assert_eq!(h.jwk, None);
    assert_eq!(h.epk, None);
    assert_eq!(h.cty, None);
}

#[test]
fn didcomm_default_matches_new_shape() {
    let h = DidcommHeader::default();
    assert_eq!(h.m_type, MessageType::DidcommRaw);
    assert_eq!(h.created_time, None);
    assert_eq!(h.expires_time, None);
    assert!(h.from_prior().is_none());
}
