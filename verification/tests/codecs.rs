use didcomm_headers::base64url_decode;
use didcomm_headers::base64url_encode;
use didcomm_headers::decode_jwm_header_field;
use didcomm_headers::encode_jwm_header_field;
use didcomm_headers::CryptoAlgorithm;
use didcomm_headers::DidcommHeader;
use didcomm_headers::Error;
use didcomm_headers::Jwk;
use didcomm_headers::JwmHeader;
use didcomm_headers::Recepient;

fn default_jwm() -> JwmHeader {
    JwmHeader {
        typ: String::from("JWM"),
        enc: None,
        kid: None,
        skid: None,
        alg: None,
        jku: None,
        jwk: None,
        epk: None,
        cty: None,
    }
}

#[test]
fn base64_round_trips_bytes() {
    let cases: Vec<Vec<u8>> = vec![
        vec![],
        vec![0],
        vec![255],
        vec![1, 2],
        vec![1, 2, 3],
        vec![251, 252, 253, 254],
        b"hello world, this is a longer buffer!".to_vec(),
    ];
    for bytes in cases {
        let s = base64url_encode(&bytes);
        assert_eq!(base64url_decode(&s).unwrap(), bytes);
    }
}

#[test]
fn base64_matches_reference_encoder() {
    let cases: Vec<Vec<u8>> = vec![
        vec![],
        vec![0, 1, 2, 3, 4, 5],
        vec![255, 254, 253],
        b"DIDComm header bytes".to_vec(),
    ];
    for bytes in cases {
        assert_eq!(base64url_encode(&bytes), base64_url::encode(&bytes));
        let theirs = base64_url::encode(&bytes);
        assert_eq!(base64url_decode(&theirs).unwrap(), bytes);
    }
}

#[test]
fn base64_known_value() {
    // "Man" encodes as "TWFu"; two bytes leave an unpadded three-char tail.
    assert_eq!(base64url_encode(&b"Man".to_vec()), "TWFu");
    assert_eq!(base64url_encode(&vec![251, 255]), "-_8");
}

#[test]
fn base64_rejects_foreign_characters() {
    assert_eq!(base64url_decode("ab=c"), Err(Error::Base64DecodeError));
    assert_eq!(base64url_decode("a"), Err(Error::Base64DecodeError));
    assert_eq!(base64url_decode("ab+d"), Err(Error::Base64DecodeError));
    assert_eq!(base64url_decode("a b"), Err(Error::Base64DecodeError));
}

#[test]
fn base64_rejects_nonzero_trailing_bits() {
    // 'B' carries value 1: its low four bits cannot come from any byte.
    assert_eq!(base64url_decode("AB"), Err(Error::Base64DecodeError));
}

#[test]
fn jwm_json_round_trips() {
    let mut h = default_jwm();
    h.as_encrypted(&CryptoAlgorithm::A256GCM);
    h.kid(Some("did:example:bob#key-1".to_string()));
    h.jwk = Some(Jwk {
        kty: "OKP".to_string(),
        crv: Some("X25519".to_string()),
        x: Some("abc123".to_string()),
    });
    let text = h.encode_json();
    let back = JwmHeader::decode_json(&text).unwrap();
    assert_eq!(back, h);
}

#[test]
fn jwm_json_matches_reference_serializer() {
    let mut h = default_jwm();
    h.as_encrypted(&CryptoAlgorithm::A256GCM);
    let mut obj = serde_json::Map::new();
    obj.insert("typ".to_string(), serde_json::Value::String("JWM".to_string()));
    obj.insert("enc".to_string(), serde_json::Value::String("A256GCM".to_string()));
    obj.insert(
        "alg".to_string(),
        serde_json::Value::String("ECDH-1PU+A256KW".to_string()),
    );
    let parsed: serde_json::Value = serde_json::from_str(&h.encode_json()).unwrap();
    assert_eq!(parsed, serde_json::Value::Object(obj));
}

#[test]
fn jwm_json_escapes_quotes_and_backslashes() {
    let mut h = default_jwm();
    h.cty = Some("a\"b\\c".to_string());
    let text = h.encode_json();
    assert_eq!(text, "{\"typ\":\"JWM\",\"cty\":\"a\\\"b\\\\c\"}");
    let back = JwmHeader::decode_json(&text).unwrap();
    assert_eq!(back, h);
}

#[test]
fn header_field_round_trips_encrypted_header() {
    let mut h = default_jwm();
    h.as_encrypted(&CryptoAlgorithm::A256GCM);
    let field = encode_jwm_header_field(&Some(h.clone()));
    let s = field.clone().unwrap();
    assert!(!s.contains('='));
    let back = decode_jwm_header_field(&field).unwrap();
    assert_eq!(back, Some(h));
}

#[test]
fn header_field_absence_round_trips_as_absence() {
    assert_eq!(encode_jwm_header_field(&None), None);
    assert_eq!(decode_jwm_header_field(&None).unwrap(), None);
}

#[test]
fn header_field_reports_distinct_errors() {
    // A character outside the base64url alphabet.
    assert_eq!(
        decode_jwm_header_field(&Some("!!!".to_string())),
        Err(Error::Base64DecodeError)
    );
    // Valid base64url of bytes that are not UTF-8 text.
    let bad_utf8 = base64url_encode(&vec![0xff, 0xfe]);
    assert_eq!(
        decode_jwm_header_field(&Some(bad_utf8)),
        Err(Error::TextEncodingError)
    );
    // Valid base64url of text that is no canonical header.
    let bad_json = base64url_encode(&b"not json".to_vec());
    assert_eq!(
        decode_jwm_header_field(&Some(bad_json)),
        Err(Error::JsonFormatError)
    );
}

#[test]
fn didcomm_json_round_trips() {
    let mut h = DidcommHeader::forward_at(
        "8404100149254914".to_string(),
        1700000000,
        vec!["did:example:bob".to_string(), "did:example:carol".to_string()],
        Some("did:example:alice".to_string()),
        Some(1700009999),
    );
    h.other.push(("thread".to_string(), "abc".to_string()));
    h.other.push(("lang".to_string(), "en".to_string()));
    let text = h.encode_json();
    let back = DidcommHeader::decode_json(&text).unwrap();
    assert_eq!(back, h);
}

#[test]
fn didcomm_json_exact_text() {
    let h = DidcommHeader::forward_at(
        "42".to_string(),
        1700000000,
        vec!["did:example:bob".to_string()],
        None,
        None,
    );
    assert_eq!(
        h.encode_json(),
        "{\"id\":\"42\",\"type\":\"DidcommRaw\",\"to\":[\"did:example:bob\"],\"from\":null,\"created_time\":1700000000}"
    );
}

#[test]
fn didcomm_json_omits_empty_collections() {
    let h = DidcommHeader::forward_at("7".to_string(), 5, vec![], Some("a".to_string()), None);
    assert_eq!(
        h.encode_json(),
        "{\"id\":\"7\",\"type\":\"DidcommRaw\",\"from\":\"a\",\"created_time\":5}"
    );
}

#[test]
fn didcomm_json_reads_from_prior() {
    let text = "{\"id\":\"9\",\"type\":\"DidcommRaw\",\"from\":null,\"from_prior\":{\"iss\":\"did:example:old\",\"sub\":\"did:example:new\"}}";
    let h = DidcommHeader::decode_json(text).unwrap();
    let claims = h.from_prior().clone().unwrap();
    assert_eq!(claims.iss, "did:example:old");
    assert_eq!(claims.sub, "did:example:new");
    assert_eq!(h.encode_json(), text);
}

#[test]
fn didcomm_json_rejects_malformed_text() {
    assert_eq!(
        DidcommHeader::decode_json("{\"id\":\"1\"}"),
        Err(Error::JsonFormatError)
    );
    assert_eq!(DidcommHeader::decode_json(""), Err(Error::JsonFormatError));
    assert_eq!(
        DidcommHeader::decode_json("{\"id\":\"1\",\"type\":\"Unknown\",\"from\":null}"),
        Err(Error::JsonFormatError)
    );
}

#[test]
fn error_messages_are_nonempty() {
    for e in [
        Error::ClockError,
        Error::Base64DecodeError,
        Error::TextEncodingError,
        Error::JsonFormatError,
    ] {
        assert!(!e.message().is_empty());
    }
}

#[test]
fn recipient_json_round_trips() {
    let r = Recepient::new(
        Jwk {
            kty: "OKP".to_string(),
            crv: Some("X25519".to_string()),
            x: Some("Zm9v".to_string()),
        },
        "wrapped".to_string(),
    );
    let text = r.encode_json();
    assert_eq!(
        text,
        "{\"header\":{\"kty\":\"OKP\",\"crv\":\"X25519\",\"x\":\"Zm9v\"},\"encrypted_key\":\"wrapped\"}"
    );
    let back = Recepient::decode_json(&text).unwrap();
    assert_eq!(back, r);
}
