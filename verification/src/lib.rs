//! Verified model of DIDComm/JOSE message envelope headers: the plaintext
//! routing header, the JWM protection header, the per-recipient key-wrap
//! record, and the codecs (canonical JSON and unpadded base64url) that put
//! them on the wire.

mod base64;
mod codec;
mod error;
mod headers;
mod json;
mod text;

pub use base64::{
    b64_decode_chars, b64_encode_bytes, base64url_decode, base64url_encode,
    lemma_base64url_round_trip,
};
pub use codec::{
    decode_jwm_header_field, encode_jwm_header_field, header_field_decoded,
    lemma_header_field_round_trip,
};
pub use error::Error;
pub use json::{
    didcomm_wf, enc_didcomm, enc_jwm, enc_recipient, lemma_didcomm_round_trip,
    lemma_jwm_round_trip, lemma_recipient_round_trip, parse_didcomm_text, parse_jwm_text,
    parse_recipient_text,
};
pub use headers::{
    as_encrypted_view, as_signed_view, crypto_alg_str, enc_str, lemma_as_encrypted_idempotent,
    lemma_as_signed_idempotent, sig_alg_str, CryptoAlgorithm, DidcommHeader, DidcommHeaderView,
    Jwk, JwkView, JwmHeader, JwmHeaderView, MessageType, PriorClaims, PriorClaimsView, Recepient,
    RecepientView, SignatureAlgorithm,
};
