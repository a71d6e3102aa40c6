//! The wire codec for the protection header: an optional `JwmHeader` is
//! carried as the unpadded base64url encoding of its canonical JSON text,
//! and absence is carried as absence.

use crate::base64::{b64_decode_chars, b64_encode_bytes, base64url_decode, base64url_encode,
    lemma_base64url_round_trip};
use crate::error::Error;
use crate::headers::{JwmHeader, JwmHeaderView};
use crate::json::{enc_jwm, lemma_jwm_round_trip, parse_jwm_text};
use vstd::prelude::*;
use vstd::string::StrSliceExecFns;
use vstd::utf8::{decode_utf8, encode_utf8, encode_utf8_decode_utf8, encode_utf8_valid_utf8,
    valid_utf8};

verus! {

/// What decoding a base64url-carried protection header yields: the bytes
/// must decode from base64url, read as UTF-8 text, and parse as the
/// canonical JSON of a header — each failure with its own error.
pub open spec fn header_field_decoded(s: Seq<char>) -> Result<JwmHeaderView, Error> {
    match b64_decode_chars(s) {
        Some(bytes) => if valid_utf8(bytes) {
            match parse_jwm_text(decode_utf8(bytes)) {
                Some(v) => Ok(v),
                None => Err(Error::JsonFormatError),
            }
        } else {
            Err(Error::TextEncodingError)
        },
        None => Err(Error::Base64DecodeError),
    }
}

/// Relies on `String::from_utf8`: `Ok` exactly on valid UTF-8, yielding the
/// text those bytes encode.
#[verifier::external_body]
fn bytes_to_string(v: Vec<u8>) -> (r: Option<String>)
    ensures
        r matches Some(s) ==> valid_utf8(v@) && s@ == decode_utf8(v@),
        r is None ==> !valid_utf8(v@),
{
    String::from_utf8(v).ok()
}

/// Serializes an optional protection header for the wire: the base64url
/// encoding of its canonical JSON text.  Absence serializes as absence,
/// never as an encoded empty object.
pub fn encode_jwm_header_field(h: &Option<JwmHeader>) -> (r: Option<String>)
    ensures
        (*h) matches Some(hdr) ==> r matches Some(s) && s@ == b64_encode_bytes(
            encode_utf8(enc_jwm(hdr@)),
        ),
        (*h) is None ==> r is None,
{
    match h {
        Some(hdr) => {
            let json = hdr.encode_json();
            let bytes = json.as_str().as_bytes_vec();
            Some(base64url_encode(&bytes))
        },
        None => None,
    }
}

/// Parses an optional wire field back into an optional protection header.
/// Absence yields absence; a present string must base64url-decode, read as
/// UTF-8 and parse as canonical JSON, each failure surfaced as its own
/// error.
pub fn decode_jwm_header_field(v: &Option<String>) -> (r: Result<Option<JwmHeader>, Error>)
    ensures
        (*v) is None ==> r == Ok::<Option<JwmHeader>, Error>(None),
        (*v) matches Some(s) ==> match r {
            Ok(Some(h)) => header_field_decoded(s@) == Ok::<JwmHeaderView, Error>(h@),
            Ok(None) => false,
            Err(e) => header_field_decoded(s@) == Err::<JwmHeaderView, Error>(e),
        },
{
    match v {
        None => Ok(None),
        Some(s) => {
            let bytes = match base64url_decode(s.as_str()) {
                Ok(b) => b,
                Err(e) => {
                    return Err(e);
                },
            };
            let text = match bytes_to_string(bytes) {
                Some(t) => t,
                None => {
                    return Err(Error::TextEncodingError);
                },
            };
            match JwmHeader::decode_json(text.as_str()) {
                Ok(h) => Ok(Some(h)),
                Err(e) => Err(e),
            }
        },
    }
}

/// Decoding the wire encoding of any protection header gives back exactly
/// that header.
pub proof fn lemma_header_field_round_trip(v: JwmHeaderView)
    ensures
        header_field_decoded(b64_encode_bytes(encode_utf8(enc_jwm(v)))) == Ok::<
            JwmHeaderView,
            Error,
        >(v),
{
    lemma_base64url_round_trip(encode_utf8(enc_jwm(v)));
    encode_utf8_valid_utf8(enc_jwm(v));
    encode_utf8_decode_utf8(enc_jwm(v));
    lemma_jwm_round_trip(v);
}

} // verus!
