//! The header value types of a DIDComm message: the plaintext routing header
//! `DidcommHeader`, the JOSE protection header `JwmHeader`, the per-recipient
//! key-wrap record `Recepient`, and the closed algorithm enumerations whose
//! variants the mapper turns into registered JOSE `alg`/`enc` strings.

use crate::error::Error;
use crate::text::{chars_string, push_u64_dec, u64_dec};
use rand::Rng;
use vstd::prelude::*;
use vstd::string::StringExecFns;

verus! {

/// Tag identifying the payload shape of a DIDComm message.  The canonical
/// JSON form of each variant is its own name, as a JSON string.
#[derive(Clone, Copy, Debug, PartialEq, Eq, Structural)]
pub enum MessageType {
    DidcommRaw,
    DidcommJwe,
    DidcommJws,
    DidcommForward,
}

/// A signature algorithm this crate knows how to stamp into a `JwmHeader`.
#[derive(Clone, Copy, Debug, PartialEq, Eq, Structural)]
pub enum SignatureAlgorithm {
    EdDsa,
    Es256,
    Es256k,
}

/// A content-encryption algorithm this crate knows how to stamp into a
/// `JwmHeader`.  Each variant pairs a content cipher with the fixed
/// ECDH-1PU key-wrap algorithm that goes with it.
#[derive(Clone, Copy, Debug, PartialEq, Eq, Structural)]
pub enum CryptoAlgorithm {
    A256GCM,
    XC20P,
}

/// A public key embedded in a header: the fields of a JSON Web Key that this
/// crate carries (key type, curve name, public coordinate).
#[derive(Clone, Debug, PartialEq)]
pub struct Jwk {
    pub kty: String,
    pub crv: Option<String>,
    pub x: Option<String>,
}

/// Mathematical image of a `Jwk`.
#[verifier::ext_equal]
pub struct JwkView {
    pub kty: Seq<char>,
    pub crv: Option<Seq<char>>,
    pub x: Option<Seq<char>>,
}

impl View for Jwk {
    type V = JwkView;

    open spec fn view(&self) -> JwkView {
        JwkView { kty: self.kty@, crv: self.crv.deep_view(), x: self.x.deep_view() }
    }
}

/// A signed claim set asserting DID rotation: `sub` names the new DID and
/// `iss` the prior DID.
#[derive(Clone, Debug, PartialEq)]
pub struct PriorClaims {
    pub iss: String,
    pub sub: String,
}

/// Mathematical image of a `PriorClaims`.
#[verifier::ext_equal]
pub struct PriorClaimsView {
    pub iss: Seq<char>,
    pub sub: Seq<char>,
}

impl View for PriorClaims {
    type V = PriorClaimsView;

    open spec fn view(&self) -> PriorClaimsView {
        PriorClaimsView { iss: self.iss@, sub: self.sub@ }
    }
}

/// The plaintext routing header of a DIDComm message.
#[derive(Clone, Debug, PartialEq)]
pub struct DidcommHeader {
    pub id: String,
    pub m_type: MessageType,
    pub to: Vec<String>,
    pub from: Option<String>,
    pub created_time: Option<u64>,
    pub expires_time: Option<u64>,
    /// Extension headers, flattened into the same JSON object as the named
    /// fields.  Keys must not collide with the named field keys.
    pub other: Vec<(String, String)>,
    /// The optional DID-rotation claim.  Read it through `from_prior()`;
    /// it is public only so that the canonical codec can be specified
    /// field by field.
    pub from_prior: Option<PriorClaims>,
}

/// Mathematical image of a `DidcommHeader`.
#[verifier::ext_equal]
pub struct DidcommHeaderView {
    pub id: Seq<char>,
    pub m_type: MessageType,
    pub to: Seq<Seq<char>>,
    pub from: Option<Seq<char>>,
    pub created_time: Option<u64>,
    pub expires_time: Option<u64>,
    pub other: Seq<(Seq<char>, Seq<char>)>,
    pub from_prior: Option<PriorClaimsView>,
}

impl View for DidcommHeader {
    type V = DidcommHeaderView;

    open spec fn view(&self) -> DidcommHeaderView {
        DidcommHeaderView {
            id: self.id@,
            m_type: self.m_type,
            to: self.to.deep_view(),
            from: self.from.deep_view(),
            created_time: self.created_time,
            expires_time: self.expires_time,
            other: Seq::new(self.other@.len(), |i: int| (self.other@[i].0@, self.other@[i].1@)),
            from_prior: match self.from_prior {
                Some(p) => Some(p@),
                None => None,
            },
        }
    }
}

/// Relies on `rand::thread_rng` and `rand::Rng::gen`: a random `u64`.
/// Nothing is promised of the value.
#[verifier::external_body]
fn random_u64() -> u64 {
    rand::thread_rng().gen()
}

/// Relies on `std::time::SystemTime::now` and
/// `SystemTime::duration_since(UNIX_EPOCH)`: the wall-clock time as whole
/// seconds since the Unix epoch, or `None` when the clock reads a time
/// before the epoch.  Nothing is promised of the value read.
#[verifier::external_body]
fn unix_time_now() -> Option<u64> {
    match std::time::SystemTime::now().duration_since(std::time::SystemTime::UNIX_EPOCH) {
        Ok(d) => Some(d.as_secs()),
        Err(_) => None,
    }
}

impl DidcommHeader {
    /// A draft header: fresh random `id`, raw message type, a single empty
    /// recipient entry and an empty sender entry that callers are expected
    /// to overwrite, and no timestamps, extensions or prior claims.
    pub fn new() -> (r: Self)
        ensures
            (exists|n: u64| r@.id == u64_dec(n as int)),
            r.m_type == MessageType::DidcommRaw,
            r@.to =~= seq![Seq::<char>::empty()],
            r@.from == Some(Seq::<char>::empty()),
            r.created_time is None,
            r.expires_time is None,
            r@.other =~= Seq::<(Seq<char>, Seq<char>)>::empty(),
            r@.from_prior is None,
    {
        let mut to: Vec<String> = Vec::new();
        to.push(String::new());
        DidcommHeader {
            id: Self::gen_random_id(),
            m_type: MessageType::DidcommRaw,
            to,
            from: Some(String::new()),
            created_time: None,
            expires_time: None,
            other: Vec::new(),
            from_prior: None,
        }
    }

    /// A freshly generated message identifier: the decimal rendering of a
    /// random 64-bit number.
    pub fn gen_random_id() -> (r: String)
        ensures
            exists|n: u64| r@ == u64_dec(n as int),
    {
        let n = random_u64();
        let mut v: Vec<char> = Vec::new();
        push_u64_dec(&mut v, n);
        let s = chars_string(&v);
        assert(s@ == u64_dec(n as int));
        s
    }

    /// Read access to the optional DID-rotation claim.
    pub fn from_prior(&self) -> (r: &Option<PriorClaims>)
        ensures
            r == &self.from_prior,
    {
        &self.from_prior
    }

    /// The forwarding header built from given parts: the caller supplies the
    /// identifier and the creation time, and every field of the result is
    /// pinned down exactly.
    pub fn forward_at(
        id: String,
        now: u64,
        to: Vec<String>,
        from: Option<String>,
        expires_time: Option<u64>,
    ) -> (r: Self)
        ensures
            r.id == id,
            r.m_type == MessageType::DidcommRaw,
            r.to == to,
            r.from == from,
            r.created_time == Some(now),
            r.expires_time == expires_time,
            r@.other =~= Seq::<(Seq<char>, Seq<char>)>::empty(),
            r@.from_prior is None,
    {
        DidcommHeader {
            id,
            m_type: MessageType::DidcommRaw,
            to,
            from,
            created_time: Some(now),
            expires_time,
            other: Vec::new(),
            from_prior: None,
        }
    }

    /// The production constructor for forwarding messages: a fresh random
    /// `id`, `created_time` read from the wall clock, and the given
    /// recipients, sender and expiry copied in unchanged.  Fails with
    /// `Error::ClockError` exactly when the system clock reports a time
    /// before the Unix epoch.
    pub fn forward(to: Vec<String>, from: Option<String>, expires_time: Option<u64>) -> (r: Result<
        Self,
        Error,
    >)
        ensures
            r matches Ok(h) ==> {
                &&& (exists|n: u64| h@.id == u64_dec(n as int))
                &&& h.m_type == MessageType::DidcommRaw
                &&& h.to == to
                &&& h.from == from
                &&& h.created_time is Some
                &&& h.expires_time == expires_time
                &&& h@.other =~= Seq::<(Seq<char>, Seq<char>)>::empty()
                &&& h@.from_prior is None
            },
            r matches Err(e) ==> e == Error::ClockError,
    {
        match unix_time_now() {
            Some(now) => Ok(Self::forward_at(Self::gen_random_id(), now, to, from, expires_time)),
            None => Err(Error::ClockError),
        }
    }
}

impl Default for DidcommHeader {
    /// Same draft value as `DidcommHeader::new`.
    fn default() -> (r: Self)
        ensures
            r.m_type == MessageType::DidcommRaw,
            r.created_time is None,
            r.expires_time is None,
            r@.from_prior is None,
    {
        DidcommHeader::new()
    }
}

/// The JWM protection header, compatible with both JWE and JWS envelopes.
#[derive(Clone, Debug, PartialEq)]
pub struct JwmHeader {
    pub typ: String,
    pub enc: Option<String>,
    pub kid: Option<String>,
    pub skid: Option<String>,
    pub alg: Option<String>,
    pub jku: Option<String>,
    pub jwk: Option<Jwk>,
    pub epk: Option<Jwk>,
    pub cty: Option<String>,
}

/// Mathematical image of a `JwmHeader`.
#[verifier::ext_equal]
pub struct JwmHeaderView {
    pub typ: Seq<char>,
    pub enc: Option<Seq<char>>,
    pub kid: Option<Seq<char>>,
    pub skid: Option<Seq<char>>,
    pub alg: Option<Seq<char>>,
    pub jku: Option<Seq<char>>,
    pub jwk: Option<JwkView>,
    pub epk: Option<JwkView>,
    pub cty: Option<Seq<char>>,
}

impl View for JwmHeader {
    type V = JwmHeaderView;

    open spec fn view(&self) -> JwmHeaderView {
        JwmHeaderView {
            typ: self.typ@,
            enc: self.enc.deep_view(),
            kid: self.kid.deep_view(),
            skid: self.skid.deep_view(),
            alg: self.alg.deep_view(),
            jku: self.jku.deep_view(),
            jwk: match self.jwk {
                Some(k) => Some(k@),
                None => None,
            },
            epk: match self.epk {
                Some(k) => Some(k@),
                None => None,
            },
            cty: self.cty.deep_view(),
        }
    }
}

/// The registered JOSE `alg` string for a signature algorithm.
pub open spec fn sig_alg_str(a: SignatureAlgorithm) -> Seq<char> {
    match a {
        SignatureAlgorithm::EdDsa => "EdDSA"@,
        SignatureAlgorithm::Es256 => "ES256"@,
        SignatureAlgorithm::Es256k => "ES256K"@,
    }
}

/// The registered JOSE `enc` string for a content-encryption algorithm.
pub open spec fn enc_str(a: CryptoAlgorithm) -> Seq<char> {
    match a {
        CryptoAlgorithm::A256GCM => "A256GCM"@,
        CryptoAlgorithm::XC20P => "XC20P"@,
    }
}

/// The registered JOSE `alg` string (ECDH-1PU with the matching key wrap)
/// for a content-encryption algorithm.
pub open spec fn crypto_alg_str(a: CryptoAlgorithm) -> Seq<char> {
    match a {
        CryptoAlgorithm::A256GCM => "ECDH-1PU+A256KW"@,
        CryptoAlgorithm::XC20P => "ECDH-1PU+XC20PKW"@,
    }
}

/// The header state after stamping signature algorithm `a`: `typ` becomes
/// `"JWM"`, `alg` the registered string for `a`, and every other field is
/// kept.
pub open spec fn as_signed_view(v: JwmHeaderView, a: SignatureAlgorithm) -> JwmHeaderView {
    JwmHeaderView { typ: "JWM"@, alg: Some(sig_alg_str(a)), ..v }
}

/// The header state after stamping encryption algorithm `a`: `typ` becomes
/// `"JWM"`, `enc` and `alg` the registered strings for `a`, and every other
/// field is kept.
pub open spec fn as_encrypted_view(v: JwmHeaderView, a: CryptoAlgorithm) -> JwmHeaderView {
    JwmHeaderView { typ: "JWM"@, enc: Some(enc_str(a)), alg: Some(crypto_alg_str(a)), ..v }
}

impl JwmHeader {
    /// Stamps the signature algorithm: sets `typ` and `alg` to the
    /// registered JOSE strings and touches nothing else.
    pub fn as_signed(&mut self, alg: &SignatureAlgorithm)
        ensures
            final(self)@ == as_signed_view(old(self)@, *alg),
    {
        let ghost prev = *self;
        self.typ = String::from_str("JWM");
        match alg {
            SignatureAlgorithm::EdDsa => {
                self.alg = Some(String::from_str("EdDSA"));
            },
            SignatureAlgorithm::Es256 => {
                self.alg = Some(String::from_str("ES256"));
            },
            SignatureAlgorithm::Es256k => {
                self.alg = Some(String::from_str("ES256K"));
            },
        }
        assert(self@ =~= as_signed_view(prev@, *alg));
    }

    /// Stamps the encryption algorithm: sets `typ`, `enc` and `alg` to the
    /// registered JOSE strings and touches nothing else.
    pub fn as_encrypted(&mut self, alg: &CryptoAlgorithm)
        ensures
            final(self)@ == as_encrypted_view(old(self)@, *alg),
    {
        let ghost prev = *self;
        self.typ = String::from_str("JWM");
        match alg {
            CryptoAlgorithm::A256GCM => {
                self.enc = Some(String::from_str("A256GCM"));
                self.alg = Some(String::from_str("ECDH-1PU+A256KW"));
            },
            CryptoAlgorithm::XC20P => {
                self.enc = Some(String::from_str("XC20P"));
                self.alg = Some(String::from_str("ECDH-1PU+XC20PKW"));
            },
        }
        assert(self@ =~= as_encrypted_view(prev@, *alg));
    }

    /// Direct setter for the recipient key identifier; no validation.
    pub fn kid(&mut self, kid: Option<String>)
        ensures
            final(self).kid == kid,
            final(self).typ == old(self).typ,
            final(self).enc == old(self).enc,
            final(self).skid == old(self).skid,
            final(self).alg == old(self).alg,
            final(self).jku == old(self).jku,
            final(self).jwk == old(self).jwk,
            final(self).epk == old(self).epk,
            final(self).cty == old(self).cty,
    {
        self.kid = kid;
    }
}

impl Default for JwmHeader {
    /// The raw-message header: `typ` is `"JWM"` and every optional field is
    /// absent.
    fn default() -> (r: Self)
        ensures
            r@.typ == "JWM"@,
            r.enc is None,
            r.kid is None,
            r.skid is None,
            r.alg is None,
            r.jku is None,
            r.jwk is None,
            r.epk is None,
            r.cty is None,
    {
        JwmHeader {
            typ: String::from_str("JWM"),
            enc: None,
            kid: None,
            skid: None,
            alg: None,
            jku: None,
            jwk: None,
            epk: None,
            cty: None,
        }
    }
}

/// Stamping a signature algorithm is idempotent: a second stamp with the
/// same algorithm leaves the header state of the first stamp unchanged.
pub proof fn lemma_as_signed_idempotent(v: JwmHeaderView, a: SignatureAlgorithm)
    ensures
        as_signed_view(as_signed_view(v, a), a) == as_signed_view(v, a),
{
    assert(as_signed_view(as_signed_view(v, a), a) =~= as_signed_view(v, a));
}

/// Stamping an encryption algorithm is idempotent: a second stamp with the
/// same algorithm leaves the header state of the first stamp unchanged.
pub proof fn lemma_as_encrypted_idempotent(v: JwmHeaderView, a: CryptoAlgorithm)
    ensures
        as_encrypted_view(as_encrypted_view(v, a), a) == as_encrypted_view(v, a),
{
    assert(as_encrypted_view(as_encrypted_view(v, a), a) =~= as_encrypted_view(v, a));
}

/// One entry of the `recipients` collection of a JWE envelope: the
/// content-encryption key wrapped for one recipient.
#[derive(Clone, Debug, PartialEq)]
pub struct Recepient {
    pub header: Jwk,
    pub encrypted_key: String,
}

/// Mathematical image of a `Recepient`.
#[verifier::ext_equal]
pub struct RecepientView {
    pub header: JwkView,
    pub encrypted_key: Seq<char>,
}

impl View for Recepient {
    type V = RecepientView;

    open spec fn view(&self) -> RecepientView {
        RecepientView { header: self.header@, encrypted_key: self.encrypted_key@ }
    }
}

impl Recepient {
    /// Aggregates the per-recipient key metadata and the wrapped key.
    pub fn new(header: Jwk, encrypted_key: String) -> (r: Self)
        ensures
            r.header == header,
            r.encrypted_key == encrypted_key,
    {
        Recepient { header, encrypted_key }
    }
}

} // verus!
