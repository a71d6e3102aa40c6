//! Canonical JSON codec for the header types.  The encoder emits the one
//! canonical text of a value: fields in declaration order, absent fields
//! omitted, no whitespace, strings with `"` and `\` escaped by a backslash.
//! The parser accepts exactly the canonical texts, so that a decoded value
//! re-encodes to the very text it came from.

use crate::error::Error;
use crate::headers::{
    DidcommHeader, DidcommHeaderView, Jwk, JwkView, JwmHeader, JwmHeaderView, MessageType,
    PriorClaims, PriorClaimsView, Recepient, RecepientView,
};
use crate::text::{append_str, chars_string, push_u64_dec, str_chars, u64_dec};
use vstd::prelude::*;

verus! {

// ---------------------------------------------------------------------------
// Strings
// ---------------------------------------------------------------------------
/// The escaped form of one character inside a JSON string literal.
pub open spec fn esc_char(c: char) -> Seq<char> {
    if c == '"' || c == '\\' {
        seq!['\\', c]
    } else {
        seq![c]
    }
}

/// The escaped form of a whole string body.
pub open spec fn esc(s: Seq<char>) -> Seq<char>
    decreases s.len(),
{
    if s.len() == 0 {
        Seq::empty()
    } else {
        esc_char(s[0]) + esc(s.skip(1))
    }
}

/// The canonical JSON string literal for `s`: quoted and escaped.
pub open spec fn enc_string(s: Seq<char>) -> Seq<char> {
    seq!['"'] + esc(s) + seq!['"']
}

/// The character named by a backslash escape, or `None` for an escape the
/// canonical form never uses.
pub open spec fn unesc_char(c: char) -> Option<char> {
    if c == '"' || c == '\\' {
        Some(c)
    } else {
        None
    }
}

/// Parses the body of a string literal (after the opening quote) up to and
/// including the closing quote; yields the unescaped body and the rest.
pub open spec fn parse_string_body(s: Seq<char>) -> Option<(Seq<char>, Seq<char>)>
    decreases s.len(),
{
    if s.len() == 0 {
        None
    } else if s[0] == '"' {
        Some((Seq::empty(), s.skip(1)))
    } else if s[0] == '\\' {
        if s.len() >= 2 {
            match unesc_char(s[1]) {
                Some(c) => match parse_string_body(s.skip(2)) {
                    Some((t, r)) => Some((seq![c] + t, r)),
                    None => None,
                },
                None => None,
            }
        } else {
            None
        }
    } else {
        match parse_string_body(s.skip(1)) {
            Some((t, r)) => Some((seq![s[0]] + t, r)),
            None => None,
        }
    }
}

/// Parses a full string literal, opening quote included.
pub open spec fn parse_string(s: Seq<char>) -> Option<(Seq<char>, Seq<char>)> {
    if s.len() > 0 && s[0] == '"' {
        parse_string_body(s.skip(1))
    } else {
        None
    }
}

/// Parsing a string body consumes at least the closing quote.
pub proof fn lemma_parse_string_body_shrink(s: Seq<char>)
    ensures
        parse_string_body(s) matches Some((t, r)) ==> r.len() < s.len(),
    decreases s.len(),
{
    if s.len() == 0 {
    } else if s[0] == '"' {
    } else if s[0] == '\\' {
        if s.len() >= 2 {
            lemma_parse_string_body_shrink(s.skip(2));
        }
    } else {
        lemma_parse_string_body_shrink(s.skip(1));
    }
}

/// Parsing a string literal consumes at least its two quotes.
pub proof fn lemma_parse_string_shrink(s: Seq<char>)
    ensures
        parse_string(s) matches Some((t, r)) ==> r.len() + 2 <= s.len(),
{
    if s.len() > 0 && s[0] == '"' {
        lemma_parse_string_body_shrink(s.skip(1));
    }
}

/// Parsing inverts escaping: the body parser reads back exactly the string
/// the encoder escaped, and leaves exactly the trailing text.
proof fn lemma_parse_string_body_rt(v: Seq<char>, rest: Seq<char>)
    ensures
        parse_string_body(esc(v) + seq!['"'] + rest) == Some((v, rest)),
    decreases v.len(),
{
    let s = esc(v) + seq!['"'] + rest;
    if v.len() == 0 {
        assert(s =~= seq!['"'] + rest);
        assert(s[0] == '"');
        assert(s.skip(1) =~= rest);
    } else {
        let c = v[0];
        lemma_parse_string_body_rt(v.skip(1), rest);
        if c == '"' || c == '\\' {
            assert(esc(v) =~= seq!['\\', c] + esc(v.skip(1)));
            assert(s[0] == '\\' && s[1] == c);
            assert(unesc_char(c) == Some(c));
            assert(s.skip(2) =~= esc(v.skip(1)) + seq!['"'] + rest);
            assert(seq![c] + v.skip(1) =~= v);
        } else {
            assert(esc(v) =~= seq![c] + esc(v.skip(1)));
            assert(s[0] == c);
            assert(s.skip(1) =~= esc(v.skip(1)) + seq!['"'] + rest);
            assert(seq![c] + v.skip(1) =~= v);
        }
    }
}

/// Parsing inverts encoding for string literals.
proof fn lemma_parse_string_rt(v: Seq<char>, rest: Seq<char>)
    ensures
        parse_string(enc_string(v) + rest) == Some((v, rest)),
{
    let s = enc_string(v) + rest;
    assert(s[0] == '"');
    assert(s.skip(1) =~= esc(v) + seq!['"'] + rest);
    lemma_parse_string_body_rt(v, rest);
}

/// A quote in escaped text always follows a backslash.
proof fn lemma_esc_quote_preceded(v: Seq<char>)
    ensures
        forall|i: int| 0 <= i < esc(v).len() && #[trigger] esc(v)[i] == '"' ==> i > 0 && esc(
            v,
        )[i - 1] == '\\',
    decreases v.len(),
{
    if v.len() == 0 {
    } else {
        let c = v[0];
        let head = esc_char(c);
        let tail = esc(v.skip(1));
        lemma_esc_quote_preceded(v.skip(1));
        assert(esc(v) =~= head + tail);
        assert forall|i: int|
            0 <= i < esc(v).len() && #[trigger] esc(v)[i] == '"' implies i > 0 && esc(v)[i - 1]
            == '\\' by {
            if i < head.len() {
                assert(c == '"' || c == '\\');
            } else {
                let j = i - head.len();
                assert(esc(v)[i] == tail[j]);
                if j == 0 {
                    assert(tail[0] != '"');
                } else {
                    assert(esc(v)[i - 1] == tail[j - 1]);
                }
            }
        }
    }
}

/// Escaped text without a backslash is the text itself.
proof fn lemma_esc_identity(v: Seq<char>)
    requires
        forall|i: int| 0 <= i < esc(v).len() ==> esc(v)[i] != '\\',
    ensures
        esc(v) == v,
    decreases v.len(),
{
    if v.len() == 0 {
        assert(esc(v) =~= v);
    } else {
        let c = v[0];
        if c == '"' || c == '\\' {
            assert(esc(v)[0] == '\\');
            assert(false);
        } else {
            assert(esc(v) =~= seq![c] + esc(v.skip(1)));
            assert forall|i: int| 0 <= i < esc(v.skip(1)).len() implies esc(v.skip(1))[i]
                != '\\' by {
                assert(esc(v.skip(1))[i] == esc(v)[i + 1]);
            }
            lemma_esc_identity(v.skip(1));
            assert(esc(v) =~= v);
        }
    }
}

// ---------------------------------------------------------------------------
// Numbers
// ---------------------------------------------------------------------------
/// Whether `c` is a decimal digit.
pub open spec fn is_digit(c: char) -> bool {
    48 <= c as u32 && c as u32 <= 57
}

/// The value of a decimal digit character.
pub open spec fn digit_of(c: char) -> int {
    c as u32 - 48
}

/// Splits off the longest digit prefix.
pub open spec fn split_digits(s: Seq<char>) -> (Seq<char>, Seq<char>)
    decreases s.len(),
{
    if s.len() > 0 && is_digit(s[0]) {
        let (d, r) = split_digits(s.skip(1));
        (seq![s[0]] + d, r)
    } else {
        (Seq::empty(), s)
    }
}

/// The value of a digit string, most significant digit first.
pub open spec fn digits_val(d: Seq<char>) -> int
    decreases d.len(),
{
    if d.len() == 0 {
        0
    } else {
        digits_val(d.drop_last()) * 10 + digit_of(d.last())
    }
}

/// Parses an unsigned decimal number that fits in 64 bits.
pub open spec fn parse_u64(s: Seq<char>) -> Option<(u64, Seq<char>)> {
    let (d, r) = split_digits(s);
    if d.len() > 0 && digits_val(d) <= u64::MAX {
        Some((digits_val(d) as u64, r))
    } else {
        None
    }
}

/// Every character of a decimal rendering is a digit.
proof fn lemma_u64_dec_digits(n: int)
    requires
        n >= 0,
    ensures
        forall|i: int| 0 <= i < u64_dec(n).len() ==> is_digit(u64_dec(n)[i]),
    decreases n,
{
    if n < 10 {
    } else {
        lemma_u64_dec_digits(n / 10);
        assert forall|i: int| 0 <= i < u64_dec(n).len() implies is_digit(u64_dec(n)[i]) by {
            if i < u64_dec(n / 10).len() {
                assert(u64_dec(n)[i] == u64_dec(n / 10)[i]);
            } else {
                assert(u64_dec(n)[i] == ((48 + n % 10) as u8) as char);
            }
        }
    }
}

/// Splitting digits off a digit string followed by a non-digit recovers the
/// digit string and the rest.
proof fn lemma_split_digits_exact(d: Seq<char>, r: Seq<char>)
    requires
        forall|i: int| 0 <= i < d.len() ==> is_digit(d[i]),
        r.len() > 0 ==> !is_digit(r[0]),
    ensures
        split_digits(d + r) == (d, r),
    decreases d.len(),
{
    if d.len() == 0 {
        assert(d + r =~= r);
        assert(split_digits(r) == (Seq::<char>::empty(), r));
        assert(Seq::<char>::empty() =~= d);
    } else {
        let s = d + r;
        assert(s[0] == d[0] && is_digit(d[0]));
        assert(s.skip(1) =~= d.skip(1) + r);
        assert(forall|i: int| 0 <= i < d.skip(1).len() ==> is_digit(d.skip(1)[i]));
        lemma_split_digits_exact(d.skip(1), r);
        assert(seq![s[0]] + d.skip(1) =~= d);
    }
}

/// The decimal rendering evaluates to the number it renders.
proof fn lemma_digits_val_u64_dec(n: int)
    requires
        n >= 0,
    ensures
        digits_val(u64_dec(n)) == n,
    decreases n,
{
    if n < 10 {
        let d = u64_dec(n);
        assert(d =~= seq![((48 + n) as u8) as char]);
        assert(d.drop_last() =~= Seq::<char>::empty());
        assert(digits_val(Seq::<char>::empty()) == 0);
        assert(digits_val(d) == digit_of(((48 + n) as u8) as char));
    } else {
        lemma_digits_val_u64_dec(n / 10);
        let d = u64_dec(n);
        assert(d =~= u64_dec(n / 10) + seq![((48 + n % 10) as u8) as char]);
        assert(d.drop_last() =~= u64_dec(n / 10));
        assert(d.last() == ((48 + n % 10) as u8) as char);
        assert(digit_of(((48 + n % 10) as u8) as char) == n % 10);
        assert(digits_val(d) == (n / 10) * 10 + n % 10);
        assert((n / 10) * 10 + n % 10 == n) by (nonlinear_arith);
    }
}

/// Parsing inverts the decimal rendering of a 64-bit number.
proof fn lemma_parse_u64_rt(n: u64, rest: Seq<char>)
    requires
        rest.len() > 0 ==> !is_digit(rest[0]),
    ensures
        parse_u64(u64_dec(n as int) + rest) == Some((n, rest)),
{
    lemma_u64_dec_digits(n as int);
    lemma_split_digits_exact(u64_dec(n as int), rest);
    lemma_digits_val_u64_dec(n as int);
    assert(u64_dec(n as int).len() > 0);
}

// ---------------------------------------------------------------------------
// Literal matching
// ---------------------------------------------------------------------------
/// Whether `s` begins with the characters of `p`.
pub open spec fn starts_with(s: Seq<char>, p: Seq<char>) -> bool {
    p.len() <= s.len() && s.take(p.len() as int) == p
}

/// A text beginning with `p` splits as `p` followed by the rest.
proof fn lemma_starts_with_concat(p: Seq<char>, t: Seq<char>)
    ensures
        starts_with(p + t, p),
        (p + t).skip(p.len() as int) == t,
{
    assert((p + t).take(p.len() as int) =~= p);
    assert((p + t).skip(p.len() as int) =~= t);
}

/// A mismatch at any single position refutes `starts_with`.
proof fn lemma_not_starts_with(s: Seq<char>, p: Seq<char>, i: int)
    requires
        0 <= i < p.len(),
        i < s.len(),
        s[i] != p[i],
    ensures
        !starts_with(s, p),
{
    if starts_with(s, p) {
        assert(s.take(p.len() as int)[i] == s[i]);
    }
}

} // verus!

verus! {

// ---------------------------------------------------------------------------
// Object keys of the canonical encodings
// ---------------------------------------------------------------------------
pub open spec fn k_kty() -> Seq<char> {
    "\"kty\":"@
}

pub open spec fn k_crv() -> Seq<char> {
    ",\"crv\":"@
}

pub open spec fn k_x() -> Seq<char> {
    ",\"x\":"@
}

pub open spec fn k_iss() -> Seq<char> {
    "\"iss\":"@
}

pub open spec fn k_sub() -> Seq<char> {
    ",\"sub\":"@
}

pub open spec fn k_typ() -> Seq<char> {
    "\"typ\":"@
}

pub open spec fn k_enc() -> Seq<char> {
    ",\"enc\":"@
}

pub open spec fn k_kid() -> Seq<char> {
    ",\"kid\":"@
}

pub open spec fn k_skid() -> Seq<char> {
    ",\"skid\":"@
}

pub open spec fn k_alg() -> Seq<char> {
    ",\"alg\":"@
}

pub open spec fn k_jku() -> Seq<char> {
    ",\"jku\":"@
}

pub open spec fn k_jwk() -> Seq<char> {
    ",\"jwk\":"@
}

pub open spec fn k_epk() -> Seq<char> {
    ",\"epk\":"@
}

pub open spec fn k_cty() -> Seq<char> {
    ",\"cty\":"@
}

/// The characters of the JWK and prior-claims keys, spelt out.
proof fn lemma_small_keys()
    ensures
        k_kty() =~= seq!['"', 'k', 't', 'y', '"', ':'],
        k_crv() =~= seq![',', '"', 'c', 'r', 'v', '"', ':'],
        k_x() =~= seq![',', '"', 'x', '"', ':'],
        k_iss() =~= seq!['"', 'i', 's', 's', '"', ':'],
        k_sub() =~= seq![',', '"', 's', 'u', 'b', '"', ':'],
{
    reveal_strlit("\"kty\":");
    reveal_strlit(",\"crv\":");
    reveal_strlit(",\"x\":");
    reveal_strlit("\"iss\":");
    reveal_strlit(",\"sub\":");
}

/// The characters of the JWM protection-header keys, spelt out.
proof fn lemma_jwm_keys()
    ensures
        k_typ() =~= seq!['"', 't', 'y', 'p', '"', ':'],
        k_enc() =~= seq![',', '"', 'e', 'n', 'c', '"', ':'],
        k_kid() =~= seq![',', '"', 'k', 'i', 'd', '"', ':'],
        k_skid() =~= seq![',', '"', 's', 'k', 'i', 'd', '"', ':'],
        k_alg() =~= seq![',', '"', 'a', 'l', 'g', '"', ':'],
        k_jku() =~= seq![',', '"', 'j', 'k', 'u', '"', ':'],
        k_jwk() =~= seq![',', '"', 'j', 'w', 'k', '"', ':'],
        k_epk() =~= seq![',', '"', 'e', 'p', 'k', '"', ':'],
        k_cty() =~= seq![',', '"', 'c', 't', 'y', '"', ':'],
{
    reveal_strlit("\"typ\":");
    reveal_strlit(",\"enc\":");
    reveal_strlit(",\"kid\":");
    reveal_strlit(",\"skid\":");
    reveal_strlit(",\"alg\":");
    reveal_strlit(",\"jku\":");
    reveal_strlit(",\"jwk\":");
    reveal_strlit(",\"epk\":");
    reveal_strlit(",\"cty\":");
}

/// Positions of a prefix read back through `starts_with`.
proof fn lemma_starts_with_chars(t: Seq<char>, p: Seq<char>)
    requires
        starts_with(t, p),
    ensures
        forall|i: int| 0 <= i < p.len() ==> t[i] == p[i],
{
    assert forall|i: int| 0 <= i < p.len() implies t[i] == p[i] by {
        assert(t.take(p.len() as int)[i] == t[i]);
    }
}

// ---------------------------------------------------------------------------
// Optional-field combinators
// ---------------------------------------------------------------------------
/// The canonical form of an optional string field: key and string literal
/// when present, nothing when absent.
pub open spec fn enc_opt_str_field(key: Seq<char>, v: Option<Seq<char>>) -> Seq<char> {
    match v {
        Some(x) => key + enc_string(x),
        None => Seq::empty(),
    }
}

/// Parses an optional string field: the key either opens the text, followed
/// by its string value, or the field is absent and nothing is consumed.
pub open spec fn parse_opt_str_field(s: Seq<char>, key: Seq<char>) -> Option<
    (Option<Seq<char>>, Seq<char>),
> {
    if starts_with(s, key) {
        match parse_string(s.skip(key.len() as int)) {
            Some((v, r)) => Some((Some(v), r)),
            None => None,
        }
    } else {
        Some((None, s))
    }
}

/// The canonical form of an optional unsigned-integer field.
pub open spec fn enc_opt_u64_field(key: Seq<char>, v: Option<u64>) -> Seq<char> {
    match v {
        Some(n) => key + u64_dec(n as int),
        None => Seq::empty(),
    }
}

/// Parses an optional unsigned-integer field.
pub open spec fn parse_opt_u64_field(s: Seq<char>, key: Seq<char>) -> Option<
    (Option<u64>, Seq<char>),
> {
    if starts_with(s, key) {
        match parse_u64(s.skip(key.len() as int)) {
            Some((v, r)) => Some((Some(v), r)),
            None => None,
        }
    } else {
        Some((None, s))
    }
}

/// Parsing inverts encoding for an optional string field, provided an
/// absent field's following text does not begin with the field's key.
proof fn lemma_opt_str_field_rt(key: Seq<char>, v: Option<Seq<char>>, tail: Seq<char>)
    requires
        v is None ==> !starts_with(tail, key),
    ensures
        parse_opt_str_field(enc_opt_str_field(key, v) + tail, key) == Some((v, tail)),
{
    match v {
        Some(x) => {
            let s = enc_opt_str_field(key, v) + tail;
            assert(s =~= key + (enc_string(x) + tail));
            lemma_starts_with_concat(key, enc_string(x) + tail);
            lemma_parse_string_rt(x, tail);
        },
        None => {
            assert(enc_opt_str_field(key, v) + tail =~= tail);
        },
    }
}

/// Parsing inverts encoding for an optional integer field, provided the
/// following text does not begin with a digit, nor (when the field is
/// absent) with the field's key.
proof fn lemma_opt_u64_field_rt(key: Seq<char>, v: Option<u64>, tail: Seq<char>)
    requires
        v is None ==> !starts_with(tail, key),
        tail.len() > 0 ==> !is_digit(tail[0]),
    ensures
        parse_opt_u64_field(enc_opt_u64_field(key, v) + tail, key) == Some((v, tail)),
{
    match v {
        Some(n) => {
            let s = enc_opt_u64_field(key, v) + tail;
            assert(s =~= key + (u64_dec(n as int) + tail));
            lemma_starts_with_concat(key, u64_dec(n as int) + tail);
            lemma_parse_u64_rt(n, tail);
        },
        None => {
            assert(enc_opt_u64_field(key, v) + tail =~= tail);
        },
    }
}

// ---------------------------------------------------------------------------
// JWK
// ---------------------------------------------------------------------------
/// The canonical JSON encoding of a JWK.
pub open spec fn enc_jwk(v: JwkView) -> Seq<char> {
    seq!['{'] + k_kty() + enc_string(v.kty) + enc_opt_str_field(k_crv(), v.crv)
        + enc_opt_str_field(k_x(), v.x) + seq!['}']
}

/// Parses the canonical JSON encoding of a JWK.
pub open spec fn parse_jwk(s: Seq<char>) -> Option<(JwkView, Seq<char>)> {
    if starts_with(s, seq!['{'] + k_kty()) {
        match parse_string(s.skip(1 + k_kty().len() as int)) {
            Some((kty, r1)) => match parse_opt_str_field(r1, k_crv()) {
                Some((crv, r2)) => match parse_opt_str_field(r2, k_x()) {
                    Some((x, r3)) => if r3.len() > 0 && r3[0] == '}' {
                        Some((JwkView { kty, crv, x }, r3.skip(1)))
                    } else {
                        None
                    },
                    None => None,
                },
                None => None,
            },
            None => None,
        }
    } else {
        None
    }
}

/// Parsing inverts encoding for a JWK, whatever trailing text follows.
proof fn lemma_parse_jwk_rt(v: JwkView, rest: Seq<char>)
    ensures
        parse_jwk(enc_jwk(v) + rest) == Some((v, rest)),
{
    lemma_small_keys();
    let s = enc_jwk(v) + rest;
    let t3 = seq!['}'] + rest;
    let t2 = enc_opt_str_field(k_x(), v.x) + t3;
    let t1 = enc_opt_str_field(k_crv(), v.crv) + t2;
    let p = seq!['{'] + k_kty();
    assert(s =~= p + (enc_string(v.kty) + t1));
    lemma_starts_with_concat(p, enc_string(v.kty) + t1);
    assert(s.skip(1 + k_kty().len() as int) == enc_string(v.kty) + t1);
    lemma_parse_string_rt(v.kty, t1);
    if v.crv is None {
        assert(t1 =~= t2);
        if starts_with(t2, k_crv()) {
            lemma_starts_with_chars(t2, k_crv());
            if v.x is Some {
                assert(t2[2] == k_x()[2]);
                assert(false);
            } else {
                assert(t2 =~= t3);
                assert(t3[0] == '}');
                assert(false);
            }
        }
    }
    lemma_opt_str_field_rt(k_crv(), v.crv, t2);
    if v.x is None {
        assert(t2 =~= t3);
        if starts_with(t3, k_x()) {
            lemma_starts_with_chars(t3, k_x());
            assert(false);
        }
    }
    lemma_opt_str_field_rt(k_x(), v.x, t3);
    assert(t3[0] == '}');
    assert(t3.skip(1) =~= rest);
    assert(JwkView { kty: v.kty, crv: v.crv, x: v.x } =~= v);
}

// ---------------------------------------------------------------------------
// Prior claims
// ---------------------------------------------------------------------------
/// The canonical JSON encoding of a DID-rotation claim set.
pub open spec fn enc_prior(v: PriorClaimsView) -> Seq<char> {
    seq!['{'] + k_iss() + enc_string(v.iss) + k_sub() + enc_string(v.sub) + seq!['}']
}

/// Parses the canonical JSON encoding of a DID-rotation claim set.
pub open spec fn parse_prior(s: Seq<char>) -> Option<(PriorClaimsView, Seq<char>)> {
    if starts_with(s, seq!['{'] + k_iss()) {
        match parse_string(s.skip(1 + k_iss().len() as int)) {
            Some((iss, r1)) => if starts_with(r1, k_sub()) {
                match parse_string(r1.skip(k_sub().len() as int)) {
                    Some((sub, r2)) => if r2.len() > 0 && r2[0] == '}' {
                        Some((PriorClaimsView { iss, sub }, r2.skip(1)))
                    } else {
                        None
                    },
                    None => None,
                }
            } else {
                None
            },
            None => None,
        }
    } else {
        None
    }
}

/// Parsing inverts encoding for a claim set, whatever trailing text
/// follows.
proof fn lemma_parse_prior_rt(v: PriorClaimsView, rest: Seq<char>)
    ensures
        parse_prior(enc_prior(v) + rest) == Some((v, rest)),
{
    lemma_small_keys();
    let s = enc_prior(v) + rest;
    let t2 = seq!['}'] + rest;
    let t1 = k_sub() + enc_string(v.sub) + t2;
    let p = seq!['{'] + k_iss();
    assert(s =~= p + (enc_string(v.iss) + t1));
    lemma_starts_with_concat(p, enc_string(v.iss) + t1);
    assert(s.skip(1 + k_iss().len() as int) == enc_string(v.iss) + t1);
    lemma_parse_string_rt(v.iss, t1);
    assert(t1 =~= k_sub() + (enc_string(v.sub) + t2));
    lemma_starts_with_concat(k_sub(), enc_string(v.sub) + t2);
    lemma_parse_string_rt(v.sub, t2);
    assert(t2[0] == '}');
    assert(t2.skip(1) =~= rest);
    assert(PriorClaimsView { iss: v.iss, sub: v.sub } =~= v);
}

} // verus!

verus! {

// ---------------------------------------------------------------------------
// JWM protection header
// ---------------------------------------------------------------------------
/// The canonical form of an optional embedded-JWK field.
pub open spec fn enc_opt_jwk_field(key: Seq<char>, v: Option<JwkView>) -> Seq<char> {
    match v {
        Some(k) => key + enc_jwk(k),
        None => Seq::empty(),
    }
}

/// Parses an optional embedded-JWK field.
pub open spec fn parse_opt_jwk_field(s: Seq<char>, key: Seq<char>) -> Option<
    (Option<JwkView>, Seq<char>),
> {
    if starts_with(s, key) {
        match parse_jwk(s.skip(key.len() as int)) {
            Some((k, r)) => Some((Some(k), r)),
            None => None,
        }
    } else {
        Some((None, s))
    }
}

/// Parsing inverts encoding for an optional embedded-JWK field, provided an
/// absent field's following text does not begin with the field's key.
proof fn lemma_opt_jwk_field_rt(key: Seq<char>, v: Option<JwkView>, tail: Seq<char>)
    requires
        v is None ==> !starts_with(tail, key),
    ensures
        parse_opt_jwk_field(enc_opt_jwk_field(key, v) + tail, key) == Some((v, tail)),
{
    match v {
        Some(k) => {
            let s = enc_opt_jwk_field(key, v) + tail;
            assert(s =~= key + (enc_jwk(k) + tail));
            lemma_starts_with_concat(key, enc_jwk(k) + tail);
            lemma_parse_jwk_rt(k, tail);
        },
        None => {
            assert(enc_opt_jwk_field(key, v) + tail =~= tail);
        },
    }
}

/// The canonical JSON encoding of a JWM protection header: `typ` first and
/// always present, then each optional field in declaration order.
pub open spec fn enc_jwm(v: JwmHeaderView) -> Seq<char> {
    seq!['{'] + k_typ() + enc_string(v.typ) + enc_opt_str_field(k_enc(), v.enc)
        + enc_opt_str_field(k_kid(), v.kid) + enc_opt_str_field(k_skid(), v.skid)
        + enc_opt_str_field(k_alg(), v.alg) + enc_opt_str_field(k_jku(), v.jku)
        + enc_opt_jwk_field(k_jwk(), v.jwk) + enc_opt_jwk_field(k_epk(), v.epk)
        + enc_opt_str_field(k_cty(), v.cty) + seq!['}']
}

/// Parses the canonical JSON encoding of a JWM protection header.
pub open spec fn parse_jwm(s: Seq<char>) -> Option<(JwmHeaderView, Seq<char>)> {
    if starts_with(s, seq!['{'] + k_typ()) {
        match parse_string(s.skip(1 + k_typ().len() as int)) {
            Some((typ, r1)) => match parse_opt_str_field(r1, k_enc()) {
                Some((enc, r2)) => match parse_opt_str_field(r2, k_kid()) {
                    Some((kid, r3)) => match parse_opt_str_field(r3, k_skid()) {
                        Some((skid, r4)) => match parse_opt_str_field(r4, k_alg()) {
                            Some((alg, r5)) => match parse_opt_str_field(r5, k_jku()) {
                                Some((jku, r6)) => match parse_opt_jwk_field(r6, k_jwk()) {
                                    Some((jwk, r7)) => match parse_opt_jwk_field(r7, k_epk()) {
                                        Some((epk, r8)) => match parse_opt_str_field(
                                            r8,
                                            k_cty(),
                                        ) {
                                            Some((cty, r9)) => if r9.len() > 0 && r9[0] == '}' {
                                                Some(
                                                    (
                                                        JwmHeaderView {
                                                            typ,
                                                            enc,
                                                            kid,
                                                            skid,
                                                            alg,
                                                            jku,
                                                            jwk,
                                                            epk,
                                                            cty,
                                                        },
                                                        r9.skip(1),
                                                    ),
                                                )
                                            } else {
                                                None
                                            },
                                            None => None,
                                        },
                                        None => None,
                                    },
                                    None => None,
                                },
                                None => None,
                            },
                            None => None,
                        },
                        None => None,
                    },
                    None => None,
                },
                None => None,
            },
            None => None,
        }
    } else {
        None
    }
}

/// The canonical text that follows the `cty` field: the closing brace and
/// whatever trails the object.
pub open spec fn jwm_t9(rest: Seq<char>) -> Seq<char> {
    seq!['}'] + rest
}

/// The canonical text from the `cty` field on.
pub open spec fn jwm_t8(v: JwmHeaderView, rest: Seq<char>) -> Seq<char> {
    enc_opt_str_field(k_cty(), v.cty) + jwm_t9(rest)
}

/// The canonical text from the `epk` field on.
pub open spec fn jwm_t7(v: JwmHeaderView, rest: Seq<char>) -> Seq<char> {
    enc_opt_jwk_field(k_epk(), v.epk) + jwm_t8(v, rest)
}

/// The canonical text from the `jwk` field on.
pub open spec fn jwm_t6(v: JwmHeaderView, rest: Seq<char>) -> Seq<char> {
    enc_opt_jwk_field(k_jwk(), v.jwk) + jwm_t7(v, rest)
}

/// The canonical text from the `jku` field on.
pub open spec fn jwm_t5(v: JwmHeaderView, rest: Seq<char>) -> Seq<char> {
    enc_opt_str_field(k_jku(), v.jku) + jwm_t6(v, rest)
}

/// The canonical text from the `alg` field on.
pub open spec fn jwm_t4(v: JwmHeaderView, rest: Seq<char>) -> Seq<char> {
    enc_opt_str_field(k_alg(), v.alg) + jwm_t5(v, rest)
}

/// The canonical text from the `skid` field on.
pub open spec fn jwm_t3(v: JwmHeaderView, rest: Seq<char>) -> Seq<char> {
    enc_opt_str_field(k_skid(), v.skid) + jwm_t4(v, rest)
}

/// The canonical text from the `kid` field on.
pub open spec fn jwm_t2(v: JwmHeaderView, rest: Seq<char>) -> Seq<char> {
    enc_opt_str_field(k_kid(), v.kid) + jwm_t3(v, rest)
}

/// The canonical text from the `enc` field on.
pub open spec fn jwm_t1(v: JwmHeaderView, rest: Seq<char>) -> Seq<char> {
    enc_opt_str_field(k_enc(), v.enc) + jwm_t2(v, rest)
}

/// Step of the inversion proof at the `cty` field: the field parses back,
/// and the suffix can only open with its key or the closing brace.
#[verifier::rlimit(100)]
proof fn lemma_jwm_step_cty(v: JwmHeaderView, rest: Seq<char>)
    ensures
        parse_opt_str_field(jwm_t8(v, rest), k_cty()) == Some((v.cty, jwm_t9(rest))),
        jwm_t8(v, rest)[0] == '}' || (jwm_t8(v, rest)[0] == ',' && jwm_t8(v, rest)[2] == 'c'
            && jwm_t8(v, rest)[3] == 't'),
{
    lemma_jwm_keys();
    let t9 = jwm_t9(rest);
    let t8 = jwm_t8(v, rest);
    assert(t9[0] == '}');
    if v.cty is None {
        if starts_with(t9, k_cty()) {
            lemma_starts_with_chars(t9, k_cty());
            assert(false);
        }
    }
    lemma_opt_str_field_rt(k_cty(), v.cty, t9);
    match v.cty {
        Some(x) => {
            assert(t8 =~= k_cty() + (enc_string(x) + t9));
            lemma_starts_with_concat(k_cty(), enc_string(x) + t9);
            lemma_starts_with_chars(t8, k_cty());
        },
        None => {
            assert(t8 =~= t9);
        },
    }
}

/// Step of the inversion proof at the `epk` field.
#[verifier::rlimit(100)]
proof fn lemma_jwm_step_epk(v: JwmHeaderView, rest: Seq<char>)
    ensures
        parse_opt_jwk_field(jwm_t7(v, rest), k_epk()) == Some((v.epk, jwm_t8(v, rest))),
        jwm_t7(v, rest)[0] == '}' || (jwm_t7(v, rest)[0] == ',' && ((jwm_t7(v, rest)[2] == 'c'
            && jwm_t7(v, rest)[3] == 't') || (jwm_t7(v, rest)[2] == 'e' && jwm_t7(v, rest)[3]
            == 'p'))),
{
    lemma_jwm_keys();
    lemma_jwm_step_cty(v, rest);
    let t8 = jwm_t8(v, rest);
    let t7 = jwm_t7(v, rest);
    if v.epk is None {
        if starts_with(t8, k_epk()) {
            lemma_starts_with_chars(t8, k_epk());
            assert(false);
        }
    }
    lemma_opt_jwk_field_rt(k_epk(), v.epk, t8);
    match v.epk {
        Some(k) => {
            assert(t7 =~= k_epk() + (enc_jwk(k) + t8));
            lemma_starts_with_concat(k_epk(), enc_jwk(k) + t8);
            lemma_starts_with_chars(t7, k_epk());
        },
        None => {
            assert(t7 =~= t8);
        },
    }
}

/// Step of the inversion proof at the `jwk` field.
#[verifier::rlimit(100)]
proof fn lemma_jwm_step_jwk(v: JwmHeaderView, rest: Seq<char>)
    ensures
        parse_opt_jwk_field(jwm_t6(v, rest), k_jwk()) == Some((v.jwk, jwm_t7(v, rest))),
        jwm_t6(v, rest)[0] == '}' || (jwm_t6(v, rest)[0] == ',' && ((jwm_t6(v, rest)[2] == 'c'
            && jwm_t6(v, rest)[3] == 't') || (jwm_t6(v, rest)[2] == 'e' && jwm_t6(v, rest)[3]
            == 'p') || (jwm_t6(v, rest)[2] == 'j' && jwm_t6(v, rest)[3] == 'w'))),
{
    lemma_jwm_keys();
    lemma_jwm_step_epk(v, rest);
    let t7 = jwm_t7(v, rest);
    let t6 = jwm_t6(v, rest);
    if v.jwk is None {
        if starts_with(t7, k_jwk()) {
            lemma_starts_with_chars(t7, k_jwk());
            assert(false);
        }
    }
    lemma_opt_jwk_field_rt(k_jwk(), v.jwk, t7);
    match v.jwk {
        Some(k) => {
            assert(t6 =~= k_jwk() + (enc_jwk(k) + t7));
            lemma_starts_with_concat(k_jwk(), enc_jwk(k) + t7);
            lemma_starts_with_chars(t6, k_jwk());
        },
        None => {
            assert(t6 =~= t7);
        },
    }
}

/// Step of the inversion proof at the `jku` field.
#[verifier::rlimit(100)]
proof fn lemma_jwm_step_jku(v: JwmHeaderView, rest: Seq<char>)
    ensures
        parse_opt_str_field(jwm_t5(v, rest), k_jku()) == Some((v.jku, jwm_t6(v, rest))),
        jwm_t5(v, rest)[0] == '}' || (jwm_t5(v, rest)[0] == ',' && ((jwm_t5(v, rest)[2] == 'c'
            && jwm_t5(v, rest)[3] == 't') || (jwm_t5(v, rest)[2] == 'e' && jwm_t5(v, rest)[3]
            == 'p') || (jwm_t5(v, rest)[2] == 'j' && jwm_t5(v, rest)[3] == 'w') || (jwm_t5(
            v,
            rest,
        )[2] == 'j' && jwm_t5(v, rest)[3] == 'k'))),
{
    lemma_jwm_keys();
    lemma_jwm_step_jwk(v, rest);
    let t6 = jwm_t6(v, rest);
    let t5 = jwm_t5(v, rest);
    if v.jku is None {
        if starts_with(t6, k_jku()) {
            lemma_starts_with_chars(t6, k_jku());
            assert(false);
        }
    }
    lemma_opt_str_field_rt(k_jku(), v.jku, t6);
    match v.jku {
        Some(x) => {
            assert(t5 =~= k_jku() + (enc_string(x) + t6));
            lemma_starts_with_concat(k_jku(), enc_string(x) + t6);
            lemma_starts_with_chars(t5, k_jku());
        },
        None => {
            assert(t5 =~= t6);
        },
    }
}

/// Step of the inversion proof at the `alg` field.
#[verifier::rlimit(100)]
proof fn lemma_jwm_step_alg(v: JwmHeaderView, rest: Seq<char>)
    ensures
        parse_opt_str_field(jwm_t4(v, rest), k_alg()) == Some((v.alg, jwm_t5(v, rest))),
        jwm_t4(v, rest)[0] == '}' || (jwm_t4(v, rest)[0] == ',' && ((jwm_t4(v, rest)[2] == 'c'
            && jwm_t4(v, rest)[3] == 't') || (jwm_t4(v, rest)[2] == 'e' && jwm_t4(v, rest)[3]
            == 'p') || (jwm_t4(v, rest)[2] == 'j') || (jwm_t4(v, rest)[2] == 'a' && jwm_t4(
            v,
            rest,
        )[3] == 'l'))),
{
    lemma_jwm_keys();
    lemma_jwm_step_jku(v, rest);
    let t5 = jwm_t5(v, rest);
    let t4 = jwm_t4(v, rest);
    if v.alg is None {
        if starts_with(t5, k_alg()) {
            lemma_starts_with_chars(t5, k_alg());
            assert(false);
        }
    }
    lemma_opt_str_field_rt(k_alg(), v.alg, t5);
    match v.alg {
        Some(x) => {
            assert(t4 =~= k_alg() + (enc_string(x) + t5));
            lemma_starts_with_concat(k_alg(), enc_string(x) + t5);
            lemma_starts_with_chars(t4, k_alg());
        },
        None => {
            assert(t4 =~= t5);
        },
    }
}

/// Step of the inversion proof at the `skid` field.
#[verifier::rlimit(100)]
proof fn lemma_jwm_step_skid(v: JwmHeaderView, rest: Seq<char>)
    ensures
        parse_opt_str_field(jwm_t3(v, rest), k_skid()) == Some((v.skid, jwm_t4(v, rest))),
        jwm_t3(v, rest)[0] == '}' || (jwm_t3(v, rest)[0] == ',' && ((jwm_t3(v, rest)[2] == 'c'
            && jwm_t3(v, rest)[3] == 't') || (jwm_t3(v, rest)[2] == 'e' && jwm_t3(v, rest)[3]
            == 'p') || (jwm_t3(v, rest)[2] == 'j') || (jwm_t3(v, rest)[2] == 'a') || (jwm_t3(
            v,
            rest,
        )[2] == 's' && jwm_t3(v, rest)[3] == 'k'))),
{
    lemma_jwm_keys();
    lemma_jwm_step_alg(v, rest);
    let t4 = jwm_t4(v, rest);
    let t3 = jwm_t3(v, rest);
    if v.skid is None {
        if starts_with(t4, k_skid()) {
            lemma_starts_with_chars(t4, k_skid());
            assert(false);
        }
    }
    lemma_opt_str_field_rt(k_skid(), v.skid, t4);
    match v.skid {
        Some(x) => {
            assert(t3 =~= k_skid() + (enc_string(x) + t4));
            lemma_starts_with_concat(k_skid(), enc_string(x) + t4);
            lemma_starts_with_chars(t3, k_skid());
        },
        None => {
            assert(t3 =~= t4);
        },
    }
}

/// Step of the inversion proof at the `kid` field.
#[verifier::rlimit(100)]
proof fn lemma_jwm_step_kid(v: JwmHeaderView, rest: Seq<char>)
    ensures
        parse_opt_str_field(jwm_t2(v, rest), k_kid()) == Some((v.kid, jwm_t3(v, rest))),
        jwm_t2(v, rest)[0] == '}' || (jwm_t2(v, rest)[0] == ',' && ((jwm_t2(v, rest)[2] == 'c'
            && jwm_t2(v, rest)[3] == 't') || (jwm_t2(v, rest)[2] == 'e' && jwm_t2(v, rest)[3]
            == 'p') || (jwm_t2(v, rest)[2] == 'j') || (jwm_t2(v, rest)[2] == 'a') || (jwm_t2(
            v,
            rest,
        )[2] == 's') || (jwm_t2(v, rest)[2] == 'k' && jwm_t2(v, rest)[3] == 'i'))),
{
    lemma_jwm_keys();
    lemma_jwm_step_skid(v, rest);
    let t3 = jwm_t3(v, rest);
    let t2 = jwm_t2(v, rest);
    if v.kid is None {
        if starts_with(t3, k_kid()) {
            lemma_starts_with_chars(t3, k_kid());
            assert(false);
        }
    }
    lemma_opt_str_field_rt(k_kid(), v.kid, t3);
    match v.kid {
        Some(x) => {
            assert(t2 =~= k_kid() + (enc_string(x) + t3));
            lemma_starts_with_concat(k_kid(), enc_string(x) + t3);
            lemma_starts_with_chars(t2, k_kid());
        },
        None => {
            assert(t2 =~= t3);
        },
    }
}

/// Step of the inversion proof at the `enc` field.
#[verifier::rlimit(100)]
proof fn lemma_jwm_step_enc(v: JwmHeaderView, rest: Seq<char>)
    ensures
        parse_opt_str_field(jwm_t1(v, rest), k_enc()) == Some((v.enc, jwm_t2(v, rest))),
{
    lemma_jwm_keys();
    lemma_jwm_step_kid(v, rest);
    let t2 = jwm_t2(v, rest);
    if v.enc is None {
        if starts_with(t2, k_enc()) {
            lemma_starts_with_chars(t2, k_enc());
            assert(false);
        }
    }
    lemma_opt_str_field_rt(k_enc(), v.enc, t2);
}

/// Concatenation of character sequences is associative.
proof fn lemma_assoc(x: Seq<char>, y: Seq<char>, z: Seq<char>)
    ensures
        (x + y) + z == x + (y + z),
{
    assert((x + y) + z =~= x + (y + z));
}

/// The canonical text of a JWM header splits as its opening brace and
/// `typ` key, the `typ` string, and the suffix of optional fields.
#[verifier::rlimit(100)]
proof fn lemma_jwm_split(v: JwmHeaderView, rest: Seq<char>)
    ensures
        starts_with(enc_jwm(v) + rest, seq!['{'] + k_typ()),
        (enc_jwm(v) + rest).skip(1 + k_typ().len() as int) == enc_string(v.typ) + jwm_t1(v, rest),
{
    let p = seq!['{'] + k_typ();
    let b0 = p + enc_string(v.typ);
    let f1 = enc_opt_str_field(k_enc(), v.enc);
    let f2 = enc_opt_str_field(k_kid(), v.kid);
    let f3 = enc_opt_str_field(k_skid(), v.skid);
    let f4 = enc_opt_str_field(k_alg(), v.alg);
    let f5 = enc_opt_str_field(k_jku(), v.jku);
    let f6 = enc_opt_jwk_field(k_jwk(), v.jwk);
    let f7 = enc_opt_jwk_field(k_epk(), v.epk);
    let f8 = enc_opt_str_field(k_cty(), v.cty);
    let b1 = b0 + f1;
    let b2 = b1 + f2;
    let b3 = b2 + f3;
    let b4 = b3 + f4;
    let b5 = b4 + f5;
    let b6 = b5 + f6;
    let b7 = b6 + f7;
    let b8 = b7 + f8;
    assert(enc_jwm(v) == b8 + seq!['}']);
    lemma_assoc(b8, seq!['}'], rest);
    lemma_assoc(b7, f8, jwm_t9(rest));
    lemma_assoc(b6, f7, jwm_t8(v, rest));
    lemma_assoc(b5, f6, jwm_t7(v, rest));
    lemma_assoc(b4, f5, jwm_t6(v, rest));
    lemma_assoc(b3, f4, jwm_t5(v, rest));
    lemma_assoc(b2, f3, jwm_t4(v, rest));
    lemma_assoc(b1, f2, jwm_t3(v, rest));
    lemma_assoc(b0, f1, jwm_t2(v, rest));
    lemma_assoc(p, enc_string(v.typ), jwm_t1(v, rest));
    assert(enc_jwm(v) + rest == p + (enc_string(v.typ) + jwm_t1(v, rest)));
    lemma_starts_with_concat(p, enc_string(v.typ) + jwm_t1(v, rest));
}

/// Parsing inverts encoding for the JWM protection header, whatever
/// trailing text follows.
#[verifier::rlimit(100)]
pub proof fn lemma_parse_jwm_rt(v: JwmHeaderView, rest: Seq<char>)
    ensures
        parse_jwm(enc_jwm(v) + rest) == Some((v, rest)),
{
    let s = enc_jwm(v) + rest;
    lemma_jwm_split(v, rest);
    lemma_parse_string_rt(v.typ, jwm_t1(v, rest));
    lemma_jwm_step_enc(v, rest);
    lemma_jwm_step_kid(v, rest);
    lemma_jwm_step_skid(v, rest);
    lemma_jwm_step_alg(v, rest);
    lemma_jwm_step_jku(v, rest);
    lemma_jwm_step_jwk(v, rest);
    lemma_jwm_step_epk(v, rest);
    lemma_jwm_step_cty(v, rest);
    assert(jwm_t9(rest)[0] == '}');
    assert(jwm_t9(rest).skip(1) =~= rest);
    assert(JwmHeaderView {
        typ: v.typ,
        enc: v.enc,
        kid: v.kid,
        skid: v.skid,
        alg: v.alg,
        jku: v.jku,
        jwk: v.jwk,
        epk: v.epk,
        cty: v.cty,
    } =~= v);
}

/// Parses a complete text as a JWM protection header: the whole text must
/// be consumed.
pub open spec fn parse_jwm_text(s: Seq<char>) -> Option<JwmHeaderView> {
    match parse_jwm(s) {
        Some((v, r)) => if r.len() == 0 {
            Some(v)
        } else {
            None
        },
        None => None,
    }
}

/// Decoding the canonical encoding of any JWM protection header gives back
/// exactly that header.
pub proof fn lemma_jwm_round_trip(v: JwmHeaderView)
    ensures
        parse_jwm_text(enc_jwm(v)) == Some(v),
{
    lemma_parse_jwm_rt(v, Seq::empty());
    assert(enc_jwm(v) + Seq::<char>::empty() =~= enc_jwm(v));
}

} // verus!

verus! {

// ---------------------------------------------------------------------------
// Routing header
// ---------------------------------------------------------------------------
/// The canonical JSON string for a message type: the variant's own name.
pub open spec fn mt_str(t: MessageType) -> Seq<char> {
    match t {
        MessageType::DidcommRaw => "DidcommRaw"@,
        MessageType::DidcommJwe => "DidcommJwe"@,
        MessageType::DidcommJws => "DidcommJws"@,
        MessageType::DidcommForward => "DidcommForward"@,
    }
}

/// The message type named by a string, or `None` for a foreign string.
pub open spec fn mt_of_str(s: Seq<char>) -> Option<MessageType> {
    if s == "DidcommRaw"@ {
        Some(MessageType::DidcommRaw)
    } else if s == "DidcommJwe"@ {
        Some(MessageType::DidcommJwe)
    } else if s == "DidcommJws"@ {
        Some(MessageType::DidcommJws)
    } else if s == "DidcommForward"@ {
        Some(MessageType::DidcommForward)
    } else {
        None
    }
}

/// Reading a message-type name back yields the type it names.
proof fn lemma_mt_rt(t: MessageType)
    ensures
        mt_of_str(mt_str(t)) == Some(t),
{
    reveal_strlit("DidcommRaw");
    reveal_strlit("DidcommJwe");
    reveal_strlit("DidcommJws");
    reveal_strlit("DidcommForward");
    assert("DidcommRaw"@[7] == 'R' && "DidcommJwe"@[7] == 'J' && "DidcommJws"@[7] == 'J');
    assert("DidcommJwe"@[9] == 'e' && "DidcommJws"@[9] == 's');
    assert("DidcommRaw"@.len() == 10 && "DidcommForward"@.len() == 14);
}

pub open spec fn k_id() -> Seq<char> {
    "\"id\":"@
}

pub open spec fn k_type() -> Seq<char> {
    ",\"type\":"@
}

pub open spec fn k_to() -> Seq<char> {
    ",\"to\":["@
}

pub open spec fn k_from() -> Seq<char> {
    ",\"from\":"@
}

pub open spec fn k_created() -> Seq<char> {
    ",\"created_time\":"@
}

pub open spec fn k_expires() -> Seq<char> {
    ",\"expires_time\":"@
}

pub open spec fn k_fp() -> Seq<char> {
    ",\"from_prior\":"@
}

/// The characters of the routing-header keys, spelt out.
proof fn lemma_didcomm_keys()
    ensures
        k_id() =~= seq!['"', 'i', 'd', '"', ':'],
        k_type() =~= seq![',', '"', 't', 'y', 'p', 'e', '"', ':'],
        k_to() =~= seq![',', '"', 't', 'o', '"', ':', '['],
        k_from() =~= seq![',', '"', 'f', 'r', 'o', 'm', '"', ':'],
        k_created() =~= seq![','] + (seq!['"'] + "created_time"@ + seq!['"']) + seq![':'],
        k_expires() =~= seq![','] + (seq!['"'] + "expires_time"@ + seq!['"']) + seq![':'],
        k_fp() =~= seq![','] + (seq!['"'] + "from_prior"@ + seq!['"']) + seq![':'],
        "created_time"@ =~= seq!['c', 'r', 'e', 'a', 't', 'e', 'd', '_', 't', 'i', 'm', 'e'],
        "expires_time"@ =~= seq!['e', 'x', 'p', 'i', 'r', 'e', 's', '_', 't', 'i', 'm', 'e'],
        "from_prior"@ =~= seq!['f', 'r', 'o', 'm', '_', 'p', 'r', 'i', 'o', 'r'],
        "null"@ =~= seq!['n', 'u', 'l', 'l'],
{
    reveal_strlit("\"id\":");
    reveal_strlit(",\"type\":");
    reveal_strlit(",\"to\":[");
    reveal_strlit(",\"from\":");
    reveal_strlit(",\"created_time\":");
    reveal_strlit(",\"expires_time\":");
    reveal_strlit(",\"from_prior\":");
    reveal_strlit("created_time");
    reveal_strlit("expires_time");
    reveal_strlit("from_prior");
    reveal_strlit("null");
}

/// The canonical form of the recipient list: omitted when empty.
pub open spec fn enc_to_field(to: Seq<Seq<char>>) -> Seq<char> {
    if to.len() == 0 {
        Seq::empty()
    } else {
        k_to() + enc_str_items(to) + seq![']']
    }
}

/// The canonical form of a non-empty string list body: comma-separated
/// string literals.
pub open spec fn enc_str_items(items: Seq<Seq<char>>) -> Seq<char>
    decreases items.len(),
{
    if items.len() == 0 {
        Seq::empty()
    } else if items.len() == 1 {
        enc_string(items[0])
    } else {
        enc_string(items[0]) + seq![','] + enc_str_items(items.skip(1))
    }
}

/// The canonical form of the always-present sender field: a string literal
/// or the JSON `null`.
pub open spec fn enc_from_field(from: Option<Seq<char>>) -> Seq<char> {
    k_from() + (match from {
        Some(x) => enc_string(x),
        None => "null"@,
    })
}

/// The canonical form of the flattened extension entries, in order.
pub open spec fn enc_others(es: Seq<(Seq<char>, Seq<char>)>) -> Seq<char>
    decreases es.len(),
{
    if es.len() == 0 {
        Seq::empty()
    } else {
        seq![','] + enc_string(es[0].0) + seq![':'] + enc_string(es[0].1) + enc_others(es.skip(1))
    }
}

/// The canonical form of the optional DID-rotation claim.
pub open spec fn enc_fp(fp: Option<PriorClaimsView>) -> Seq<char> {
    match fp {
        Some(p) => k_fp() + enc_prior(p),
        None => Seq::empty(),
    }
}

/// The canonical JSON encoding of a routing header: named fields in
/// declaration order, extension entries flattened after them, the
/// DID-rotation claim last.
pub open spec fn enc_didcomm(v: DidcommHeaderView) -> Seq<char> {
    seq!['{'] + k_id() + enc_string(v.id) + k_type() + enc_string(mt_str(v.m_type))
        + enc_to_field(v.to) + enc_from_field(v.from) + enc_opt_u64_field(
        k_created(),
        v.created_time,
    ) + enc_opt_u64_field(k_expires(), v.expires_time) + enc_others(v.other) + enc_fp(
        v.from_prior,
    ) + seq!['}']
}

/// Parses the body of a non-empty string list, closing bracket included.
pub open spec fn parse_str_items(s: Seq<char>) -> Option<(Seq<Seq<char>>, Seq<char>)>
    decreases s.len(),
{
    match parse_string(s) {
        Some((v, r)) => if r.len() > 0 && r[0] == ',' {
            proof {
                lemma_parse_string_shrink(s);
            }
            match parse_str_items(r.skip(1)) {
                Some((vs, r2)) => Some((seq![v] + vs, r2)),
                None => None,
            }
        } else if r.len() > 0 && r[0] == ']' {
            Some((seq![v], r.skip(1)))
        } else {
            None
        },
        None => None,
    }
}

/// Parses the recipient list: either its key opens the text, or the list
/// is absent and empty.
pub open spec fn parse_to_field(s: Seq<char>) -> Option<(Seq<Seq<char>>, Seq<char>)> {
    if starts_with(s, k_to()) {
        parse_str_items(s.skip(k_to().len() as int))
    } else {
        Some((Seq::empty(), s))
    }
}

/// Parses the always-present sender field: its key followed by `null` or a
/// string literal.
pub open spec fn parse_from_field(s: Seq<char>) -> Option<(Option<Seq<char>>, Seq<char>)> {
    if starts_with(s, k_from()) {
        let r = s.skip(k_from().len() as int);
        if starts_with(r, "null"@) {
            Some((None, r.skip(4)))
        } else {
            match parse_string(r) {
                Some((x, r2)) => Some((Some(x), r2)),
                None => None,
            }
        }
    } else {
        None
    }
}

/// Parses the flattened extension entries and the optional DID-rotation
/// claim, stopping at the closing brace (which is left unconsumed).
pub open spec fn parse_others(s: Seq<char>) -> Option<
    ((Seq<(Seq<char>, Seq<char>)>, Option<PriorClaimsView>), Seq<char>),
>
    decreases s.len(),
{
    if starts_with(s, k_fp()) {
        match parse_prior(s.skip(k_fp().len() as int)) {
            Some((p, r)) => Some(((Seq::empty(), Some(p)), r)),
            None => None,
        }
    } else if s.len() > 0 && s[0] == '}' {
        Some(((Seq::empty(), None), s))
    } else if s.len() > 0 && s[0] == ',' {
        match parse_string(s.skip(1)) {
            Some((k, r1)) => if r1.len() > 0 && r1[0] == ':' {
                proof {
                    lemma_parse_string_shrink(s.skip(1));
                    lemma_parse_string_shrink(r1.skip(1));
                }
                match parse_string(r1.skip(1)) {
                    Some((w, r2)) => match parse_others(r2) {
                        Some(((es, fp), r3)) => Some(((seq![(k, w)] + es, fp), r3)),
                        None => None,
                    },
                    None => None,
                }
            } else {
                None
            },
            None => None,
        }
    } else {
        None
    }
}

/// Parses the canonical JSON encoding of a routing header.
pub open spec fn parse_didcomm(s: Seq<char>) -> Option<(DidcommHeaderView, Seq<char>)> {
    if starts_with(s, seq!['{'] + k_id()) {
        match parse_string(s.skip(1 + k_id().len() as int)) {
            Some((id, r1)) => if starts_with(r1, k_type()) {
                match parse_string(r1.skip(k_type().len() as int)) {
                    Some((ts, r2)) => match mt_of_str(ts) {
                        Some(mt) => match parse_to_field(r2) {
                            Some((to, r3)) => match parse_from_field(r3) {
                                Some((from, r4)) => match parse_opt_u64_field(r4, k_created()) {
                                    Some((ct, r5)) => match parse_opt_u64_field(r5, k_expires()) {
                                        Some((et, r6)) => match parse_others(r6) {
                                            Some(((es, fp), r7)) => if r7.len() > 0 && r7[0]
                                                == '}' {
                                                Some(
                                                    (
                                                        DidcommHeaderView {
                                                            id,
                                                            m_type: mt,
                                                            to,
                                                            from,
                                                            created_time: ct,
                                                            expires_time: et,
                                                            other: es,
                                                            from_prior: fp,
                                                        },
                                                        r7.skip(1),
                                                    ),
                                                )
                                            } else {
                                                None
                                            },
                                            None => None,
                                        },
                                        None => None,
                                    },
                                    None => None,
                                },
                                None => None,
                            },
                            None => None,
                        },
                        None => None,
                    },
                    None => None,
                }
            } else {
                None
            },
            None => None,
        }
    } else {
        None
    }
}

/// Well-formedness of a routing header for encoding: no extension key
/// repeats the JSON key of a named field.
pub open spec fn didcomm_wf(v: DidcommHeaderView) -> bool {
    forall|i: int|
        0 <= i < v.other.len() ==> {
            &&& (#[trigger] v.other[i].0) != "id"@
            &&& v.other[i].0 != "type"@
            &&& v.other[i].0 != "to"@
            &&& v.other[i].0 != "from"@
            &&& v.other[i].0 != "created_time"@
            &&& v.other[i].0 != "expires_time"@
            &&& v.other[i].0 != "from_prior"@
        }
}

} // verus!

verus! {

/// A flattened extension entry can never open with the key of a named
/// field: the entry key's closing quote falls where the named key still
/// has name characters, or the name would have to appear escaped.
#[verifier::rlimit(100)]
proof fn lemma_entry_key_mismatch(k: Seq<char>, tail: Seq<char>, key: Seq<char>, name: Seq<char>)
    requires
        key == seq![','] + (seq!['"'] + name + seq!['"']) + seq![':'],
        name.len() >= 1,
        forall|i: int| 0 <= i < name.len() ==> name[i] != '"' && name[i] != '\\',
        k != name,
    ensures
        !starts_with(seq![','] + (enc_string(k) + tail), key),
{
    let s = seq![','] + (enc_string(k) + tail);
    let e = esc(k);
    let m = name.len() as int;
    let el = e.len() as int;
    if starts_with(s, key) {
        lemma_starts_with_chars(s, key);
        assert(key.len() == m + 4);
        assert forall|j: int| 0 <= j < m implies key[2 + j] == name[j] by {
            assert(key[2 + j] == (seq!['"'] + name + seq!['"'])[1 + j]);
        }
        assert(key[2 + m] == '"') by {
            assert(key[2 + m] == (seq!['"'] + name + seq!['"'])[1 + m]);
        }
        assert(enc_string(k) == seq!['"'] + e + seq!['"']);
        assert forall|j: int| 0 <= j < el implies s[2 + j] == e[j] by {
            assert(s[2 + j] == (enc_string(k) + tail)[1 + j]);
            assert((enc_string(k) + tail)[1 + j] == enc_string(k)[1 + j]);
            assert(enc_string(k)[1 + j] == (seq!['"'] + e)[1 + j]);
        }
        assert(s[2 + el] == '"') by {
            assert(s[2 + el] == (enc_string(k) + tail)[1 + el]);
            assert((enc_string(k) + tail)[1 + el] == enc_string(k)[1 + el]);
        }
        if el < m {
            assert(s[2 + el] == key[2 + el]);
            assert(key[2 + el] == name[el]);
            assert(false);
        } else if el == m {
            assert forall|j: int| 0 <= j < el implies e[j] == name[j] by {
                assert(s[2 + j] == key[2 + j]);
            }
            assert(e =~= name);
            assert forall|i: int| 0 <= i < esc(k).len() implies esc(k)[i] != '\\' by {
                assert(esc(k)[i] == name[i]);
            }
            lemma_esc_identity(k);
            assert(false);
        } else {
            lemma_esc_quote_preceded(k);
            assert(s[2 + m] == key[2 + m]);
            assert(e[m] == '"');
            assert(e[m - 1] == '\\');
            assert(s[1 + m] == e[m - 1]);
            assert(s[1 + m] == key[1 + m]);
            assert(key[1 + m] == name[m - 1]);
            assert(false);
        }
    }
}

/// Parsing inverts encoding for a non-empty string list body.
#[verifier::rlimit(100)]
proof fn lemma_parse_str_items_rt(items: Seq<Seq<char>>, rest: Seq<char>)
    requires
        items.len() >= 1,
    ensures
        parse_str_items(enc_str_items(items) + (seq![']'] + rest)) == Some((items, rest)),
    decreases items.len(),
{
    let s = enc_str_items(items) + (seq![']'] + rest);
    if items.len() == 1 {
        assert(s == enc_string(items[0]) + (seq![']'] + rest));
        lemma_parse_string_rt(items[0], seq![']'] + rest);
        assert((seq![']'] + rest)[0] == ']');
        assert((seq![']'] + rest).skip(1) =~= rest);
        assert(seq![items[0]] =~= items);
    } else {
        let inner = enc_str_items(items.skip(1)) + (seq![']'] + rest);
        assert(enc_str_items(items) == enc_string(items[0]) + seq![','] + enc_str_items(
            items.skip(1),
        ));
        lemma_assoc(enc_string(items[0]) + seq![','], enc_str_items(items.skip(1)), seq![']']
            + rest);
        lemma_assoc(enc_string(items[0]), seq![','], inner);
        assert(s == enc_string(items[0]) + (seq![','] + inner));
        lemma_parse_string_rt(items[0], seq![','] + inner);
        assert((seq![','] + inner)[0] == ',');
        assert((seq![','] + inner).skip(1) =~= inner);
        lemma_parse_str_items_rt(items.skip(1), rest);
        assert(seq![items[0]] + items.skip(1) =~= items);
    }
}

/// Parsing inverts encoding for the extension entries and the optional
/// DID-rotation claim, stopping at the closing brace.
#[verifier::rlimit(100)]
proof fn lemma_parse_others_rt(
    es: Seq<(Seq<char>, Seq<char>)>,
    fp: Option<PriorClaimsView>,
    rest: Seq<char>,
)
    requires
        forall|i: int| 0 <= i < es.len() ==> (#[trigger] es[i].0) != "from_prior"@,
    ensures
        parse_others(enc_others(es) + (enc_fp(fp) + (seq!['}'] + rest))) == Some(
            ((es, fp), seq!['}'] + rest),
        ),
    decreases es.len(),
{
    lemma_didcomm_keys();
    let tail0 = seq!['}'] + rest;
    let s = enc_others(es) + (enc_fp(fp) + tail0);
    if es.len() == 0 {
        assert(s =~= enc_fp(fp) + tail0);
        match fp {
            Some(p) => {
                assert(enc_fp(fp) == k_fp() + enc_prior(p));
                lemma_assoc(k_fp(), enc_prior(p), tail0);
                assert(s == k_fp() + (enc_prior(p) + tail0));
                lemma_starts_with_concat(k_fp(), enc_prior(p) + tail0);
                lemma_parse_prior_rt(p, tail0);
                assert((Seq::<(Seq<char>, Seq<char>)>::empty(), Some(p)) == (es, fp));
            },
            None => {
                assert(s =~= tail0);
                assert(tail0[0] == '}');
                if starts_with(tail0, k_fp()) {
                    lemma_starts_with_chars(tail0, k_fp());
                    assert(false);
                }
                assert((Seq::<(Seq<char>, Seq<char>)>::empty(), None::<PriorClaimsView>) == (
                es,
                fp,
                ));
            },
        }
    } else {
        let k = es[0].0;
        let w = es[0].1;
        let later = enc_others(es.skip(1)) + (enc_fp(fp) + tail0);
        assert(enc_others(es) == seq![','] + enc_string(k) + seq![':'] + enc_string(w)
            + enc_others(es.skip(1)));
        lemma_assoc(
            seq![','] + enc_string(k) + seq![':'] + enc_string(w),
            enc_others(es.skip(1)),
            enc_fp(fp) + tail0,
        );
        lemma_assoc(seq![','] + enc_string(k) + seq![':'], enc_string(w), later);
        lemma_assoc(seq![','] + enc_string(k), seq![':'], enc_string(w) + later);
        lemma_assoc(seq![','], enc_string(k), seq![':'] + (enc_string(w) + later));
        assert(s == seq![','] + (enc_string(k) + (seq![':'] + (enc_string(w) + later))));
        assert(k != "from_prior"@);
        assert forall|i: int|
            0 <= i < "from_prior"@.len() implies "from_prior"@[i] != '"' && "from_prior"@[i]
            != '\\' by {}
        lemma_entry_key_mismatch(
            k,
            seq![':'] + (enc_string(w) + later),
            k_fp(),
            "from_prior"@,
        );
        assert(s[0] == ',');
        lemma_parse_string_rt(k, seq![':'] + (enc_string(w) + later));
        assert(s.skip(1) =~= enc_string(k) + (seq![':'] + (enc_string(w) + later)));
        let r1 = seq![':'] + (enc_string(w) + later);
        assert(r1[0] == ':');
        assert(r1.skip(1) =~= enc_string(w) + later);
        lemma_parse_string_rt(w, later);
        assert(forall|i: int|
            0 <= i < es.skip(1).len() ==> (#[trigger] es.skip(1)[i].0) != "from_prior"@);
        lemma_parse_others_rt(es.skip(1), fp, rest);
        assert(es[0] == (k, w));
        assert(seq![(k, w)] + es.skip(1) =~= es);
    }
}

} // verus!

verus! {

/// The canonical text from the closing brace on.
pub open spec fn dc_t6(rest: Seq<char>) -> Seq<char> {
    seq!['}'] + rest
}

/// The canonical text from the extension entries on.
pub open spec fn dc_t5(v: DidcommHeaderView, rest: Seq<char>) -> Seq<char> {
    enc_others(v.other) + (enc_fp(v.from_prior) + dc_t6(rest))
}

/// The canonical text from the `expires_time` field on.
pub open spec fn dc_t4(v: DidcommHeaderView, rest: Seq<char>) -> Seq<char> {
    enc_opt_u64_field(k_expires(), v.expires_time) + dc_t5(v, rest)
}

/// The canonical text from the `created_time` field on.
pub open spec fn dc_t3(v: DidcommHeaderView, rest: Seq<char>) -> Seq<char> {
    enc_opt_u64_field(k_created(), v.created_time) + dc_t4(v, rest)
}

/// The canonical text from the `from` field on.
pub open spec fn dc_t2(v: DidcommHeaderView, rest: Seq<char>) -> Seq<char> {
    enc_from_field(v.from) + dc_t3(v, rest)
}

/// The canonical text from the `to` field on.
pub open spec fn dc_t1(v: DidcommHeaderView, rest: Seq<char>) -> Seq<char> {
    enc_to_field(v.to) + dc_t2(v, rest)
}

/// Step of the inversion proof at the extension entries: they parse back,
/// and the suffix opens with a comma or the closing brace.
#[verifier::rlimit(100)]
proof fn lemma_dc_step_others(v: DidcommHeaderView, rest: Seq<char>)
    requires
        didcomm_wf(v),
    ensures
        parse_others(dc_t5(v, rest)) == Some(((v.other, v.from_prior), dc_t6(rest))),
        dc_t5(v, rest)[0] == ',' || dc_t5(v, rest)[0] == '}',
{
    lemma_didcomm_keys();
    let t5 = dc_t5(v, rest);
    assert(forall|i: int|
        0 <= i < v.other.len() ==> (#[trigger] v.other[i].0) != "from_prior"@);
    lemma_parse_others_rt(v.other, v.from_prior, rest);
    if v.other.len() > 0 {
        assert(enc_others(v.other)[0] == ',');
        assert(t5[0] == ',');
    } else {
        assert(enc_others(v.other) =~= Seq::<char>::empty());
        assert(t5 =~= enc_fp(v.from_prior) + dc_t6(rest));
        match v.from_prior {
            Some(p) => {
                assert(enc_fp(v.from_prior) == k_fp() + enc_prior(p));
                assert(t5[0] == k_fp()[0]);
            },
            None => {
                assert(t5 =~= dc_t6(rest));
            },
        }
    }
}

/// Step of the inversion proof at the `expires_time` field.
#[verifier::rlimit(100)]
proof fn lemma_dc_step_expires(v: DidcommHeaderView, rest: Seq<char>)
    requires
        didcomm_wf(v),
    ensures
        parse_opt_u64_field(dc_t4(v, rest), k_expires()) == Some((v.expires_time, dc_t5(v, rest))),
        dc_t4(v, rest)[0] == ',' || dc_t4(v, rest)[0] == '}',
{
    lemma_didcomm_keys();
    lemma_dc_step_others(v, rest);
    let t5 = dc_t5(v, rest);
    let t4 = dc_t4(v, rest);
    if v.expires_time is None {
        assert(t4 =~= t5);
        if starts_with(t5, k_expires()) {
            lemma_starts_with_chars(t5, k_expires());
            if v.other.len() > 0 {
                let k = v.other[0].0;
                let w = v.other[0].1;
                let later = enc_others(v.other.skip(1)) + (enc_fp(v.from_prior) + dc_t6(rest));
                assert(enc_others(v.other) == seq![','] + enc_string(k) + seq![':'] + enc_string(
                    w,
                ) + enc_others(v.other.skip(1)));
                lemma_assoc(
                    seq![','] + enc_string(k) + seq![':'] + enc_string(w),
                    enc_others(v.other.skip(1)),
                    enc_fp(v.from_prior) + dc_t6(rest),
                );
                lemma_assoc(seq![','] + enc_string(k) + seq![':'], enc_string(w), later);
                lemma_assoc(seq![','] + enc_string(k), seq![':'], enc_string(w) + later);
                lemma_assoc(seq![','], enc_string(k), seq![':'] + (enc_string(w) + later));
                assert(t5 == seq![','] + (enc_string(k) + (seq![':'] + (enc_string(w)
                    + later))));
                assert(k != "expires_time"@);
                assert forall|i: int|
                    0 <= i < "expires_time"@.len() implies "expires_time"@[i] != '"'
                    && "expires_time"@[i] != '\\' by {}
                lemma_entry_key_mismatch(
                    k,
                    seq![':'] + (enc_string(w) + later),
                    k_expires(),
                    "expires_time"@,
                );
                assert(false);
            } else {
                assert(enc_others(v.other) =~= Seq::<char>::empty());
                assert(t5 =~= enc_fp(v.from_prior) + dc_t6(rest));
                match v.from_prior {
                    Some(p) => {
                        assert(enc_fp(v.from_prior) == k_fp() + enc_prior(p));
                        assert(t5[2] == k_fp()[2]);
                        assert(false);
                    },
                    None => {
                        assert(t5 =~= dc_t6(rest));
                        assert(t5[0] == '}');
                        assert(false);
                    },
                }
            }
        }
    }
    lemma_opt_u64_field_rt(k_expires(), v.expires_time, t5);
    match v.expires_time {
        Some(n) => {
            assert(t4 == (k_expires() + u64_dec(n as int)) + t5) by {
                assert(enc_opt_u64_field(k_expires(), v.expires_time) == k_expires() + u64_dec(
                    n as int,
                ));
            };
            assert(t4[0] == k_expires()[0]);
        },
        None => {
            assert(t4 =~= t5);
        },
    }
}

/// Step of the inversion proof at the `created_time` field.
#[verifier::rlimit(100)]
proof fn lemma_dc_step_created(v: DidcommHeaderView, rest: Seq<char>)
    requires
        didcomm_wf(v),
    ensures
        parse_opt_u64_field(dc_t3(v, rest), k_created()) == Some((v.created_time, dc_t4(v, rest))),
        dc_t3(v, rest)[0] == ',' || dc_t3(v, rest)[0] == '}',
{
    lemma_didcomm_keys();
    lemma_dc_step_expires(v, rest);
    let t4 = dc_t4(v, rest);
    let t3 = dc_t3(v, rest);
    if v.created_time is None {
        assert(t3 =~= t4);
        if starts_with(t4, k_created()) {
            lemma_starts_with_chars(t4, k_created());
            if v.expires_time is Some {
                assert(t4[2] == k_expires()[2]);
                assert(false);
            } else {
                assert(t4 =~= dc_t5(v, rest));
                let t5 = dc_t5(v, rest);
                if v.other.len() > 0 {
                    let k = v.other[0].0;
                    let w = v.other[0].1;
                    let later = enc_others(v.other.skip(1)) + (enc_fp(v.from_prior) + dc_t6(
                        rest,
                    ));
                    assert(enc_others(v.other) == seq![','] + enc_string(k) + seq![':']
                        + enc_string(w) + enc_others(v.other.skip(1)));
                    lemma_assoc(
                        seq![','] + enc_string(k) + seq![':'] + enc_string(w),
                        enc_others(v.other.skip(1)),
                        enc_fp(v.from_prior) + dc_t6(rest),
                    );
                    lemma_assoc(seq![','] + enc_string(k) + seq![':'], enc_string(w), later);
                    lemma_assoc(seq![','] + enc_string(k), seq![':'], enc_string(w) + later);
                    lemma_assoc(seq![','], enc_string(k), seq![':'] + (enc_string(w) + later));
                    assert(t5 == seq![','] + (enc_string(k) + (seq![':'] + (enc_string(w)
                        + later))));
                    assert(k != "created_time"@);
                    assert forall|i: int|
                        0 <= i < "created_time"@.len() implies "created_time"@[i] != '"'
                        && "created_time"@[i] != '\\' by {}
                    lemma_entry_key_mismatch(
                        k,
                        seq![':'] + (enc_string(w) + later),
                        k_created(),
                        "created_time"@,
                    );
                    assert(false);
                } else {
                    assert(enc_others(v.other) =~= Seq::<char>::empty());
                    assert(t5 =~= enc_fp(v.from_prior) + dc_t6(rest));
                    match v.from_prior {
                        Some(p) => {
                            assert(enc_fp(v.from_prior) == k_fp() + enc_prior(p));
                            assert(t5[2] == k_fp()[2]);
                            assert(false);
                        },
                        None => {
                            assert(t5 =~= dc_t6(rest));
                            assert(t5[0] == '}');
                            assert(false);
                        },
                    }
                }
            }
        }
    }
    lemma_opt_u64_field_rt(k_created(), v.created_time, t4);
    match v.created_time {
        Some(n) => {
            assert(t3 == (k_created() + u64_dec(n as int)) + t4) by {
                assert(enc_opt_u64_field(k_created(), v.created_time) == k_created() + u64_dec(
                    n as int,
                ));
            };
            assert(t3[0] == k_created()[0]);
        },
        None => {
            assert(t3 =~= t4);
        },
    }
}

/// Step of the inversion proof at the always-present `from` field.
#[verifier::rlimit(100)]
proof fn lemma_dc_step_from(v: DidcommHeaderView, rest: Seq<char>)
    requires
        didcomm_wf(v),
    ensures
        parse_from_field(dc_t2(v, rest)) == Some((v.from, dc_t3(v, rest))),
        dc_t2(v, rest)[0] == ',',
        dc_t2(v, rest)[2] == 'f',
{
    lemma_didcomm_keys();
    lemma_dc_step_created(v, rest);
    let t3 = dc_t3(v, rest);
    let t2 = dc_t2(v, rest);
    match v.from {
        Some(x) => {
            assert(enc_from_field(v.from) == k_from() + enc_string(x));
            lemma_assoc(k_from(), enc_string(x), t3);
            assert(t2 == k_from() + (enc_string(x) + t3));
            lemma_starts_with_concat(k_from(), enc_string(x) + t3);
            lemma_starts_with_chars(t2, k_from());
            let r = enc_string(x) + t3;
            assert(r[0] == '"');
            if starts_with(r, "null"@) {
                lemma_starts_with_chars(r, "null"@);
                assert(false);
            }
            lemma_parse_string_rt(x, t3);
        },
        None => {
            assert(enc_from_field(v.from) == k_from() + "null"@);
            lemma_assoc(k_from(), "null"@, t3);
            assert(t2 == k_from() + ("null"@ + t3));
            lemma_starts_with_concat(k_from(), "null"@ + t3);
            lemma_starts_with_chars(t2, k_from());
            lemma_starts_with_concat("null"@, t3);
            assert(("null"@ + t3).skip(4) == t3);
        },
    }
}

/// Step of the inversion proof at the `to` field.
#[verifier::rlimit(100)]
proof fn lemma_dc_step_to(v: DidcommHeaderView, rest: Seq<char>)
    requires
        didcomm_wf(v),
    ensures
        parse_to_field(dc_t1(v, rest)) == Some((v.to, dc_t2(v, rest))),
{
    lemma_didcomm_keys();
    lemma_dc_step_from(v, rest);
    let t2 = dc_t2(v, rest);
    let t1 = dc_t1(v, rest);
    if v.to.len() == 0 {
        assert(enc_to_field(v.to) =~= Seq::<char>::empty());
        assert(t1 =~= t2);
        if starts_with(t2, k_to()) {
            lemma_starts_with_chars(t2, k_to());
            assert(false);
        }
        assert(parse_to_field(t1) == Some((Seq::<Seq<char>>::empty(), t1)));
        assert(Seq::<Seq<char>>::empty() =~= v.to);
    } else {
        assert(enc_to_field(v.to) == (k_to() + enc_str_items(v.to)) + seq![']']);
        lemma_assoc(k_to() + enc_str_items(v.to), seq![']'], t2);
        lemma_assoc(k_to(), enc_str_items(v.to), seq![']'] + t2);
        assert(t1 == k_to() + (enc_str_items(v.to) + (seq![']'] + t2)));
        lemma_starts_with_concat(k_to(), enc_str_items(v.to) + (seq![']'] + t2));
        lemma_parse_str_items_rt(v.to, t2);
    }
}

/// The canonical text of a routing header splits at its leading brace,
/// `id` string, `type` key and string, and the suffix of later fields.
#[verifier::rlimit(100)]
proof fn lemma_didcomm_split(v: DidcommHeaderView, rest: Seq<char>)
    ensures
        starts_with(enc_didcomm(v) + rest, seq!['{'] + k_id()),
        (enc_didcomm(v) + rest).skip(1 + k_id().len() as int) == enc_string(v.id) + (k_type() + (
        enc_string(mt_str(v.m_type)) + dc_t1(v, rest))),
{
    let p = seq!['{'] + k_id();
    let b1 = p + enc_string(v.id);
    let b2 = b1 + k_type();
    let b3 = b2 + enc_string(mt_str(v.m_type));
    let b4 = b3 + enc_to_field(v.to);
    let b5 = b4 + enc_from_field(v.from);
    let b6 = b5 + enc_opt_u64_field(k_created(), v.created_time);
    let b7 = b6 + enc_opt_u64_field(k_expires(), v.expires_time);
    let b8 = b7 + enc_others(v.other);
    let b9 = b8 + enc_fp(v.from_prior);
    assert(enc_didcomm(v) == b9 + seq!['}']);
    lemma_assoc(b9, seq!['}'], rest);
    lemma_assoc(b8, enc_fp(v.from_prior), dc_t6(rest));
    lemma_assoc(b7, enc_others(v.other), enc_fp(v.from_prior) + dc_t6(rest));
    lemma_assoc(b6, enc_opt_u64_field(k_expires(), v.expires_time), dc_t5(v, rest));
    lemma_assoc(b5, enc_opt_u64_field(k_created(), v.created_time), dc_t4(v, rest));
    lemma_assoc(b4, enc_from_field(v.from), dc_t3(v, rest));
    lemma_assoc(b3, enc_to_field(v.to), dc_t2(v, rest));
    lemma_assoc(b2, enc_string(mt_str(v.m_type)), dc_t1(v, rest));
    lemma_assoc(b1, k_type(), enc_string(mt_str(v.m_type)) + dc_t1(v, rest));
    lemma_assoc(p, enc_string(v.id), k_type() + (enc_string(mt_str(v.m_type)) + dc_t1(v, rest)));
    assert(enc_didcomm(v) + rest == p + (enc_string(v.id) + (k_type() + (enc_string(
        mt_str(v.m_type),
    ) + dc_t1(v, rest)))));
    lemma_starts_with_concat(
        p,
        enc_string(v.id) + (k_type() + (enc_string(mt_str(v.m_type)) + dc_t1(v, rest))),
    );
}

/// Parsing inverts encoding for a well-formed routing header, whatever
/// trailing text follows.
#[verifier::rlimit(100)]
pub proof fn lemma_parse_didcomm_rt(v: DidcommHeaderView, rest: Seq<char>)
    requires
        didcomm_wf(v),
    ensures
        parse_didcomm(enc_didcomm(v) + rest) == Some((v, rest)),
{
    let s = enc_didcomm(v) + rest;
    lemma_didcomm_split(v, rest);
    lemma_parse_string_rt(v.id, k_type() + (enc_string(mt_str(v.m_type)) + dc_t1(v, rest)));
    let r1 = k_type() + (enc_string(mt_str(v.m_type)) + dc_t1(v, rest));
    lemma_starts_with_concat(k_type(), enc_string(mt_str(v.m_type)) + dc_t1(v, rest));
    lemma_parse_string_rt(mt_str(v.m_type), dc_t1(v, rest));
    lemma_mt_rt(v.m_type);
    lemma_dc_step_to(v, rest);
    lemma_dc_step_from(v, rest);
    lemma_dc_step_created(v, rest);
    lemma_dc_step_expires(v, rest);
    lemma_dc_step_others(v, rest);
    assert(dc_t6(rest)[0] == '}');
    assert(dc_t6(rest).skip(1) =~= rest);
    assert(DidcommHeaderView {
        id: v.id,
        m_type: v.m_type,
        to: v.to,
        from: v.from,
        created_time: v.created_time,
        expires_time: v.expires_time,
        other: v.other,
        from_prior: v.from_prior,
    } =~= v);
}

/// Parses a complete text as a routing header: the whole text must be
/// consumed.
pub open spec fn parse_didcomm_text(s: Seq<char>) -> Option<DidcommHeaderView> {
    match parse_didcomm(s) {
        Some((v, r)) => if r.len() == 0 {
            Some(v)
        } else {
            None
        },
        None => None,
    }
}

/// Decoding the canonical JSON encoding of any well-formed routing header
/// gives back exactly that header.
pub proof fn lemma_didcomm_round_trip(v: DidcommHeaderView)
    requires
        didcomm_wf(v),
    ensures
        parse_didcomm_text(enc_didcomm(v)) == Some(v),
{
    lemma_parse_didcomm_rt(v, Seq::empty());
    assert(enc_didcomm(v) + Seq::<char>::empty() =~= enc_didcomm(v));
}

} // verus!

verus! {

/// Escaping distributes over appending one character.
proof fn lemma_esc_snoc(a: Seq<char>, c: char)
    ensures
        esc(a + seq![c]) == esc(a) + esc_char(c),
    decreases a.len(),
{
    if a.len() == 0 {
        assert(a + seq![c] =~= seq![c]);
        assert((a + seq![c]).skip(1) =~= Seq::<char>::empty());
        assert(esc(Seq::<char>::empty()) =~= Seq::<char>::empty());
        assert(esc(a + seq![c]) =~= esc(a) + esc_char(c));
    } else {
        let s = a + seq![c];
        assert(s[0] == a[0]);
        assert(s.skip(1) =~= a.skip(1) + seq![c]);
        lemma_esc_snoc(a.skip(1), c);
        assert(esc(s) == esc_char(a[0]) + (esc(a.skip(1)) + esc_char(c)));
        lemma_assoc(esc_char(a[0]), esc(a.skip(1)), esc_char(c));
        assert(esc(a) == esc_char(a[0]) + esc(a.skip(1)));
    }
}

/// Appends the canonical JSON string literal of `s` to `out`.
fn push_string_lit(out: &mut Vec<char>, s: &str)
    ensures
        final(out)@ == old(out)@ + enc_string(s@),
{
    let cv = str_chars(s);
    out.push('"');
    let ghost base = out@;
    let n = cv.len();
    let mut i: usize = 0;
    while i < n
        invariant
            i <= n,
            n == cv@.len(),
            cv@ == s@,
            base == old(out)@ + seq!['"'],
            out@ == base + esc(s@.take(i as int)),
        decreases n - i,
    {
        let c = cv[i];
        if c == '"' || c == '\\' {
            out.push('\\');
            out.push(c);
        } else {
            out.push(c);
        }
        proof {
            lemma_esc_snoc(s@.take(i as int), c);
            assert(s@.take(i as int) + seq![c] =~= s@.take(i + 1));
            assert(out@ =~= base + esc(s@.take(i + 1)));
        }
        i = i + 1;
    }
    out.push('"');
    proof {
        assert(s@.take(n as int) =~= s@);
        assert(out@ =~= old(out)@ + enc_string(s@));
    }
}

/// Whether the characters at `pos` begin with the literal `lit`.  On a
/// match, yields the position just past it.
#[verifier::loop_isolation(false)]
fn take_lit(cs: &Vec<char>, pos: usize, lit: &str) -> (r: Option<usize>)
    requires
        pos <= cs@.len(),
    ensures
        match r {
            Some(p) => pos <= p <= cs@.len() && p == pos + lit@.len() && starts_with(
                cs@.skip(pos as int),
                lit@,
            ),
            None => !starts_with(cs@.skip(pos as int), lit@),
        },
{
    let total = cs.len();
    let lv = str_chars(lit);
    let m = lv.len();
    if total - pos < m {
        proof {
            assert(cs@.skip(pos as int).len() < lit@.len());
        }
        return None;
    }
    let mut i: usize = 0;
    while i < m
        invariant
            i <= m,
            m == lit@.len(),
            lv@ == lit@,
            pos + m <= cs@.len(),
            forall|j: int| 0 <= j < i ==> cs@[pos + j] == lit@[j],
        decreases m - i,
    {
        if cs[pos + i] != lv[i] {
            proof {
                assert(cs@.skip(pos as int)[i as int] == cs@[pos + i]);
                lemma_not_starts_with(cs@.skip(pos as int), lit@, i as int);
            }
            return None;
        }
        i = i + 1;
    }
    proof {
        assert(cs@.skip(pos as int).take(lit@.len() as int) =~= lit@);
    }
    Some(pos + m)
}

/// Reads a string literal at `pos`; yields the unescaped body and the
/// position just past the closing quote.
#[verifier::loop_isolation(false)]
fn take_string(cs: &Vec<char>, pos: usize) -> (r: Option<(String, usize)>)
    requires
        pos <= cs@.len(),
    ensures
        match r {
            Some((v, p)) => pos + 2 <= p <= cs@.len() && parse_string(cs@.skip(pos as int))
                == Some((v@, cs@.skip(p as int))),
            None => parse_string(cs@.skip(pos as int)) is None,
        },
{
    if pos >= cs.len() || cs[pos] != '"' {
        proof {
            if pos < cs@.len() {
                assert(cs@.skip(pos as int)[0] == cs@[pos as int]);
            }
        }
        return None;
    }
    proof {
        assert(cs@.skip(pos as int)[0] == '"');
        assert(cs@.skip(pos as int).skip(1) =~= cs@.skip(pos + 1));
    }
    let mut out: Vec<char> = Vec::new();
    let mut i: usize = pos + 1;
    loop
        invariant
            pos + 1 <= i <= cs@.len(),
            (match parse_string_body(cs@.skip(i as int)) {
                Some((t, r)) => parse_string_body(cs@.skip(pos + 1)) == Some((out@ + t, r)),
                None => parse_string_body(cs@.skip(pos + 1)) is None,
            }),
        decreases cs@.len() - i,
    {
        if i >= cs.len() {
            proof {
                assert(cs@.skip(i as int).len() == 0);
            }
            return None;
        }
        let c = cs[i];
        proof {
            assert(cs@.skip(i as int)[0] == c);
        }
        if c == '"' {
            proof {
                assert(cs@.skip(i as int).skip(1) =~= cs@.skip(i + 1));
                assert(parse_string_body(cs@.skip(i as int)) == Some(
                    (Seq::<char>::empty(), cs@.skip(i + 1)),
                ));
                assert(out@ + Seq::<char>::empty() =~= out@);
            }
            let v = chars_string(&out);
            return Some((v, i + 1));
        } else if c == '\\' {
            if i + 1 >= cs.len() {
                proof {
                    assert(cs@.skip(i as int).len() == 1);
                }
                return None;
            }
            let c2 = cs[i + 1];
            proof {
                assert(cs@.skip(i as int)[1] == c2);
            }
            if c2 == '"' || c2 == '\\' {
                let ghost prev = out@;
                out.push(c2);
                proof {
                    assert(cs@.skip(i as int).skip(2) =~= cs@.skip(i + 2));
                    assert(forall|t: Seq<char>| prev + (seq![c2] + t) =~= out@ + t);
                }
                i = i + 2;
            } else {
                proof {
                    assert(unesc_char(c2) is None);
                }
                return None;
            }
        } else {
            let ghost prev = out@;
            out.push(c);
            proof {
                assert(cs@.skip(i as int).skip(1) =~= cs@.skip(i + 1));
                assert(forall|t: Seq<char>| prev + (seq![c] + t) =~= out@ + t);
            }
            i = i + 1;
        }
    }
}

/// Every character split off by `split_digits` is a digit.
proof fn lemma_split_digits_all(s: Seq<char>)
    ensures
        forall|i: int|
            0 <= i < split_digits(s).0.len() ==> is_digit(#[trigger] split_digits(s).0[i]),
    decreases s.len(),
{
    if s.len() > 0 && is_digit(s[0]) {
        lemma_split_digits_all(s.skip(1));
        assert forall|i: int|
            0 <= i < split_digits(s).0.len() implies is_digit(
            #[trigger] split_digits(s).0[i],
        ) by {
            if i > 0 {
                assert(split_digits(s).0[i] == split_digits(s.skip(1)).0[i - 1]);
            }
        }
    }
}

/// A digit string has a non-negative value.
proof fn lemma_digits_val_nonneg(d: Seq<char>)
    requires
        forall|i: int| 0 <= i < d.len() ==> is_digit(#[trigger] d[i]),
    ensures
        digits_val(d) >= 0,
    decreases d.len(),
{
    if d.len() > 0 {
        assert(forall|i: int| 0 <= i < d.drop_last().len() ==> is_digit(#[trigger] d.drop_last()[i]));
        lemma_digits_val_nonneg(d.drop_last());
        assert(is_digit(d.last()));
    }
}

/// Extending a digit string with further digits never lowers its value.
proof fn lemma_digits_val_prefix(d1: Seq<char>, d2: Seq<char>)
    requires
        forall|i: int| 0 <= i < d1.len() ==> is_digit(#[trigger] d1[i]),
        forall|i: int| 0 <= i < d2.len() ==> is_digit(#[trigger] d2[i]),
    ensures
        digits_val(d1 + d2) >= digits_val(d1),
    decreases d2.len(),
{
    if d2.len() == 0 {
        assert(d1 + d2 =~= d1);
    } else {
        let s = d1 + d2;
        assert(s.drop_last() =~= d1 + d2.drop_last());
        assert(forall|i: int|
            0 <= i < d2.drop_last().len() ==> is_digit(#[trigger] d2.drop_last()[i]));
        lemma_digits_val_prefix(d1, d2.drop_last());
        lemma_digits_val_nonneg(d1);
        assert(s.last() == d2.last());
        assert(is_digit(d2.last()));
        lemma_digits_val_nonneg(s.drop_last());
        assert(digits_val(s) == digits_val(s.drop_last()) * 10 + digit_of(s.last()));
        assert(digits_val(s.drop_last()) * 10 >= digits_val(s.drop_last())) by (nonlinear_arith)
            requires
                digits_val(s.drop_last()) >= 0,
        ;
    }
}

/// Whether a decimal digit stands at position `i`.
fn digit_at(cs: &Vec<char>, i: usize) -> (r: bool)
    requires
        i <= cs@.len(),
    ensures
        r == (i < cs@.len() && is_digit(cs@[i as int])),
{
    if i < cs.len() {
        let u = cs[i] as u32;
        48 <= u && u <= 57
    } else {
        false
    }
}

/// Reads an unsigned 64-bit decimal number at `pos`.
#[verifier::loop_isolation(false)]
fn take_u64(cs: &Vec<char>, pos: usize) -> (r: Option<(u64, usize)>)
    requires
        pos <= cs@.len(),
    ensures
        match r {
            Some((n, p)) => pos <= p <= cs@.len() && parse_u64(cs@.skip(pos as int)) == Some(
                (n, cs@.skip(p as int)),
            ),
            None => parse_u64(cs@.skip(pos as int)) is None,
        },
{
    let total = cs.len();
    let mut i: usize = pos;
    let mut val: u64 = 0;
    while digit_at(cs, i)
        invariant
            pos <= i <= cs@.len(),
            forall|j: int| pos <= j < i ==> is_digit(#[trigger] cs@[j]),
            split_digits(cs@.skip(pos as int)) == (
                cs@.subrange(pos as int, i as int) + split_digits(cs@.skip(i as int)).0,
                split_digits(cs@.skip(i as int)).1,
            ),
            val == digits_val(cs@.subrange(pos as int, i as int)),
        decreases cs@.len() - i,
    {
        let c = cs[i];
        let d: u64 = (c as u32 - 48) as u64;
        proof {
            assert(is_digit(c));
            assert(d < 10);
        }
        if val > (u64::MAX - d) / 10 {
            proof {
                let full = split_digits(cs@.skip(pos as int)).0;
                let pre = cs@.subrange(pos as int, i as int);
                let pre1 = cs@.subrange(pos as int, i + 1);
                assert(cs@.skip(i as int)[0] == c);
                assert(cs@.skip(i as int).skip(1) =~= cs@.skip(i + 1));
                assert(split_digits(cs@.skip(i as int)).0 == seq![c] + split_digits(
                    cs@.skip(i + 1),
                ).0);
                lemma_split_digits_all(cs@.skip(i + 1));
                assert(pre1.drop_last() =~= pre);
                assert(pre1.last() == c);
                assert(digits_val(pre1) == val * 10 + d);
                assert(full =~= pre1 + split_digits(cs@.skip(i + 1)).0);
                assert(forall|j: int| 0 <= j < pre1.len() ==> is_digit(#[trigger] pre1[j]));
                lemma_digits_val_prefix(pre1, split_digits(cs@.skip(i + 1)).0);
                assert(val * 10 + d > u64::MAX) by (nonlinear_arith)
                    requires
                        val > (u64::MAX - d) / 10,
                        d < 10,
                ;
                assert(digits_val(full) > u64::MAX);
            }
            return None;
        }
        let ghost pre = cs@.subrange(pos as int, i as int);
        val = val * 10 + d;
        proof {
            assert(cs@.skip(i as int)[0] == c);
            assert(cs@.skip(i as int).skip(1) =~= cs@.skip(i + 1));
            let pre1 = cs@.subrange(pos as int, i + 1);
            assert(pre1.drop_last() =~= pre);
            assert(pre1.last() == c);
            assert(split_digits(cs@.skip(i as int)).0 == seq![c] + split_digits(
                cs@.skip(i + 1),
            ).0);
            assert(pre + (seq![c] + split_digits(cs@.skip(i + 1)).0) =~= pre1 + split_digits(
                cs@.skip(i + 1),
            ).0);
        }
        i = i + 1;
    }
    proof {
        if i < cs@.len() {
            assert(cs@.skip(i as int)[0] == cs@[i as int]);
            assert(!is_digit(cs@[i as int]));
        }
        assert(split_digits(cs@.skip(i as int)) == (Seq::<char>::empty(), cs@.skip(i as int)));
        assert(cs@.subrange(pos as int, i as int) + Seq::<char>::empty() =~= cs@.subrange(
            pos as int,
            i as int,
        ));
    }
    if i == pos {
        proof {
            assert(split_digits(cs@.skip(pos as int)).0.len() == 0);
        }
        None
    } else {
        Some((val, i))
    }
}

} // verus!

verus! {

/// The view of an optional embedded key.
pub open spec fn jwk_opt_view(v: Option<Jwk>) -> Option<JwkView> {
    match v {
        Some(k) => Some(k@),
        None => None,
    }
}

/// The view of an optional DID-rotation claim.
pub open spec fn prior_opt_view(v: Option<PriorClaims>) -> Option<PriorClaimsView> {
    match v {
        Some(p) => Some(p@),
        None => None,
    }
}

/// The view of a sequence of extension entries.
pub open spec fn pairs_view(v: Seq<(String, String)>) -> Seq<(Seq<char>, Seq<char>)> {
    Seq::new(v.len(), |i: int| (v[i].0@, v[i].1@))
}

/// The object-opening literals, spelt as brace plus key.
proof fn lemma_brace_keys()
    ensures
        "{\"kty\":"@ == seq!['{'] + k_kty(),
        "{\"iss\":"@ == seq!['{'] + k_iss(),
        "{\"typ\":"@ == seq!['{'] + k_typ(),
        "{\"id\":"@ == seq!['{'] + k_id(),
{
    reveal_strlit("{\"kty\":");
    reveal_strlit("{\"iss\":");
    reveal_strlit("{\"typ\":");
    reveal_strlit("{\"id\":");
    reveal_strlit("\"kty\":");
    reveal_strlit("\"iss\":");
    reveal_strlit("\"typ\":");
    reveal_strlit("\"id\":");
    assert("{\"kty\":"@ =~= seq!['{'] + k_kty());
    assert("{\"iss\":"@ =~= seq!['{'] + k_iss());
    assert("{\"typ\":"@ =~= seq!['{'] + k_typ());
    assert("{\"id\":"@ =~= seq!['{'] + k_id());
}

/// Appends an optional string field in canonical form.
fn push_opt_str_field(out: &mut Vec<char>, key: &str, v: &Option<String>)
    ensures
        final(out)@ == old(out)@ + enc_opt_str_field(key@, v.deep_view()),
{
    match v {
        Some(x) => {
            append_str(out, key);
            push_string_lit(out, x.as_str());
            proof {
                assert(v.deep_view() == Some(x@));
                assert(out@ =~= old(out)@ + (key@ + enc_string(x@)));
            }
        },
        None => {
            proof {
                assert(v.deep_view() == None::<Seq<char>>);
                assert(out@ =~= old(out)@ + enc_opt_str_field(key@, v.deep_view()));
            }
        },
    }
}

/// Appends an optional unsigned-integer field in canonical form.
fn push_opt_u64_field(out: &mut Vec<char>, key: &str, v: &Option<u64>)
    ensures
        final(out)@ == old(out)@ + enc_opt_u64_field(key@, *v),
{
    match v {
        Some(n) => {
            append_str(out, key);
            push_u64_dec(out, *n);
            proof {
                assert(out@ =~= old(out)@ + (key@ + u64_dec(*n as int)));
            }
        },
        None => {
            proof {
                assert(out@ =~= old(out)@ + enc_opt_u64_field(key@, *v));
            }
        },
    }
}

/// Appends a JWK object in canonical form.
fn push_jwk(out: &mut Vec<char>, k: &Jwk)
    ensures
        final(out)@ == old(out)@ + enc_jwk(k@),
{
    out.push('{');
    append_str(out, "\"kty\":");
    push_string_lit(out, k.kty.as_str());
    push_opt_str_field(out, ",\"crv\":", &k.crv);
    push_opt_str_field(out, ",\"x\":", &k.x);
    out.push('}');
    proof {
        assert(out@ =~= old(out)@ + enc_jwk(k@));
    }
}

/// Appends an optional embedded-JWK field in canonical form.
fn push_opt_jwk_field(out: &mut Vec<char>, key: &str, v: &Option<Jwk>)
    ensures
        final(out)@ == old(out)@ + enc_opt_jwk_field(key@, jwk_opt_view(*v)),
{
    match v {
        Some(k) => {
            append_str(out, key);
            push_jwk(out, k);
            proof {
                assert(jwk_opt_view(*v) == Some(k@));
                assert(out@ =~= old(out)@ + (key@ + enc_jwk(k@)));
            }
        },
        None => {
            proof {
                assert(out@ =~= old(out)@ + enc_opt_jwk_field(key@, jwk_opt_view(*v)));
            }
        },
    }
}

/// Appends a DID-rotation claim object in canonical form.
fn push_prior(out: &mut Vec<char>, p: &PriorClaims)
    ensures
        final(out)@ == old(out)@ + enc_prior(p@),
{
    out.push('{');
    append_str(out, "\"iss\":");
    push_string_lit(out, p.iss.as_str());
    append_str(out, ",\"sub\":");
    push_string_lit(out, p.sub.as_str());
    out.push('}');
    proof {
        assert(out@ =~= old(out)@ + enc_prior(p@));
    }
}

impl JwmHeader {
    /// Serializes this protection header as its canonical JSON text.
    #[verifier::rlimit(100)]
    pub fn encode_json(&self) -> (r: String)
        ensures
            r@ == enc_jwm(self@),
    {
        let mut out: Vec<char> = Vec::new();
        out.push('{');
        append_str(&mut out, "\"typ\":");
        push_string_lit(&mut out, self.typ.as_str());
        push_opt_str_field(&mut out, ",\"enc\":", &self.enc);
        push_opt_str_field(&mut out, ",\"kid\":", &self.kid);
        push_opt_str_field(&mut out, ",\"skid\":", &self.skid);
        push_opt_str_field(&mut out, ",\"alg\":", &self.alg);
        push_opt_str_field(&mut out, ",\"jku\":", &self.jku);
        push_opt_jwk_field(&mut out, ",\"jwk\":", &self.jwk);
        push_opt_jwk_field(&mut out, ",\"epk\":", &self.epk);
        push_opt_str_field(&mut out, ",\"cty\":", &self.cty);
        out.push('}');
        proof {
            assert(jwk_opt_view(self.jwk) == self@.jwk);
            assert(jwk_opt_view(self.epk) == self@.epk);
            assert(out@ =~= enc_jwm(self@));
        }
        chars_string(&out)
    }
}

} // verus!

verus! {

/// Reads an optional string field at `pos`.
fn take_opt_str_field(cs: &Vec<char>, pos: usize, key: &str) -> (r: Option<
    (Option<String>, usize),
>)
    requires
        pos <= cs@.len(),
    ensures
        match r {
            Some((v, p)) => pos <= p <= cs@.len() && parse_opt_str_field(
                cs@.skip(pos as int),
                key@,
            ) == Some((v.deep_view(), cs@.skip(p as int))),
            None => parse_opt_str_field(cs@.skip(pos as int), key@) is None,
        },
{
    match take_lit(cs, pos, key) {
        Some(p1) => {
            proof {
                assert(cs@.skip(pos as int).skip(key@.len() as int) =~= cs@.skip(p1 as int));
            }
            match take_string(cs, p1) {
                Some((s, p2)) => Some((Some(s), p2)),
                None => None,
            }
        },
        None => Some((None, pos)),
    }
}

/// Reads an optional unsigned-integer field at `pos`.
fn take_opt_u64_field(cs: &Vec<char>, pos: usize, key: &str) -> (r: Option<(Option<u64>, usize)>)
    requires
        pos <= cs@.len(),
    ensures
        match r {
            Some((v, p)) => pos <= p <= cs@.len() && parse_opt_u64_field(
                cs@.skip(pos as int),
                key@,
            ) == Some((v, cs@.skip(p as int))),
            None => parse_opt_u64_field(cs@.skip(pos as int), key@) is None,
        },
{
    match take_lit(cs, pos, key) {
        Some(p1) => {
            proof {
                assert(cs@.skip(pos as int).skip(key@.len() as int) =~= cs@.skip(p1 as int));
            }
            match take_u64(cs, p1) {
                Some((n, p2)) => Some((Some(n), p2)),
                None => None,
            }
        },
        None => Some((None, pos)),
    }
}

/// Reads a JWK object at `pos`.
fn take_jwk(cs: &Vec<char>, pos: usize) -> (r: Option<(Jwk, usize)>)
    requires
        pos <= cs@.len(),
    ensures
        match r {
            Some((k, p)) => pos <= p <= cs@.len() && parse_jwk(cs@.skip(pos as int)) == Some(
                (k@, cs@.skip(p as int)),
            ),
            None => parse_jwk(cs@.skip(pos as int)) is None,
        },
{
    proof {
        lemma_brace_keys();
        lemma_small_keys();
    }
    match take_lit(cs, pos, "{\"kty\":") {
        None => None,
        Some(p1) => {
            proof {
                assert(cs@.skip(pos as int).skip(1 + k_kty().len() as int) =~= cs@.skip(
                    p1 as int,
                ));
            }
            match take_string(cs, p1) {
                None => None,
                Some((kty, p2)) => match take_opt_str_field(cs, p2, ",\"crv\":") {
                    None => None,
                    Some((crv, p3)) => match take_opt_str_field(cs, p3, ",\"x\":") {
                        None => None,
                        Some((x, p4)) => {
                            if p4 < cs.len() && cs[p4] == '}' {
                                proof {
                                    assert(cs@.skip(p4 as int)[0] == '}');
                                    assert(cs@.skip(p4 as int).skip(1) =~= cs@.skip(p4 + 1));
                                }
                                let k = Jwk { kty, crv, x };
                                Some((k, p4 + 1))
                            } else {
                                proof {
                                    if p4 < cs@.len() {
                                        assert(cs@.skip(p4 as int)[0] == cs@[p4 as int]);
                                    }
                                }
                                None
                            }
                        },
                    },
                },
            }
        },
    }
}

/// Reads an optional embedded-JWK field at `pos`.
fn take_opt_jwk_field(cs: &Vec<char>, pos: usize, key: &str) -> (r: Option<(Option<Jwk>, usize)>)
    requires
        pos <= cs@.len(),
    ensures
        match r {
            Some((v, p)) => pos <= p <= cs@.len() && parse_opt_jwk_field(
                cs@.skip(pos as int),
                key@,
            ) == Some((jwk_opt_view(v), cs@.skip(p as int))),
            None => parse_opt_jwk_field(cs@.skip(pos as int), key@) is None,
        },
{
    match take_lit(cs, pos, key) {
        Some(p1) => {
            proof {
                assert(cs@.skip(pos as int).skip(key@.len() as int) =~= cs@.skip(p1 as int));
            }
            match take_jwk(cs, p1) {
                Some((k, p2)) => Some((Some(k), p2)),
                None => None,
            }
        },
        None => Some((None, pos)),
    }
}

/// Reads a DID-rotation claim object at `pos`.
fn take_prior(cs: &Vec<char>, pos: usize) -> (r: Option<(PriorClaims, usize)>)
    requires
        pos <= cs@.len(),
    ensures
        match r {
            Some((c, p)) => pos <= p <= cs@.len() && parse_prior(cs@.skip(pos as int)) == Some(
                (c@, cs@.skip(p as int)),
            ),
            None => parse_prior(cs@.skip(pos as int)) is None,
        },
{
    proof {
        lemma_brace_keys();
        lemma_small_keys();
    }
    match take_lit(cs, pos, "{\"iss\":") {
        None => None,
        Some(p1) => {
            proof {
                assert(cs@.skip(pos as int).skip(1 + k_iss().len() as int) =~= cs@.skip(
                    p1 as int,
                ));
            }
            match take_string(cs, p1) {
                None => None,
                Some((iss, p2)) => match take_lit(cs, p2, ",\"sub\":") {
                    None => None,
                    Some(p3) => {
                        proof {
                            assert(cs@.skip(p2 as int).skip(k_sub().len() as int) =~= cs@.skip(
                                p3 as int,
                            ));
                        }
                        match take_string(cs, p3) {
                            None => None,
                            Some((sub, p4)) => {
                                if p4 < cs.len() && cs[p4] == '}' {
                                    proof {
                                        assert(cs@.skip(p4 as int)[0] == '}');
                                        assert(cs@.skip(p4 as int).skip(1) =~= cs@.skip(p4 + 1));
                                    }
                                    Some((PriorClaims { iss, sub }, p4 + 1))
                                } else {
                                    proof {
                                        if p4 < cs@.len() {
                                            assert(cs@.skip(p4 as int)[0] == cs@[p4 as int]);
                                        }
                                    }
                                    None
                                }
                            },
                        }
                    },
                },
            }
        },
    }
}

/// Reads a JWM protection header object at `pos`.
#[verifier::rlimit(100)]
fn take_jwm(cs: &Vec<char>, pos: usize) -> (r: Option<(JwmHeader, usize)>)
    requires
        pos <= cs@.len(),
    ensures
        match r {
            Some((h, p)) => pos <= p <= cs@.len() && parse_jwm(cs@.skip(pos as int)) == Some(
                (h@, cs@.skip(p as int)),
            ),
            None => parse_jwm(cs@.skip(pos as int)) is None,
        },
{
    proof {
        lemma_brace_keys();
        lemma_jwm_keys();
    }
    match take_lit(cs, pos, "{\"typ\":") {
        None => None,
        Some(p1) => {
            proof {
                assert(cs@.skip(pos as int).skip(1 + k_typ().len() as int) =~= cs@.skip(
                    p1 as int,
                ));
            }
            match take_string(cs, p1) {
                None => None,
                Some((typ, p2)) => match take_opt_str_field(cs, p2, ",\"enc\":") {
                    None => None,
                    Some((enc, p3)) => match take_opt_str_field(cs, p3, ",\"kid\":") {
                        None => None,
                        Some((kid, p4)) => match take_opt_str_field(cs, p4, ",\"skid\":") {
                            None => None,
                            Some((skid, p5)) => match take_opt_str_field(cs, p5, ",\"alg\":") {
                                None => None,
                                Some((alg, p6)) => match take_opt_str_field(
                                    cs,
                                    p6,
                                    ",\"jku\":",
                                ) {
                                    None => None,
                                    Some((jku, p7)) => match take_opt_jwk_field(
                                        cs,
                                        p7,
                                        ",\"jwk\":",
                                    ) {
                                        None => None,
                                        Some((jwk, p8)) => match take_opt_jwk_field(
                                            cs,
                                            p8,
                                            ",\"epk\":",
                                        ) {
                                            None => None,
                                            Some((epk, p9)) => match take_opt_str_field(
                                                cs,
                                                p9,
                                                ",\"cty\":",
                                            ) {
                                                None => None,
                                                Some((cty, p10)) => {
                                                    if p10 < cs.len() && cs[p10] == '}' {
                                                        proof {
                                                            assert(cs@.skip(p10 as int)[0]
                                                                == '}');
                                                            assert(cs@.skip(p10 as int).skip(1)
                                                                =~= cs@.skip(p10 + 1));
                                                        }
                                                        let h = JwmHeader {
                                                            typ,
                                                            enc,
                                                            kid,
                                                            skid,
                                                            alg,
                                                            jku,
                                                            jwk,
                                                            epk,
                                                            cty,
                                                        };
                                                        Some((h, p10 + 1))
                                                    } else {
                                                        proof {
                                                            if p10 < cs@.len() {
                                                                assert(cs@.skip(p10 as int)[0]
                                                                    == cs@[p10 as int]);
                                                            }
                                                        }
                                                        None
                                                    }
                                                },
                                            },
                                        },
                                    },
                                },
                            },
                        },
                    },
                },
            }
        },
    }
}

impl JwmHeader {
    /// Parses a complete canonical JSON text as a protection header.  Fails
    /// with `Error::JsonFormatError` exactly on the texts that are no
    /// canonical encoding.
    pub fn decode_json(s: &str) -> (r: Result<JwmHeader, Error>)
        ensures
            r matches Ok(h) ==> parse_jwm_text(s@) == Some(h@),
            r matches Err(e) ==> parse_jwm_text(s@) is None && e == Error::JsonFormatError,
    {
        let cs = str_chars(s);
        proof {
            assert(cs@.skip(0) =~= s@);
        }
        match take_jwm(&cs, 0) {
            Some((h, p)) => {
                if p == cs.len() {
                    proof {
                        assert(cs@.skip(p as int).len() == 0);
                    }
                    Ok(h)
                } else {
                    proof {
                        assert(cs@.skip(p as int).len() > 0);
                    }
                    Err(Error::JsonFormatError)
                }
            },
            None => Err(Error::JsonFormatError),
        }
    }
}

} // verus!

verus! {

/// Encoding a string list distributes over appending one item.
proof fn lemma_enc_str_items_snoc(a: Seq<Seq<char>>, x: Seq<char>)
    ensures
        a.len() == 0 ==> enc_str_items(a + seq![x]) == enc_string(x),
        a.len() > 0 ==> enc_str_items(a + seq![x]) == enc_str_items(a) + seq![','] + enc_string(
            x,
        ),
    decreases a.len(),
{
    if a.len() == 0 {
        assert(a + seq![x] =~= seq![x]);
    } else {
        let s = a + seq![x];
        assert(s.len() >= 2);
        assert(s[0] == a[0]);
        assert(s.skip(1) =~= a.skip(1) + seq![x]);
        lemma_enc_str_items_snoc(a.skip(1), x);
        if a.len() == 1 {
            assert(a.skip(1).len() == 0);
            assert(enc_str_items(a) == enc_string(a[0]));
            assert(enc_str_items(s) == enc_string(a[0]) + seq![','] + enc_string(x));
        } else {
            assert(enc_str_items(s) == enc_string(s[0]) + seq![','] + enc_str_items(s.skip(1)));
            assert(enc_str_items(a) == enc_string(a[0]) + seq![','] + enc_str_items(a.skip(1)));
            assert(enc_string(a[0]) + seq![','] + (enc_str_items(a.skip(1)) + seq![',']
                + enc_string(x)) =~= (enc_string(a[0]) + seq![','] + enc_str_items(a.skip(1)))
                + seq![','] + enc_string(x));
        }
    }
}

/// Encoding extension entries distributes over appending one entry.
proof fn lemma_enc_others_snoc(a: Seq<(Seq<char>, Seq<char>)>, e: (Seq<char>, Seq<char>))
    ensures
        enc_others(a + seq![e]) == enc_others(a) + (seq![','] + enc_string(e.0) + seq![':']
            + enc_string(e.1)),
    decreases a.len(),
{
    if a.len() == 0 {
        assert(a + seq![e] =~= seq![e]);
        assert((a + seq![e]).skip(1) =~= Seq::<(Seq<char>, Seq<char>)>::empty());
        assert(enc_others(Seq::<(Seq<char>, Seq<char>)>::empty()) =~= Seq::<char>::empty());
        assert(enc_others(a) =~= Seq::<char>::empty());
        assert(enc_others(a + seq![e]) =~= enc_others(a) + (seq![','] + enc_string(e.0)
            + seq![':'] + enc_string(e.1)));
    } else {
        let s = a + seq![e];
        assert(s[0] == a[0]);
        assert(s.skip(1) =~= a.skip(1) + seq![e]);
        lemma_enc_others_snoc(a.skip(1), e);
        assert(enc_others(s) == seq![','] + enc_string(a[0].0) + seq![':'] + enc_string(a[0].1)
            + (enc_others(a.skip(1)) + (seq![','] + enc_string(e.0) + seq![':'] + enc_string(
            e.1,
        ))));
        assert(seq![','] + enc_string(a[0].0) + seq![':'] + enc_string(a[0].1) + (enc_others(
            a.skip(1),
        ) + (seq![','] + enc_string(e.0) + seq![':'] + enc_string(e.1))) =~= (seq![',']
            + enc_string(a[0].0) + seq![':'] + enc_string(a[0].1) + enc_others(a.skip(1))) + (
        seq![','] + enc_string(e.0) + seq![':'] + enc_string(e.1)));
    }
}

impl DidcommHeader {
    /// Serializes this routing header as its canonical JSON text.
    #[verifier::rlimit(100)]
    #[verifier::loop_isolation(false)]
    pub fn encode_json(&self) -> (r: String)
        ensures
            r@ == enc_didcomm(self@),
    {
        let mut out: Vec<char> = Vec::new();
        out.push('{');
        append_str(&mut out, "\"id\":");
        push_string_lit(&mut out, self.id.as_str());
        append_str(&mut out, ",\"type\":");
        let ghost b2 = out@;
        match self.m_type {
            MessageType::DidcommRaw => push_string_lit(&mut out, "DidcommRaw"),
            MessageType::DidcommJwe => push_string_lit(&mut out, "DidcommJwe"),
            MessageType::DidcommJws => push_string_lit(&mut out, "DidcommJws"),
            MessageType::DidcommForward => push_string_lit(&mut out, "DidcommForward"),
        }
        let ghost b3 = out@;
        proof {
            assert(b3 == b2 + enc_string(mt_str(self@.m_type)));
            assert(b3 =~= seq!['{'] + k_id() + enc_string(self@.id) + k_type() + enc_string(
                mt_str(self@.m_type),
            ));
        }
        if self.to.len() > 0 {
            append_str(&mut out, ",\"to\":[");
            let ghost base = out@;
            let mut i: usize = 0;
            while i < self.to.len()
                invariant
                    i <= self.to@.len(),
                    base == b3 + k_to(),
                    i == 0 ==> out@ == base,
                    i > 0 ==> out@ == base + enc_str_items(self@.to.take(i as int)),
                decreases self.to@.len() - i,
            {
                let ghost prev = out@;
                if i > 0 {
                    out.push(',');
                }
                push_string_lit(&mut out, self.to[i].as_str());
                proof {
                    assert(self@.to[i as int] == self.to@[i as int]@);
                    assert(self@.to.take(i as int) + seq![self@.to[i as int]] =~= self@.to.take(
                        i + 1,
                    ));
                    lemma_enc_str_items_snoc(self@.to.take(i as int), self@.to[i as int]);
                    if i == 0 {
                        assert(out@ =~= base + enc_str_items(self@.to.take(1)));
                    } else {
                        assert(out@ =~= base + enc_str_items(self@.to.take(i + 1)));
                    }
                }
                i = i + 1;
            }
            out.push(']');
            proof {
                assert(self@.to.take(self.to@.len() as int) =~= self@.to);
                assert(out@ =~= b3 + enc_to_field(self@.to));
            }
        } else {
            proof {
                assert(enc_to_field(self@.to) =~= Seq::<char>::empty());
                assert(out@ =~= b3 + enc_to_field(self@.to));
            }
        }
        let ghost b4 = out@;
        append_str(&mut out, ",\"from\":");
        match &self.from {
            Some(x) => {
                push_string_lit(&mut out, x.as_str());
                proof {
                    assert(self@.from == Some(x@));
                    assert(out@ =~= b4 + enc_from_field(self@.from));
                }
            },
            None => {
                append_str(&mut out, "null");
                proof {
                    assert(self@.from == None::<Seq<char>>);
                    assert(out@ =~= b4 + enc_from_field(self@.from));
                }
            },
        }
        push_opt_u64_field(&mut out, ",\"created_time\":", &self.created_time);
        push_opt_u64_field(&mut out, ",\"expires_time\":", &self.expires_time);
        let ghost b7 = out@;
        let mut j: usize = 0;
        while j < self.other.len()
            invariant
                j <= self.other@.len(),
                out@ == b7 + enc_others(self@.other.take(j as int)),
            decreases self.other@.len() - j,
        {
            out.push(',');
            push_string_lit(&mut out, self.other[j].0.as_str());
            out.push(':');
            push_string_lit(&mut out, self.other[j].1.as_str());
            proof {
                assert(self@.other[j as int] == (self.other@[j as int].0@, self.other@[
                    j as int].1@));
                assert(self@.other.take(j as int) + seq![self@.other[j as int]]
                    =~= self@.other.take(j + 1));
                lemma_enc_others_snoc(self@.other.take(j as int), self@.other[j as int]);
                assert(out@ =~= b7 + enc_others(self@.other.take(j + 1)));
            }
            j = j + 1;
        }
        proof {
            assert(self@.other.take(self.other@.len() as int) =~= self@.other);
        }
        let ghost b8 = out@;
        match &self.from_prior {
            Some(p) => {
                append_str(&mut out, ",\"from_prior\":");
                push_prior(&mut out, p);
                proof {
                    assert(self@.from_prior == Some(p@));
                    assert(out@ =~= b8 + enc_fp(self@.from_prior));
                }
            },
            None => {
                proof {
                    assert(out@ =~= b8 + enc_fp(self@.from_prior));
                }
            },
        }
        out.push('}');
        proof {
            assert(out@ =~= b8 + enc_fp(self@.from_prior) + seq!['}']);
            assert(out@ == enc_didcomm(self@));
        }
        chars_string(&out)
    }
}

} // verus!

verus! {

/// Reads a message-type name from a parsed string.
fn mt_from_string(ts: &String) -> (r: Option<MessageType>)
    ensures
        r == mt_of_str(ts@),
{
    if *ts == String::from_str("DidcommRaw") {
        Some(MessageType::DidcommRaw)
    } else if *ts == String::from_str("DidcommJwe") {
        Some(MessageType::DidcommJwe)
    } else if *ts == String::from_str("DidcommJws") {
        Some(MessageType::DidcommJws)
    } else if *ts == String::from_str("DidcommForward") {
        Some(MessageType::DidcommForward)
    } else {
        None
    }
}

/// Reads the body of a non-empty string list at `pos`, closing bracket
/// included.
#[verifier::rlimit(100)]
fn take_str_items(cs: &Vec<char>, pos: usize) -> (r: Option<(Vec<String>, usize)>)
    requires
        pos <= cs@.len(),
    ensures
        match r {
            Some((v, p)) => pos <= p <= cs@.len() && parse_str_items(cs@.skip(pos as int))
                == Some((v.deep_view(), cs@.skip(p as int))),
            None => parse_str_items(cs@.skip(pos as int)) is None,
        },
    decreases cs@.len() - pos,
{
    match take_string(cs, pos) {
        None => None,
        Some((s, p1)) => {
            if p1 < cs.len() && cs[p1] == ',' {
                proof {
                    assert(cs@.skip(p1 as int)[0] == ',');
                    assert(cs@.skip(p1 as int).skip(1) =~= cs@.skip(p1 + 1));
                }
                match take_str_items(cs, p1 + 1) {
                    Some((rest, p2)) => {
                        let ghost rd = rest.deep_view();
                        let mut v = rest;
                        v.insert(0, s);
                        proof {
                            assert(v.deep_view() =~= seq![s@] + rd);
                        }
                        Some((v, p2))
                    },
                    None => None,
                }
            } else if p1 < cs.len() && cs[p1] == ']' {
                proof {
                    assert(cs@.skip(p1 as int)[0] == ']');
                    assert(cs@.skip(p1 as int).skip(1) =~= cs@.skip(p1 + 1));
                }
                let mut v: Vec<String> = Vec::new();
                v.push(s);
                proof {
                    assert(v.deep_view() =~= seq![s@]);
                }
                Some((v, p1 + 1))
            } else {
                proof {
                    if p1 < cs@.len() {
                        assert(cs@.skip(p1 as int)[0] == cs@[p1 as int]);
                    }
                }
                None
            }
        },
    }
}

/// Reads the flattened extension entries and the optional DID-rotation
/// claim at `pos`, stopping before the closing brace.
#[verifier::rlimit(100)]
fn take_others(cs: &Vec<char>, pos: usize) -> (r: Option<
    (Vec<(String, String)>, Option<PriorClaims>, usize),
>)
    requires
        pos <= cs@.len(),
    ensures
        match r {
            Some((es, fp, p)) => pos <= p <= cs@.len() && parse_others(cs@.skip(pos as int))
                == Some(((pairs_view(es@), prior_opt_view(fp)), cs@.skip(p as int))),
            None => parse_others(cs@.skip(pos as int)) is None,
        },
    decreases cs@.len() - pos,
{
    proof {
        lemma_didcomm_keys();
    }
    match take_lit(cs, pos, ",\"from_prior\":") {
        Some(p1) => {
            proof {
                assert(cs@.skip(pos as int).skip(k_fp().len() as int) =~= cs@.skip(p1 as int));
            }
            match take_prior(cs, p1) {
                Some((p, p2)) => {
                    let es: Vec<(String, String)> = Vec::new();
                    proof {
                        assert(pairs_view(es@) =~= Seq::<(Seq<char>, Seq<char>)>::empty());
                    }
                    Some((es, Some(p), p2))
                },
                None => None,
            }
        },
        None => {
            if pos < cs.len() && cs[pos] == '}' {
                proof {
                    assert(cs@.skip(pos as int)[0] == '}');
                }
                let es: Vec<(String, String)> = Vec::new();
                proof {
                    assert(pairs_view(es@) =~= Seq::<(Seq<char>, Seq<char>)>::empty());
                }
                Some((es, None, pos))
            } else if pos < cs.len() && cs[pos] == ',' {
                proof {
                    assert(cs@.skip(pos as int)[0] == ',');
                    assert(cs@.skip(pos as int).skip(1) =~= cs@.skip(pos + 1));
                }
                match take_string(cs, pos + 1) {
                    None => None,
                    Some((k, p1)) => {
                        if p1 < cs.len() && cs[p1] == ':' {
                            proof {
                                assert(cs@.skip(p1 as int)[0] == ':');
                                assert(cs@.skip(p1 as int).skip(1) =~= cs@.skip(p1 + 1));
                            }
                            match take_string(cs, p1 + 1) {
                                None => None,
                                Some((w, p2)) => match take_others(cs, p2) {
                                    Some((rest, fp, p3)) => {
                                        let ghost rd = pairs_view(rest@);
                                        let mut es = rest;
                                        es.insert(0, (k, w));
                                        proof {
                                            assert(pairs_view(es@) =~= seq![(k@, w@)] + rd);
                                        }
                                        Some((es, fp, p3))
                                    },
                                    None => None,
                                },
                            }
                        } else {
                            proof {
                                if p1 < cs@.len() {
                                    assert(cs@.skip(p1 as int)[0] == cs@[p1 as int]);
                                }
                            }
                            None
                        }
                    },
                }
            } else {
                proof {
                    if pos < cs@.len() {
                        assert(cs@.skip(pos as int)[0] == cs@[pos as int]);
                    }
                }
                None
            }
        },
    }
}

/// Reads a routing header object at `pos`.
#[verifier::rlimit(100)]
fn take_didcomm(cs: &Vec<char>, pos: usize) -> (r: Option<(DidcommHeader, usize)>)
    requires
        pos <= cs@.len(),
    ensures
        match r {
            Some((h, p)) => pos <= p <= cs@.len() && parse_didcomm(cs@.skip(pos as int)) == Some(
                (h@, cs@.skip(p as int)),
            ),
            None => parse_didcomm(cs@.skip(pos as int)) is None,
        },
{
    proof {
        lemma_brace_keys();
        lemma_didcomm_keys();
    }
    let p1 = match take_lit(cs, pos, "{\"id\":") {
        Some(p) => p,
        None => {
            return None;
        },
    };
    proof {
        assert(cs@.skip(pos as int).skip(1 + k_id().len() as int) =~= cs@.skip(p1 as int));
    }
    let (id, p2) = match take_string(cs, p1) {
        Some(x) => x,
        None => {
            return None;
        },
    };
    let p3 = match take_lit(cs, p2, ",\"type\":") {
        Some(p) => p,
        None => {
            return None;
        },
    };
    proof {
        assert(cs@.skip(p2 as int).skip(k_type().len() as int) =~= cs@.skip(p3 as int));
    }
    let (ts, p4) = match take_string(cs, p3) {
        Some(x) => x,
        None => {
            return None;
        },
    };
    let mt = match mt_from_string(&ts) {
        Some(t) => t,
        None => {
            return None;
        },
    };
    let (to, p5): (Vec<String>, usize) = match take_lit(cs, p4, ",\"to\":[") {
        Some(p5a) => {
            proof {
                assert(cs@.skip(p4 as int).skip(k_to().len() as int) =~= cs@.skip(p5a as int));
            }
            match take_str_items(cs, p5a) {
                Some(x) => x,
                None => {
                    return None;
                },
            }
        },
        None => (Vec::new(), p4),
    };
    proof {
        if to@.len() == 0 {
            assert(to.deep_view() =~= Seq::<Seq<char>>::empty());
        }
    }
    let p6a = match take_lit(cs, p5, ",\"from\":") {
        Some(p) => p,
        None => {
            return None;
        },
    };
    proof {
        assert(cs@.skip(p5 as int).skip(k_from().len() as int) =~= cs@.skip(p6a as int));
    }
    let (from, p6): (Option<String>, usize) = match take_lit(cs, p6a, "null") {
        Some(p6b) => {
            proof {
                assert(cs@.skip(p6a as int).skip(4) =~= cs@.skip(p6b as int));
            }
            (None, p6b)
        },
        None => match take_string(cs, p6a) {
            Some((x, p6b)) => (Some(x), p6b),
            None => {
                return None;
            },
        },
    };
    let (ct, p7) = match take_opt_u64_field(cs, p6, ",\"created_time\":") {
        Some(x) => x,
        None => {
            return None;
        },
    };
    let (et, p8) = match take_opt_u64_field(cs, p7, ",\"expires_time\":") {
        Some(x) => x,
        None => {
            return None;
        },
    };
    let (es, fp, p9) = match take_others(cs, p8) {
        Some(x) => x,
        None => {
            return None;
        },
    };
    if p9 < cs.len() && cs[p9] == '}' {
        proof {
            assert(cs@.skip(p9 as int)[0] == '}');
            assert(cs@.skip(p9 as int).skip(1) =~= cs@.skip(p9 + 1));
        }
        let h = DidcommHeader {
            id,
            m_type: mt,
            to,
            from,
            created_time: ct,
            expires_time: et,
            other: es,
            from_prior: fp,
        };
        proof {
            assert(h@.other =~= pairs_view(h.other@));
        }
        Some((h, p9 + 1))
    } else {
        proof {
            if p9 < cs@.len() {
                assert(cs@.skip(p9 as int)[0] == cs@[p9 as int]);
            }
        }
        None
    }
}

impl DidcommHeader {
    /// Parses a complete canonical JSON text as a routing header.  Fails
    /// with `Error::JsonFormatError` exactly on the texts that are no
    /// canonical encoding.
    pub fn decode_json(s: &str) -> (r: Result<DidcommHeader, Error>)
        ensures
            r matches Ok(h) ==> parse_didcomm_text(s@) == Some(h@),
            r matches Err(e) ==> parse_didcomm_text(s@) is None && e == Error::JsonFormatError,
    {
        let cs = str_chars(s);
        proof {
            assert(cs@.skip(0) =~= s@);
        }
        match take_didcomm(&cs, 0) {
            Some((h, p)) => {
                if p == cs.len() {
                    proof {
                        assert(cs@.skip(p as int).len() == 0);
                    }
                    Ok(h)
                } else {
                    proof {
                        assert(cs@.skip(p as int).len() > 0);
                    }
                    Err(Error::JsonFormatError)
                }
            },
            None => Err(Error::JsonFormatError),
        }
    }
}

} // verus!

verus! {

pub open spec fn k_header() -> Seq<char> {
    "\"header\":"@
}

pub open spec fn k_enc_key() -> Seq<char> {
    ",\"encrypted_key\":"@
}

/// The characters of the recipient-record keys, spelt out.
proof fn lemma_recipient_keys()
    ensures
        k_header() =~= seq!['"', 'h', 'e', 'a', 'd', 'e', 'r', '"', ':'],
        k_enc_key() =~= seq![',', '"', 'e', 'n', 'c', 'r', 'y', 'p', 't', 'e', 'd', '_', 'k',
            'e', 'y', '"', ':'],
        "{\"header\":"@ == seq!['{'] + k_header(),
{
    reveal_strlit("\"header\":");
    reveal_strlit(",\"encrypted_key\":");
    reveal_strlit("{\"header\":");
    assert("{\"header\":"@ =~= seq!['{'] + k_header());
}

/// The canonical JSON encoding of a recipient record: both fields always
/// present.
pub open spec fn enc_recipient(v: RecepientView) -> Seq<char> {
    seq!['{'] + k_header() + enc_jwk(v.header) + k_enc_key() + enc_string(v.encrypted_key)
        + seq!['}']
}

/// Parses the canonical JSON encoding of a recipient record.
pub open spec fn parse_recipient(s: Seq<char>) -> Option<(RecepientView, Seq<char>)> {
    if starts_with(s, seq!['{'] + k_header()) {
        match parse_jwk(s.skip(1 + k_header().len() as int)) {
            Some((h, r1)) => if starts_with(r1, k_enc_key()) {
                match parse_string(r1.skip(k_enc_key().len() as int)) {
                    Some((ek, r2)) => if r2.len() > 0 && r2[0] == '}' {
                        Some((RecepientView { header: h, encrypted_key: ek }, r2.skip(1)))
                    } else {
                        None
                    },
                    None => None,
                }
            } else {
                None
            },
            None => None,
        }
    } else {
        None
    }
}

/// Parsing inverts encoding for a recipient record, whatever trailing text
/// follows.
#[verifier::rlimit(100)]
proof fn lemma_parse_recipient_rt(v: RecepientView, rest: Seq<char>)
    ensures
        parse_recipient(enc_recipient(v) + rest) == Some((v, rest)),
{
    lemma_recipient_keys();
    let s = enc_recipient(v) + rest;
    let t2 = seq!['}'] + rest;
    let t1 = k_enc_key() + enc_string(v.encrypted_key) + t2;
    let p = seq!['{'] + k_header();
    let b1 = p + enc_jwk(v.header);
    let b2 = b1 + k_enc_key();
    let b3 = b2 + enc_string(v.encrypted_key);
    assert(enc_recipient(v) == b3 + seq!['}']);
    lemma_assoc(b3, seq!['}'], rest);
    lemma_assoc(b2, enc_string(v.encrypted_key), t2);
    lemma_assoc(b1, k_enc_key(), enc_string(v.encrypted_key) + t2);
    lemma_assoc(p, enc_jwk(v.header), k_enc_key() + (enc_string(v.encrypted_key) + t2));
    assert(s == p + (enc_jwk(v.header) + (k_enc_key() + (enc_string(v.encrypted_key) + t2))));
    lemma_starts_with_concat(p, enc_jwk(v.header) + (k_enc_key() + (enc_string(
        v.encrypted_key,
    ) + t2)));
    lemma_parse_jwk_rt(v.header, k_enc_key() + (enc_string(v.encrypted_key) + t2));
    lemma_starts_with_concat(k_enc_key(), enc_string(v.encrypted_key) + t2);
    lemma_parse_string_rt(v.encrypted_key, t2);
    assert(t2[0] == '}');
    assert(t2.skip(1) =~= rest);
    assert(RecepientView { header: v.header, encrypted_key: v.encrypted_key } =~= v);
}

/// Parses a complete text as a recipient record: the whole text must be
/// consumed.
pub open spec fn parse_recipient_text(s: Seq<char>) -> Option<RecepientView> {
    match parse_recipient(s) {
        Some((v, r)) => if r.len() == 0 {
            Some(v)
        } else {
            None
        },
        None => None,
    }
}

/// Decoding the canonical encoding of any recipient record gives back
/// exactly that record.
pub proof fn lemma_recipient_round_trip(v: RecepientView)
    ensures
        parse_recipient_text(enc_recipient(v)) == Some(v),
{
    lemma_parse_recipient_rt(v, Seq::empty());
    assert(enc_recipient(v) + Seq::<char>::empty() =~= enc_recipient(v));
}

impl Recepient {
    /// Serializes this recipient record as its canonical JSON text.
    pub fn encode_json(&self) -> (r: String)
        ensures
            r@ == enc_recipient(self@),
    {
        let mut out: Vec<char> = Vec::new();
        out.push('{');
        append_str(&mut out, "\"header\":");
        push_jwk(&mut out, &self.header);
        append_str(&mut out, ",\"encrypted_key\":");
        push_string_lit(&mut out, self.encrypted_key.as_str());
        out.push('}');
        proof {
            assert(out@ =~= enc_recipient(self@));
        }
        chars_string(&out)
    }

    /// Parses a complete canonical JSON text as a recipient record.  Fails
    /// with `Error::JsonFormatError` exactly on the texts that are no
    /// canonical encoding.
    pub fn decode_json(s: &str) -> (r: Result<Recepient, Error>)
        ensures
            r matches Ok(c) ==> parse_recipient_text(s@) == Some(c@),
            r matches Err(e) ==> parse_recipient_text(s@) is None && e == Error::JsonFormatError,
    {
        let cs = str_chars(s);
        proof {
            assert(cs@.skip(0) =~= s@);
            lemma_recipient_keys();
        }
        match take_lit(&cs, 0, "{\"header\":") {
            None => Err(Error::JsonFormatError),
            Some(p1) => {
                proof {
                    assert(cs@.skip(0).skip(1 + k_header().len() as int) =~= cs@.skip(
                        p1 as int,
                    ));
                }
                match take_jwk(&cs, p1) {
                    None => Err(Error::JsonFormatError),
                    Some((h, p2)) => match take_lit(&cs, p2, ",\"encrypted_key\":") {
                        None => Err(Error::JsonFormatError),
                        Some(p3) => {
                            proof {
                                assert(cs@.skip(p2 as int).skip(k_enc_key().len() as int)
                                    =~= cs@.skip(p3 as int));
                            }
                            match take_string(&cs, p3) {
                                None => Err(Error::JsonFormatError),
                                Some((ek, p4)) => {
                                    if p4 < cs.len() && cs.len() - p4 == 1 && cs[p4] == '}' {
                                        proof {
                                            assert(cs@.skip(p4 as int)[0] == '}');
                                            assert(cs@.skip(p4 as int).skip(1) =~= cs@.skip(
                                                p4 + 1,
                                            ));
                                            assert(cs@.skip((p4 + 1) as int).len() == 0);
                                        }
                                        Ok(Recepient { header: h, encrypted_key: ek })
                                    } else {
                                        proof {
                                            if p4 < cs@.len() {
                                                assert(cs@.skip(p4 as int)[0] == cs@[
                                                    p4 as int]);
                                            }
                                        }
                                        Err(Error::JsonFormatError)
                                    }
                                },
                            }
                        },
                    },
                }
            },
        }
    }
}

} // verus!
