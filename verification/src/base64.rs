//! Unpadded base64url codec over raw byte buffers: the URL-safe alphabet
//! (`A`–`Z`, `a`–`z`, `0`–`9`, `-`, `_`), no `=` padding, and strict
//! decoding that rejects foreign characters, impossible lengths and
//! non-zero trailing bits.

use crate::error::Error;
use crate::text::{chars_string, str_chars};
use vstd::prelude::*;

verus! {

/// The base64url character for the 6-bit value `v`.
pub open spec fn b64_char_of(v: u8) -> char
    recommends
        v < 64,
{
    if v < 26 {
        ((v + 65) as u8) as char  // 'A'..='Z'
    } else if v < 52 {
        ((v + 71) as u8) as char  // 'a'..='z'
    } else if v < 62 {
        ((v - 4) as u8) as char  // '0'..='9'
    } else if v == 62 {
        '-'
    } else {
        '_'
    }
}

/// The 6-bit value of a base64url character, or `None` for a character
/// outside the alphabet.
pub open spec fn b64_val_of(c: char) -> Option<u8> {
    let u = c as u32;
    if 65 <= u && u <= 90 {
        Some((u - 65) as u8)
    } else if 97 <= u && u <= 122 {
        Some((u - 71) as u8)
    } else if 48 <= u && u <= 57 {
        Some((u + 4) as u8)
    } else if c == '-' {
        Some(62u8)
    } else if c == '_' {
        Some(63u8)
    } else {
        None
    }
}

/// The unpadded base64url encoding of a byte sequence.
pub open spec fn b64_encode_bytes(b: Seq<u8>) -> Seq<char>
    decreases b.len(),
{
    if b.len() == 0 {
        Seq::empty()
    } else if b.len() == 1 {
        let x = b[0];
        seq![b64_char_of(x >> 2), b64_char_of((x & 3) << 4)]
    } else if b.len() == 2 {
        let x = b[0];
        let y = b[1];
        seq![
            b64_char_of(x >> 2),
            b64_char_of(((x & 3) << 4) | (y >> 4)),
            b64_char_of((y & 15) << 2),
        ]
    } else {
        let x = b[0];
        let y = b[1];
        let z = b[2];
        seq![
            b64_char_of(x >> 2),
            b64_char_of(((x & 3) << 4) | (y >> 4)),
            b64_char_of(((y & 15) << 2) | (z >> 6)),
            b64_char_of(z & 63),
        ] + b64_encode_bytes(b.skip(3))
    }
}

/// Strict decoding of an unpadded base64url character sequence: `None` on a
/// character outside the alphabet, on a length of the form `4k + 1`, and on
/// non-zero trailing bits in a final short group.
pub open spec fn b64_decode_chars(s: Seq<char>) -> Option<Seq<u8>>
    decreases s.len(),
{
    if s.len() == 0 {
        Some(Seq::empty())
    } else if s.len() == 1 {
        None
    } else if s.len() == 2 {
        match (b64_val_of(s[0]), b64_val_of(s[1])) {
            (Some(a), Some(b)) => if b & 15 == 0 {
                Some(seq![(a << 2) | (b >> 4)])
            } else {
                None
            },
            _ => None,
        }
    } else if s.len() == 3 {
        match (b64_val_of(s[0]), b64_val_of(s[1]), b64_val_of(s[2])) {
            (Some(a), Some(b), Some(c)) => if c & 3 == 0 {
                Some(seq![(a << 2) | (b >> 4), ((b & 15) << 4) | (c >> 2)])
            } else {
                None
            },
            _ => None,
        }
    } else {
        match (b64_val_of(s[0]), b64_val_of(s[1]), b64_val_of(s[2]), b64_val_of(s[3])) {
            (Some(a), Some(b), Some(c), Some(d)) => match b64_decode_chars(s.skip(4)) {
                Some(rest) => Some(
                    seq![(a << 2) | (b >> 4), ((b & 15) << 4) | (c >> 2), ((c & 3) << 6) | d]
                        + rest,
                ),
                None => None,
            },
            _ => None,
        }
    }
}

/// Decoding inverts the alphabet lookup.
proof fn lemma_b64_val_char(v: u8)
    requires
        v < 64,
    ensures
        b64_val_of(b64_char_of(v)) == Some(v),
{
}

/// Encoding distributes over splitting off whole 3-byte groups.
proof fn lemma_b64_encode_append(a: Seq<u8>, b: Seq<u8>)
    requires
        a.len() % 3 == 0,
    ensures
        b64_encode_bytes(a + b) == b64_encode_bytes(a) + b64_encode_bytes(b),
    decreases a.len(),
{
    if a.len() == 0 {
        assert(a + b =~= b);
        assert(b64_encode_bytes(a) + b64_encode_bytes(b) =~= b64_encode_bytes(b));
    } else {
        assert(a.len() >= 3);
        let ab = a + b;
        if ab.len() <= 2 {
        } else {
            assert((a + b).skip(3) =~= a.skip(3) + b);
            lemma_b64_encode_append(a.skip(3), b);
            if a.len() == 3 {
                assert(b64_encode_bytes(a.skip(3)) =~= Seq::<char>::empty());
                assert(b64_encode_bytes(a + b) =~= b64_encode_bytes(a) + b64_encode_bytes(b));
            } else {
                assert(b64_encode_bytes(a + b) =~= b64_encode_bytes(a) + b64_encode_bytes(b));
            }
        }
    }
}

/// Decoding distributes over splitting off whole 4-character groups.
proof fn lemma_b64_decode_append(a: Seq<char>, b: Seq<char>)
    requires
        a.len() % 4 == 0,
    ensures
        b64_decode_chars(a + b) == (match (b64_decode_chars(a), b64_decode_chars(b)) {
            (Some(x), Some(y)) => Some(x + y),
            _ => None::<Seq<u8>>,
        }),
    decreases a.len(),
{
    if a.len() == 0 {
        assert(a + b =~= b);
        match (b64_decode_chars(a), b64_decode_chars(b)) {
            (Some(x), Some(y)) => {
                assert(x + y =~= y);
            },
            _ => {},
        }
    } else {
        assert(a.len() >= 4);
        let ab = a + b;
        assert(ab.len() >= 4);
        assert(ab[0] == a[0] && ab[1] == a[1] && ab[2] == a[2] && ab[3] == a[3]);
        assert(ab.skip(4) =~= a.skip(4) + b);
        lemma_b64_decode_append(a.skip(4), b);
        match (b64_decode_chars(a), b64_decode_chars(b)) {
            (Some(x), Some(y)) => {
                assert(b64_decode_chars(ab) =~= Some(x + y)) by {
                    assert(b64_decode_chars(a.skip(4) + b) == (
                    match (b64_decode_chars(a.skip(4)), b64_decode_chars(b)) {
                        (Some(u), Some(v)) => Some(u + v),
                        _ => None::<Seq<u8>>,
                    }));
                    assert(x + y =~= x.take(3) + (x.skip(3) + y));
                };
            },
            _ => {},
        }
    }
}

/// Decoding the encoding of any byte sequence gives back exactly that
/// sequence: the codec is lossless.
pub proof fn lemma_base64url_round_trip(b: Seq<u8>)
    ensures
        b64_decode_chars(b64_encode_bytes(b)) == Some(b),
    decreases b.len(),
{
    if b.len() == 0 {
    } else if b.len() == 1 {
        let x = b[0];
        assert(x >> 2 < 64 && (x & 3) << 4 < 64 && ((x & 3) << 4) & 15 == 0 && ((x >> 2) << 2) | (
        ((x & 3) << 4) >> 4) == x) by (bit_vector);
        lemma_b64_val_char(x >> 2);
        lemma_b64_val_char((x & 3) << 4);
        assert(b64_decode_chars(b64_encode_bytes(b)) =~= Some(b));
    } else if b.len() == 2 {
        let x = b[0];
        let y = b[1];
        assert(x >> 2 < 64 && ((x & 3) << 4) | (y >> 4) < 64 && (y & 15) << 2 < 64 && ((y & 15)
            << 2) & 3 == 0 && ((x >> 2) << 2) | ((((x & 3) << 4) | (y >> 4)) >> 4) == x && (((((x
            & 3) << 4) | (y >> 4)) & 15) << 4) | (((y & 15) << 2) >> 2) == y) by (bit_vector);
        lemma_b64_val_char(x >> 2);
        lemma_b64_val_char(((x & 3) << 4) | (y >> 4));
        lemma_b64_val_char((y & 15) << 2);
        assert(b64_decode_chars(b64_encode_bytes(b)) =~= Some(b));
    } else {
        let x = b[0];
        let y = b[1];
        let z = b[2];
        assert(x >> 2 < 64 && ((x & 3) << 4) | (y >> 4) < 64 && ((y & 15) << 2) | (z >> 6) < 64
            && z & 63 < 64 && ((x >> 2) << 2) | ((((x & 3) << 4) | (y >> 4)) >> 4) == x && (((((x
            & 3) << 4) | (y >> 4)) & 15) << 4) | (((((y & 15) << 2) | (z >> 6))) >> 2) == y && ((((
        ((y & 15) << 2) | (z >> 6))) & 3) << 6) | (z & 63) == z) by (bit_vector);
        lemma_b64_val_char(x >> 2);
        lemma_b64_val_char(((x & 3) << 4) | (y >> 4));
        lemma_b64_val_char(((y & 15) << 2) | (z >> 6));
        lemma_b64_val_char(z & 63);
        let e = b64_encode_bytes(b);
        let rest = b64_encode_bytes(b.skip(3));
        assert(e.len() == 4 + rest.len());
        assert(e[0] == b64_char_of(x >> 2));
        assert(e[1] == b64_char_of(((x & 3) << 4) | (y >> 4)));
        assert(e[2] == b64_char_of(((y & 15) << 2) | (z >> 6)));
        assert(e[3] == b64_char_of(z & 63));
        assert(e.skip(4) =~= rest);
        lemma_base64url_round_trip(b.skip(3));
        assert(seq![x, y, z] + b.skip(3) =~= b);
        assert(b64_decode_chars(e) =~= Some(b));
    }
}

/// The base64url character for the 6-bit value `v`.
fn b64_char(v: u8) -> (c: char)
    requires
        v < 64,
    ensures
        c == b64_char_of(v),
{
    if v < 26 {
        (v + 65) as char
    } else if v < 52 {
        (v + 71) as char
    } else if v < 62 {
        (v - 4) as char
    } else if v == 62 {
        '-'
    } else {
        '_'
    }
}

/// The 6-bit value of a base64url character, or `None` outside the
/// alphabet.
fn b64_val(c: char) -> (r: Option<u8>)
    ensures
        r == b64_val_of(c),
{
    let u = c as u32;
    if 65 <= u && u <= 90 {
        Some((u - 65) as u8)
    } else if 97 <= u && u <= 122 {
        Some((u - 71) as u8)
    } else if 48 <= u && u <= 57 {
        Some((u + 4) as u8)
    } else if c == '-' {
        Some(62u8)
    } else if c == '_' {
        Some(63u8)
    } else {
        None
    }
}

/// Serializes a byte buffer as an unpadded base64url string.
pub fn base64url_encode(buf: &Vec<u8>) -> (r: String)
    ensures
        r@ == b64_encode_bytes(buf@),
{
    let n = buf.len();
    let mut out: Vec<char> = Vec::new();
    let mut i: usize = 0;
    while n - i >= 3
        invariant
            i <= n,
            n == buf@.len(),
            i % 3 == 0,
            out@ == b64_encode_bytes(buf@.take(i as int)),
        decreases n - i,
    {
        let ghost prev = out@;
        let x = buf[i];
        let y = buf[i + 1];
        let z = buf[i + 2];
        proof {
            assert(x >> 2 < 64 && ((x & 3) << 4) | (y >> 4) < 64 && ((y & 15) << 2) | (z >> 6)
                < 64 && z & 63 < 64) by (bit_vector);
        }
        out.push(b64_char(x >> 2));
        out.push(b64_char(((x & 3) << 4) | (y >> 4)));
        out.push(b64_char(((y & 15) << 2) | (z >> 6)));
        out.push(b64_char(z & 63));
        proof {
            let a = buf@.take(i as int);
            let g = buf@.subrange(i as int, i + 3);
            lemma_b64_encode_append(a, g);
            assert(buf@.take(i + 3) =~= a + g);
            assert(g.len() == 3 && g[0] == x && g[1] == y && g[2] == z);
            assert(g.skip(3) =~= Seq::<u8>::empty());
            assert(b64_encode_bytes(Seq::<u8>::empty()) =~= Seq::<char>::empty());
            assert(b64_encode_bytes(g) =~= seq![
                b64_char_of(x >> 2),
                b64_char_of(((x & 3) << 4) | (y >> 4)),
                b64_char_of(((y & 15) << 2) | (z >> 6)),
                b64_char_of(z & 63),
            ] + b64_encode_bytes(g.skip(3)));
            assert(b64_encode_bytes(g) =~= seq![
                b64_char_of(x >> 2),
                b64_char_of(((x & 3) << 4) | (y >> 4)),
                b64_char_of(((y & 15) << 2) | (z >> 6)),
                b64_char_of(z & 63),
            ]);
            assert(out@ =~= prev + b64_encode_bytes(g));
            assert(out@ =~= b64_encode_bytes(buf@.take(i + 3)));
        }
        i = i + 3;
    }
    if n - i == 1 {
        let ghost prev = out@;
        let x = buf[i];
        proof {
            assert(x >> 2 < 64 && (x & 3) << 4 < 64) by (bit_vector);
        }
        out.push(b64_char(x >> 2));
        out.push(b64_char((x & 3) << 4));
        proof {
            let a = buf@.take(i as int);
            let g = buf@.subrange(i as int, n as int);
            lemma_b64_encode_append(a, g);
            assert(buf@ =~= a + g);
            assert(g.len() == 1 && g[0] == x);
            assert(b64_encode_bytes(g) =~= seq![b64_char_of(x >> 2), b64_char_of((x & 3) << 4)]);
            assert(out@ =~= prev + b64_encode_bytes(g));
            assert(out@ =~= b64_encode_bytes(buf@));
        }
    } else if n - i == 2 {
        let ghost prev = out@;
        let x = buf[i];
        let y = buf[i + 1];
        proof {
            assert(x >> 2 < 64 && ((x & 3) << 4) | (y >> 4) < 64 && (y & 15) << 2 < 64)
                by (bit_vector);
        }
        out.push(b64_char(x >> 2));
        out.push(b64_char(((x & 3) << 4) | (y >> 4)));
        out.push(b64_char((y & 15) << 2));
        proof {
            let a = buf@.take(i as int);
            let g = buf@.subrange(i as int, n as int);
            lemma_b64_encode_append(a, g);
            assert(buf@ =~= a + g);
            assert(g.len() == 2 && g[0] == x && g[1] == y);
            assert(b64_encode_bytes(g) =~= seq![
                b64_char_of(x >> 2),
                b64_char_of(((x & 3) << 4) | (y >> 4)),
                b64_char_of((y & 15) << 2),
            ]);
            assert(out@ =~= prev + b64_encode_bytes(g));
            assert(out@ =~= b64_encode_bytes(buf@));
        }
    } else {
        proof {
            assert(buf@.take(i as int) =~= buf@);
        }
    }
    chars_string(&out)
}

/// Parses an unpadded base64url string back into the exact byte buffer it
/// encodes.  Fails with `Error::Base64DecodeError` exactly on the strings
/// that are no unpadded base64url encoding.
pub fn base64url_decode(s: &str) -> (r: Result<Vec<u8>, Error>)
    ensures
        r matches Ok(v) ==> b64_decode_chars(s@) == Some(v@),
        r matches Err(e) ==> b64_decode_chars(s@) is None && e == Error::Base64DecodeError,
{
    let cs = str_chars(s);
    let n = cs.len();
    let mut out: Vec<u8> = Vec::new();
    let mut i: usize = 0;
    while n - i >= 4
        invariant
            i <= n,
            n == cs@.len(),
            cs@ == s@,
            i % 4 == 0,
            b64_decode_chars(s@.take(i as int)) == Some(out@),
        decreases n - i,
    {
        let ghost prev = out@;
        let v0 = b64_val(cs[i]);
        let v1 = b64_val(cs[i + 1]);
        let v2 = b64_val(cs[i + 2]);
        let v3 = b64_val(cs[i + 3]);
        match (v0, v1, v2, v3) {
            (Some(a), Some(b), Some(c), Some(d)) => {
                out.push((a << 2) | (b >> 4));
                out.push(((b & 15) << 4) | (c >> 2));
                out.push(((c & 3) << 6) | d);
                proof {
                    let p = s@.take(i as int);
                    let g4 = s@.subrange(i as int, i + 4);
                    lemma_b64_decode_append(p, g4);
                    assert(s@.take(i + 4) =~= p + g4);
                    assert(g4.len() == 4 && g4[0] == s@[i as int] && g4[1] == s@[i + 1] && g4[2]
                        == s@[i + 2] && g4[3] == s@[i + 3]);
                    assert(g4.skip(4) =~= Seq::<char>::empty());
                    let bytes = seq![(a << 2) | (b >> 4), ((b & 15) << 4) | (c >> 2), ((c & 3)
                        << 6) | d];
                    assert(b64_decode_chars(g4.skip(4)) =~= Some(Seq::<u8>::empty()));
                    assert(b64_decode_chars(g4) =~= Some(bytes + Seq::<u8>::empty()));
                    assert(bytes + Seq::<u8>::empty() =~= bytes);
                    assert(b64_decode_chars(g4) =~= Some(bytes));
                    assert(out@ =~= prev + bytes);
                    assert(b64_decode_chars(s@.take(i + 4)) == Some(out@));
                }
                i = i + 4;
            },
            _ => {
                proof {
                    let p = s@.take(i as int);
                    let g = s@.skip(i as int);
                    lemma_b64_decode_append(p, g);
                    assert(p + g =~= s@);
                    assert(g.len() >= 4);
                    assert(g[0] == s@[i as int] && g[1] == s@[i + 1] && g[2] == s@[i + 2] && g[3]
                        == s@[i + 3]);
                    assert(b64_decode_chars(g) is None);
                }
                return Err(Error::Base64DecodeError);
            },
        }
    }
    let rem = n - i;
    let ghost prev = out@;
    proof {
        let a = s@.take(i as int);
        let g = s@.skip(i as int);
        lemma_b64_decode_append(a, g);
        assert(a + g =~= s@);
        assert(g.len() == n - i);
    }
    if rem == 0 {
        proof {
            assert(s@.skip(i as int) =~= Seq::<char>::empty());
            assert(prev + Seq::<u8>::empty() =~= prev);
        }
        Ok(out)
    } else if rem == 1 {
        Err(Error::Base64DecodeError)
    } else if rem == 2 {
        let v0 = b64_val(cs[i]);
        let v1 = b64_val(cs[i + 1]);
        proof {
            let g = s@.skip(i as int);
            assert(g[0] == s@[i as int] && g[1] == s@[i + 1]);
        }
        match (v0, v1) {
            (Some(a), Some(b)) => {
                if b & 15 == 0 {
                    out.push((a << 2) | (b >> 4));
                    proof {
                        let g = s@.skip(i as int);
                        assert(b64_decode_chars(g) =~= Some(seq![(a << 2) | (b >> 4)]));
                        assert(out@ =~= prev + seq![(a << 2) | (b >> 4)]);
                    }
                    Ok(out)
                } else {
                    Err(Error::Base64DecodeError)
                }
            },
            _ => Err(Error::Base64DecodeError),
        }
    } else {
        let v0 = b64_val(cs[i]);
        let v1 = b64_val(cs[i + 1]);
        let v2 = b64_val(cs[i + 2]);
        proof {
            let g = s@.skip(i as int);
            assert(g[0] == s@[i as int] && g[1] == s@[i + 1] && g[2] == s@[i + 2]);
        }
        match (v0, v1, v2) {
            (Some(a), Some(b), Some(c)) => {
                if c & 3 == 0 {
                    out.push((a << 2) | (b >> 4));
                    out.push(((b & 15) << 4) | (c >> 2));
                    proof {
                        let g = s@.skip(i as int);
                        assert(b64_decode_chars(g) =~= Some(seq![
                            (a << 2) | (b >> 4),
                            ((b & 15) << 4) | (c >> 2),
                        ]));
                        assert(out@ =~= prev + seq![(a << 2) | (b >> 4), ((b & 15) << 4) | (c
                            >> 2)]);
                    }
                    Ok(out)
                } else {
                    Err(Error::Base64DecodeError)
                }
            },
            _ => Err(Error::Base64DecodeError),
        }
    }
}

} // verus!
