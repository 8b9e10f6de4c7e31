//! URL-safe base64 with `=` padding: the textual form of key material inside
//! a URL fragment.
//!
//! The alphabet is `A-Z`, `a-z`, `0-9`, `-`, `_`; encoded output is padded
//! with `=` to a multiple of four characters. Decoding accepts padded or
//! unpadded input, rejects characters outside the alphabet, lengths that
//! leave a lone trailing digit, and non-zero trailing bits.

use vstd::prelude::*;

verus! {

/// Why a string failed to decode.
#[derive(Debug, PartialEq, Eq)]
pub enum DecodeError {
    /// A character outside the base64url alphabet (or a misplaced `=`).
    InvalidSymbol,
    /// The number of digits cannot arise from encoding any byte string.
    InvalidLength,
    /// The final digit carries bits that no encoded byte string produces.
    InvalidLastSymbol,
}

/// The digit character for a six-bit value.
pub open spec fn b64_char(v: u8) -> char
    recommends
        v < 64,
{
    if v < 26 {
        (65 + v) as char
    } else if v < 52 {
        (71 + v) as char
    } else if v < 62 {
        (v - 4) as char
    } else if v == 62 {
        '-'
    } else {
        '_'
    }
}

/// The six-bit value of a digit character, or -1 for a character outside the
/// alphabet.
pub open spec fn b64_val(c: char) -> int {
    let u = c as int;
    if 65 <= u <= 90 {
        u - 65
    } else if 97 <= u <= 122 {
        u - 71
    } else if 48 <= u <= 57 {
        u + 4
    } else if c == '-' {
        62
    } else if c == '_' {
        63
    } else {
        -1
    }
}

pub open spec fn is_b64_digit(c: char) -> bool {
    b64_val(c) >= 0
}

/// The four digits that encode one three-byte group.
pub open spec fn enc3(b0: u8, b1: u8, b2: u8) -> Seq<char> {
    seq![
        b64_char(b0 >> 2),
        b64_char((b0 & 0x03) << 4 | b1 >> 4),
        b64_char((b1 & 0x0f) << 2 | b2 >> 6),
        b64_char(b2 & 0x3f),
    ]
}

/// Encoding of a byte string: three-byte groups, then a padded tail.
pub open spec fn encode_spec(s: Seq<u8>) -> Seq<char>
    decreases s.len(),
{
    if s.len() >= 3 {
        enc3(s[0], s[1], s[2]) + encode_spec(s.skip(3))
    } else if s.len() == 2 {
        seq![
            b64_char(s[0] >> 2),
            b64_char((s[0] & 0x03) << 4 | s[1] >> 4),
            b64_char((s[1] & 0x0f) << 2),
            '=',
        ]
    } else if s.len() == 1 {
        seq![b64_char(s[0] >> 2), b64_char((s[0] & 0x03) << 4), '=', '=']
    } else {
        Seq::empty()
    }
}

/// How many trailing `=` characters count as padding (at most two).
pub open spec fn pad_len(s: Seq<char>) -> int {
    if s.len() >= 2 && s[s.len() - 1] == '=' && s[s.len() - 2] == '=' {
        2
    } else if s.len() >= 1 && s[s.len() - 1] == '=' {
        1
    } else {
        0
    }
}

/// The input without its padding.
pub open spec fn data_part(s: Seq<char>) -> Seq<char> {
    s.take(s.len() - pad_len(s))
}

/// Whether a string is a well-formed encoding.
pub open spec fn decode_ok(s: Seq<char>) -> bool {
    let d = data_part(s);
    &&& forall|i: int| 0 <= i < d.len() ==> is_b64_digit(#[trigger] d[i])
    &&& d.len() % 4 != 1
    &&& (pad_len(s) > 0 ==> s.len() % 4 == 0)
    &&& (d.len() % 4 == 2 ==> b64_val(d[d.len() - 1]) as u8 & 0x0f == 0)
    &&& (d.len() % 4 == 3 ==> b64_val(d[d.len() - 1]) as u8 & 0x03 == 0)
}

/// The three bytes encoded by one four-digit group of six-bit values.
pub open spec fn dec4(v0: u8, v1: u8, v2: u8, v3: u8) -> Seq<u8> {
    seq![v0 << 2 | v1 >> 4, v1 << 4 | v2 >> 2, v2 << 6 | v3]
}

/// The bytes encoded by a sequence of six-bit values (length not 1 mod 4).
pub open spec fn decode_raw(vs: Seq<u8>) -> Seq<u8>
    decreases vs.len(),
{
    if vs.len() >= 4 {
        dec4(vs[0], vs[1], vs[2], vs[3]) + decode_raw(vs.skip(4))
    } else if vs.len() == 3 {
        seq![vs[0] << 2 | vs[1] >> 4, vs[1] << 4 | vs[2] >> 2]
    } else if vs.len() == 2 {
        seq![vs[0] << 2 | vs[1] >> 4]
    } else {
        Seq::empty()
    }
}

/// The six-bit values of a digit string.
pub open spec fn vals_of(d: Seq<char>) -> Seq<u8> {
    d.map_values(|c: char| b64_val(c) as u8)
}

/// What decoding returns: the encoded bytes, or nothing for ill-formed input.
pub open spec fn decode_spec(s: Seq<char>) -> Option<Seq<u8>> {
    if decode_ok(s) {
        Some(decode_raw(vals_of(data_part(s))))
    } else {
        None
    }
}

/// The characters named by a sequence of ASCII bytes.
pub open spec fn chars_of(bs: Seq<u8>) -> Seq<char> {
    bs.map_values(|b: u8| b as char)
}

/// Relies on std's `String::from_utf8`: bytes below 128 are one-byte UTF-8
/// sequences for the code points of the same value, so the conversion cannot
/// fail and yields exactly those characters.
#[verifier::external_body]
fn ascii_to_string(bytes: Vec<u8>) -> (r: String)
    requires
        forall|i: int| 0 <= i < bytes@.len() ==> bytes@[i] < 128,
    ensures
        r@ == chars_of(bytes@),
{
    String::from_utf8(bytes).unwrap_or_default()
}

/// The digit character for a six-bit value, as its ASCII byte.
fn b64_digit(v: u8) -> (r: u8)
    requires
        v < 64,
    ensures
        r < 128,
        r as char == b64_char(v),
{
    if v < 26 {
        65 + v
    } else if v < 52 {
        71 + v
    } else if v < 62 {
        v - 4
    } else if v == 62 {
        45
    } else {
        95
    }
}

/// Every six-bit value has a digit, and the digit maps back to it.
proof fn lemma_digit_roundtrip(v: u8)
    requires
        v < 64,
    ensures
        is_b64_digit(b64_char(v)),
        b64_val(b64_char(v)) == v as int,
        b64_char(v) != '=',
        b64_char(v) != '!',
        b64_char(v) != ':',
{
}

/// URL-safe base64 encoding, padded with `=`.
pub fn encode(input: &Vec<u8>) -> (r: String)
    ensures
        r@ == encode_spec(input@),
{
    let ghost s = input@;
    let mut out: Vec<u8> = Vec::new();
    let mut i: usize = 0;
    proof {
        assert(s.skip(0) =~= s);
        assert(chars_of(out@) + encode_spec(s) =~= encode_spec(s));
    }
    while input.len() - i >= 3
        invariant
            i <= input.len(),
            s == input@,
            forall|j: int| 0 <= j < out@.len() ==> out@[j] < 128,
            chars_of(out@) + encode_spec(s.skip(i as int)) == encode_spec(s),
        decreases input.len() - i,
    {
        let b0 = input[i];
        let b1 = input[i + 1];
        let b2 = input[i + 2];
        assert(b0 >> 2 < 64 && ((b0 & 0x03) << 4 | b1 >> 4) < 64 && ((b1 & 0x0f) << 2 | b2 >> 6)
            < 64 && b2 & 0x3f < 64) by (bit_vector);
        let c0 = b64_digit(b0 >> 2);
        let c1 = b64_digit((b0 & 0x03) << 4 | b1 >> 4);
        let c2 = b64_digit((b1 & 0x0f) << 2 | b2 >> 6);
        let c3 = b64_digit(b2 & 0x3f);
        let ghost prev = out@;
        out.push(c0);
        out.push(c1);
        out.push(c2);
        out.push(c3);
        proof {
            let gi = i as int;
            assert(s.skip(gi).skip(3) =~= s.skip(gi + 3));
            assert(s.skip(gi)[0] == b0 && s.skip(gi)[1] == b1 && s.skip(gi)[2] == b2);
            assert(encode_spec(s.skip(gi)) == enc3(b0, b1, b2) + encode_spec(s.skip(gi + 3)));
            assert(chars_of(out@) =~= chars_of(prev) + enc3(b0, b1, b2));
            assert(chars_of(out@) + encode_spec(s.skip(gi + 3)) =~= chars_of(prev) + encode_spec(
                s.skip(gi),
            ));
        }
        i = i + 3;
    }
    let ghost prev = out@;
    let ghost gi = i as int;
    if input.len() - i == 2 {
        let b0 = input[i];
        let b1 = input[i + 1];
        assert(b0 >> 2 < 64 && ((b0 & 0x03) << 4 | b1 >> 4) < 64 && (b1 & 0x0f) << 2
            < 64) by (bit_vector);
        let c0 = b64_digit(b0 >> 2);
        let c1 = b64_digit((b0 & 0x03) << 4 | b1 >> 4);
        let c2 = b64_digit((b1 & 0x0f) << 2);
        out.push(c0);
        out.push(c1);
        out.push(c2);
        out.push(61);
        proof {
            assert(s.skip(gi)[0] == b0 && s.skip(gi)[1] == b1);
            assert(chars_of(out@) =~= chars_of(prev) + encode_spec(s.skip(gi)));
        }
    } else if input.len() - i == 1 {
        let b0 = input[i];
        assert(b0 >> 2 < 64 && (b0 & 0x03) << 4 < 64) by (bit_vector);
        let c0 = b64_digit(b0 >> 2);
        let c1 = b64_digit((b0 & 0x03) << 4);
        out.push(c0);
        out.push(c1);
        out.push(61);
        out.push(61);
        proof {
            assert(s.skip(gi)[0] == b0);
            assert(chars_of(out@) =~= chars_of(prev) + encode_spec(s.skip(gi)));
        }
    } else {
        proof {
            assert(chars_of(out@) =~= chars_of(prev) + encode_spec(s.skip(gi)));
        }
    }
    proof {
        assert(chars_of(out@) =~= encode_spec(s));
    }
    ascii_to_string(out)
}

/// The six-bit value of a digit character, if it is in the alphabet.
fn b64_digit_val(c: char) -> (r: Option<u8>)
    ensures
        match r {
            Some(v) => b64_val(c) == v as int && v < 64,
            None => b64_val(c) < 0,
        },
{
    let u = c as u32;
    if 65 <= u && u <= 90 {
        Some((u - 65) as u8)
    } else if 97 <= u && u <= 122 {
        Some((u - 71) as u8)
    } else if 48 <= u && u <= 57 {
        Some((u + 4) as u8)
    } else if c == '-' {
        Some(62)
    } else if c == '_' {
        Some(63)
    } else {
        None
    }
}

/// URL-safe base64 decoding; `=` padding is accepted but not required.
pub fn decode(input: &str) -> (r: Result<Vec<u8>, DecodeError>)
    ensures
        match r {
            Ok(v) => decode_spec(input@) == Some(v@),
            Err(_) => decode_spec(input@) is None,
        },
{
    let ghost s = input@;
    let n = input.unicode_len();
    let pad: usize = if n >= 2 && input.get_char(n - 1) == '=' && input.get_char(n - 2) == '=' {
        2
    } else if n >= 1 && input.get_char(n - 1) == '=' {
        1
    } else {
        0
    };
    assert(pad == pad_len(s));
    let dlen = n - pad;
    let ghost d = data_part(s);
    assert(d.len() == dlen);
    if pad > 0 && n % 4 != 0 {
        return Err(DecodeError::InvalidLength);
    }
    if dlen % 4 == 1 {
        return Err(DecodeError::InvalidLength);
    }
    let mut vs: Vec<u8> = Vec::new();
    let mut i: usize = 0;
    while i < dlen
        invariant
            i <= dlen,
            dlen == d.len() <= s.len(),
            s == input@,
            d == data_part(s),
            vs@.len() == i,
            forall|k: int| 0 <= k < i ==> is_b64_digit(#[trigger] d[k]),
            forall|k: int| 0 <= k < i ==> vs@[k] == b64_val(d[k]) as u8 && vs@[k] < 64,
        decreases dlen - i,
    {
        let c = input.get_char(i);
        assert(c == d[i as int]);
        match b64_digit_val(c) {
            None => {
                return Err(DecodeError::InvalidSymbol);
            },
            Some(v) => {
                vs.push(v);
            },
        }
        i = i + 1;
    }
    assert(vs@ =~= vals_of(d));
    if dlen % 4 == 2 && vs[dlen - 1] & 0x0f != 0 {
        return Err(DecodeError::InvalidLastSymbol);
    }
    if dlen % 4 == 3 && vs[dlen - 1] & 0x03 != 0 {
        return Err(DecodeError::InvalidLastSymbol);
    }
    assert(decode_ok(s));
    let mut out: Vec<u8> = Vec::new();
    let mut j: usize = 0;
    proof {
        assert(vs@.skip(0) =~= vs@);
        assert(out@ + decode_raw(vs@) =~= decode_raw(vs@));
    }
    while vs.len() - j >= 4
        invariant
            j <= vs.len(),
            out@ + decode_raw(vs@.skip(j as int)) == decode_raw(vs@),
        decreases vs.len() - j,
    {
        let v0 = vs[j];
        let v1 = vs[j + 1];
        let v2 = vs[j + 2];
        let v3 = vs[j + 3];
        let ghost prev = out@;
        out.push(v0 << 2 | v1 >> 4);
        out.push(v1 << 4 | v2 >> 2);
        out.push(v2 << 6 | v3);
        proof {
            let gj = j as int;
            assert(vs@.skip(gj).skip(4) =~= vs@.skip(gj + 4));
            assert(vs@.skip(gj)[0] == v0 && vs@.skip(gj)[1] == v1 && vs@.skip(gj)[2] == v2
                && vs@.skip(gj)[3] == v3);
            assert(decode_raw(vs@.skip(gj)) == dec4(v0, v1, v2, v3) + decode_raw(vs@.skip(gj + 4)));
            assert(out@ =~= prev + dec4(v0, v1, v2, v3));
            assert(out@ + decode_raw(vs@.skip(gj + 4)) =~= prev + decode_raw(vs@.skip(gj)));
        }
        j = j + 4;
    }
    let ghost prev = out@;
    let ghost gj = j as int;
    if vs.len() - j == 3 {
        let v0 = vs[j];
        let v1 = vs[j + 1];
        let v2 = vs[j + 2];
        out.push(v0 << 2 | v1 >> 4);
        out.push(v1 << 4 | v2 >> 2);
        proof {
            assert(vs@.skip(gj)[0] == v0 && vs@.skip(gj)[1] == v1 && vs@.skip(gj)[2] == v2);
            assert(out@ =~= prev + decode_raw(vs@.skip(gj)));
        }
    } else if vs.len() - j == 2 {
        let v0 = vs[j];
        let v1 = vs[j + 1];
        out.push(v0 << 2 | v1 >> 4);
        proof {
            assert(vs@.skip(gj)[0] == v0 && vs@.skip(gj)[1] == v1);
            assert(out@ =~= prev + decode_raw(vs@.skip(gj)));
        }
    } else {
        proof {
            assert(out@ =~= prev + decode_raw(vs@.skip(gj)));
        }
    }
    proof {
        assert(out@ =~= decode_raw(vals_of(d)));
    }
    Ok(out)
}

/// An encoding is empty only for empty input, and is always a whole number of
/// four-character groups.
pub proof fn lemma_encode_len(b: Seq<u8>)
    ensures
        encode_spec(b).len() % 4 == 0,
        b.len() == 0 ==> encode_spec(b).len() == 0,
        b.len() > 0 ==> encode_spec(b).len() >= 4,
    decreases b.len(),
{
    if b.len() >= 3 {
        lemma_encode_len(b.skip(3));
    }
}

/// Every character of an encoding is a digit or `=`; in particular the
/// fragment delimiters `!` and `:` never occur.
pub proof fn lemma_encode_alphabet(b: Seq<u8>)
    ensures
        forall|i: int|
            0 <= i < encode_spec(b).len() ==> (is_b64_digit(#[trigger] encode_spec(b)[i])
                || encode_spec(b)[i] == '='),
        forall|i: int|
            0 <= i < encode_spec(b).len() ==> encode_spec(b)[i] != '!' && encode_spec(b)[i] != ':',
    decreases b.len(),
{
    assert(forall|v: u8| v < 64 ==> #[trigger] b64_char(v) != '!' && b64_char(v) != ':'
        && is_b64_digit(b64_char(v))) by {
        assert forall|v: u8| v < 64 implies #[trigger] b64_char(v) != '!' && b64_char(v) != ':'
            && is_b64_digit(b64_char(v)) by {
            lemma_digit_roundtrip(v);
        }
    }
    assert(b64_val('=') < 0 && b64_val('!') < 0 && b64_val(':') < 0);
    if b.len() >= 3 {
        lemma_encode_alphabet(b.skip(3));
        let b0 = b[0];
        let b1 = b[1];
        let b2 = b[2];
        assert(b0 >> 2 < 64 && ((b0 & 0x03) << 4 | b1 >> 4) < 64 && ((b1 & 0x0f) << 2 | b2 >> 6)
            < 64 && b2 & 0x3f < 64) by (bit_vector);
        assert(forall|i: int|
            4 <= i < encode_spec(b).len() ==> #[trigger] encode_spec(b)[i] == encode_spec(
                b.skip(3),
            )[i - 4]);
    } else if b.len() == 2 {
        let b0 = b[0];
        let b1 = b[1];
        assert(b0 >> 2 < 64 && ((b0 & 0x03) << 4 | b1 >> 4) < 64 && (b1 & 0x0f) << 2
            < 64) by (bit_vector);
    } else if b.len() == 1 {
        let b0 = b[0];
        assert(b0 >> 2 < 64 && (b0 & 0x03) << 4 < 64) by (bit_vector);
    }
}

/// Decoding inverts encoding: every byte string comes back from its encoding.
#[verifier::rlimit(60)]
pub proof fn lemma_encode_decode(b: Seq<u8>)
    ensures
        decode_spec(encode_spec(b)) == Some(b),
    decreases b.len(),
{
    let e = encode_spec(b);
    if b.len() == 0 {
        assert(data_part(e) =~= e);
        assert(vals_of(e) =~= Seq::<u8>::empty());
        assert(decode_raw(vals_of(data_part(e))) =~= b);
    } else if b.len() == 1 {
        let b0 = b[0];
        let v0 = b0 >> 2;
        let v1 = (b0 & 0x03) << 4;
        assert(b0 >> 2 < 64 && (b0 & 0x03) << 4 < 64 && ((b0 & 0x03) << 4) & 0x0f == 0 && ((b0 >> 2)
            << 2 | ((b0 & 0x03) << 4) >> 4) == b0) by (bit_vector);
        lemma_digit_roundtrip(v0);
        lemma_digit_roundtrip(v1);
        let d = data_part(e);
        assert(pad_len(e) == 2);
        assert(d =~= seq![b64_char(v0), b64_char(v1)]);
        assert(vals_of(d) =~= seq![v0, v1]);
        assert(decode_ok(e));
        assert(decode_raw(vals_of(d)) =~= b);
    } else if b.len() == 2 {
        let b0 = b[0];
        let b1 = b[1];
        let v0 = b0 >> 2;
        let v1 = (b0 & 0x03) << 4 | b1 >> 4;
        let v2 = (b1 & 0x0f) << 2;
        assert(b0 >> 2 < 64 && ((b0 & 0x03) << 4 | b1 >> 4) < 64 && (b1 & 0x0f) << 2 < 64 && ((b1
            & 0x0f) << 2) & 0x03 == 0 && ((b0 >> 2) << 2 | ((b0 & 0x03) << 4 | b1 >> 4) >> 4) == b0
            && (((b0 & 0x03) << 4 | b1 >> 4) << 4 | ((b1 & 0x0f) << 2) >> 2) == b1) by (bit_vector);
        lemma_digit_roundtrip(v0);
        lemma_digit_roundtrip(v1);
        lemma_digit_roundtrip(v2);
        let d = data_part(e);
        assert(pad_len(e) == 1);
        assert(d =~= seq![b64_char(v0), b64_char(v1), b64_char(v2)]);
        assert(vals_of(d) =~= seq![v0, v1, v2]);
        assert(decode_ok(e));
        assert(decode_raw(vals_of(d)) =~= b);
    } else {
        let b0 = b[0];
        let b1 = b[1];
        let b2 = b[2];
        let v0 = b0 >> 2;
        let v1 = (b0 & 0x03) << 4 | b1 >> 4;
        let v2 = (b1 & 0x0f) << 2 | b2 >> 6;
        let v3 = b2 & 0x3f;
        assert(b0 >> 2 < 64 && ((b0 & 0x03) << 4 | b1 >> 4) < 64 && ((b1 & 0x0f) << 2 | b2 >> 6)
            < 64 && b2 & 0x3f < 64 && ((b0 >> 2) << 2 | ((b0 & 0x03) << 4 | b1 >> 4) >> 4) == b0 && (
        ((b0 & 0x03) << 4 | b1 >> 4) << 4 | ((b1 & 0x0f) << 2 | b2 >> 6) >> 2) == b1 && (((b1
            & 0x0f) << 2 | b2 >> 6) << 6 | (b2 & 0x3f)) == b2) by (bit_vector);
        lemma_digit_roundtrip(v0);
        lemma_digit_roundtrip(v1);
        lemma_digit_roundtrip(v2);
        lemma_digit_roundtrip(v3);
        lemma_encode_decode(b.skip(3));
        lemma_encode_len(b.skip(3));
        let rest = encode_spec(b.skip(3));
        let drest = data_part(rest);
        assert(e == enc3(b0, b1, b2) + rest);
        assert(forall|k: int| 0 <= k < rest.len() ==> #[trigger] e[4 + k] == rest[k]);
        if rest.len() == 0 {
            assert(b.len() == 3);
            assert(e =~= enc3(b0, b1, b2));
            assert(pad_len(e) == 0);
            let d = data_part(e);
            assert(d =~= seq![b64_char(v0), b64_char(v1), b64_char(v2), b64_char(v3)]);
            assert(vals_of(d) =~= seq![v0, v1, v2, v3]);
            assert(decode_ok(e));
            assert(vals_of(d).skip(4) =~= Seq::<u8>::empty());
            assert(decode_raw(Seq::<u8>::empty()) =~= Seq::<u8>::empty());
            assert(decode_raw(vals_of(d)) == dec4(vals_of(d)[0], vals_of(d)[1], vals_of(d)[2],
                vals_of(d)[3]) + decode_raw(vals_of(d).skip(4)));
            assert(decode_raw(vals_of(d)) =~= dec4(v0, v1, v2, v3));
            assert(dec4(v0, v1, v2, v3) =~= b);
        } else {
            assert(rest.len() >= 4);
            assert(e.len() == 4 + rest.len());
            assert(e[e.len() - 1] == rest[rest.len() - 1]);
            assert(e[e.len() - 2] == rest[rest.len() - 2]);
            assert(pad_len(e) == pad_len(rest));
            let d = data_part(e);
            assert(d =~= enc3(b0, b1, b2) + drest);
            assert(forall|k: int| 0 <= k < drest.len() ==> #[trigger] d[4 + k] == drest[k]);
            assert(decode_ok(rest));
            assert(d.len() == 4 + drest.len());
            assert(forall|i: int| 0 <= i < d.len() ==> is_b64_digit(#[trigger] d[i]));
            assert(d.len() % 4 == drest.len() % 4);
            assert(decode_ok(e));
            let vs = vals_of(d);
            assert(vs =~= seq![v0, v1, v2, v3] + vals_of(drest));
            assert(vs.skip(4) =~= vals_of(drest));
            assert(decode_raw(vs) == dec4(v0, v1, v2, v3) + decode_raw(vals_of(drest)));
            assert(decode_raw(vals_of(drest)) == b.skip(3));
            assert(dec4(v0, v1, v2, v3) =~= seq![b0, b1, b2]);
            assert(seq![b0, b1, b2] + b.skip(3) =~= b);
        }
    }
}

} // verus!
