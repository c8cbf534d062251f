//! Byte-level encodings: Base64 data URIs, percent-escapes and UTF-8 decoding.
use vstd::prelude::*;
use vstd::utf8::{
    decode_utf8, encode_scalar, encode_utf8, has_width_1_encoding, last_continuation_byte,
    leading_byte_width_1, leading_byte_width_2, leading_byte_width_3, leading_byte_width_4,
    second_last_continuation_byte, third_last_continuation_byte, valid_utf8,
};
use vstd::string::StringSliceAdditionalSpecFns;
use base64::Engine;
use crate::text::{chars_of, push_chars, push_str};

verus! {

/// The character of the standard Base64 alphabet for a six-bit value.
pub open spec fn base64_digit(v: int) -> char {
    if v < 26 {
        ('A' as int + v) as char
    } else if v < 52 {
        ('a' as int + (v - 26)) as char
    } else if v < 62 {
        ('0' as int + (v - 52)) as char
    } else if v == 62 {
        '+'
    } else {
        '/'
    }
}

/// Standard Base64 with `=` padding: every three bytes become four digits,
/// and a last group of one or two bytes is padded to four characters.
pub open spec fn base64_spec(b: Seq<u8>) -> Seq<char>
    decreases b.len(),
{
    if b.len() == 0 {
        Seq::empty()
    } else if b.len() == 1 {
        seq![base64_digit(b[0] as int / 4), base64_digit((b[0] as int % 4) * 16), '=', '=']
    } else if b.len() == 2 {
        seq![
            base64_digit(b[0] as int / 4),
            base64_digit((b[0] as int % 4) * 16 + b[1] as int / 16),
            base64_digit((b[1] as int % 16) * 4),
            '=',
        ]
    } else {
        seq![
            base64_digit(b[0] as int / 4),
            base64_digit((b[0] as int % 4) * 16 + b[1] as int / 16),
            base64_digit((b[1] as int % 16) * 4 + b[2] as int / 64),
            base64_digit(b[2] as int % 64),
        ] + base64_spec(b.skip(3))
    }
}

/// Encodes bytes with the `base64` crate's standard engine
/// (`general_purpose::STANDARD.encode`), which the crate documents as the
/// RFC 4648 alphabet with padding: the contract states that encoding.
#[verifier::external_body]
fn base64_standard_encode(bytes: &[u8]) -> (r: String)
    ensures
        r@ == base64_spec(bytes@),
{
    base64::engine::general_purpose::STANDARD.encode(bytes)
}

/// `data:<mime>;base64,<digits>`.
pub open spec fn data_uri_spec(mime: Seq<char>, bytes: Seq<u8>) -> Seq<char> {
    seq!['d', 'a', 't', 'a', ':'] + mime + seq![';', 'b', 'a', 's', 'e', '6', '4', ','] + base64_spec(bytes)
}

/// The data URI that embeds `bytes` with the given media type.
pub fn data_uri(mime: &[char], bytes: &[u8]) -> (r: Vec<char>)
    ensures
        r@ == data_uri_spec(mime@, bytes@),
{
    let mut r: Vec<char> = Vec::new();
    proof {
        reveal_strlit("data:");
        reveal_strlit(";base64,");
    }
    push_str(&mut r, "data:");
    push_chars(&mut r, mime);
    push_str(&mut r, ";base64,");
    let digits = base64_standard_encode(bytes);
    let dc = chars_of(digits.as_str());
    push_chars(&mut r, &dc);
    assert(r@ =~= data_uri_spec(mime@, bytes@));
    r
}

/// The value of an ASCII hexadecimal digit.
pub open spec fn hex_value_spec(b: u8) -> Option<u8> {
    if 48 <= b <= 57 {
        Some((b - 48) as u8)
    } else if 97 <= b <= 102 {
        Some((b - 97 + 10) as u8)
    } else if 65 <= b <= 70 {
        Some((b - 65 + 10) as u8)
    } else {
        None
    }
}

pub fn hex_value(byte: u8) -> (r: Option<u8>)
    ensures
        r == hex_value_spec(byte),
{
    if 48 <= byte && byte <= 57 {
        Some(byte - 48)
    } else if 97 <= byte && byte <= 102 {
        Some(byte - 97 + 10)
    } else if 65 <= byte && byte <= 70 {
        Some(byte - 65 + 10)
    } else {
        None
    }
}

/// Bytes with every `%` followed by two hexadecimal digits replaced by the
/// byte those digits spell; every other byte is kept.
pub open spec fn percent_decode_bytes(b: Seq<u8>) -> Seq<u8>
    decreases b.len(),
{
    if b.len() == 0 {
        Seq::empty()
    } else if b[0] == 37 && b.len() > 2 && hex_value_spec(b[1]) is Some && hex_value_spec(
        b[2],
    ) is Some {
        seq![
            (hex_value_spec(b[1])->0 * 16 + hex_value_spec(b[2])->0) as u8,
        ] + percent_decode_bytes(b.skip(3))
    } else {
        seq![b[0]] + percent_decode_bytes(b.skip(1))
    }
}

/// The name of what `String::from_utf8_lossy` gives back for bytes that are
/// not valid UTF-8 (each invalid sequence becomes U+FFFD).
pub uninterp spec fn utf8_lossy(bytes: Seq<u8>) -> Seq<char>;

/// Decodes bytes with `String::from_utf8_lossy`. Its documentation promises
/// that valid UTF-8 comes back as the text it encodes; for other input the
/// result is named by `utf8_lossy`.
#[verifier::external_body]
pub(crate) fn from_utf8_lossy(bytes: &[u8]) -> (r: String)
    ensures
        r@ == utf8_lossy(bytes@),
        valid_utf8(bytes@) ==> r@ == decode_utf8(bytes@),
{
    String::from_utf8_lossy(bytes).to_string()
}

proof fn lemma_percent_decode_step(b: Seq<u8>, i: int)
    requires
        0 <= i < b.len(),
    ensures
        b.skip(i).skip(1) == b.skip(i + 1),
        i + 3 <= b.len() ==> b.skip(i).skip(3) == b.skip(i + 3),
        b.skip(i)[0] == b[i],
        i + 2 < b.len() ==> b.skip(i)[1] == b[i + 1] && b.skip(i)[2] == b[i + 2],
{
    assert(b.skip(i).skip(1) =~= b.skip(i + 1));
    if i + 3 <= b.len() {
        assert(b.skip(i).skip(3) =~= b.skip(i + 3));
    }
}

/// No byte of the UTF-8 encoding of a scalar other than `%` is `%`.
proof fn lemma_scalar_no_percent(c: u32)
    requires
        c != 37,
    ensures
        forall|i: int| 0 <= i < encode_scalar(c).len() ==> encode_scalar(c)[i] != 37,
{
    assert(has_width_1_encoding(c) ==> leading_byte_width_1(c) != 37) by (bit_vector)
        requires c != 37;
    assert(leading_byte_width_2(c) != 37) by (bit_vector);
    assert(leading_byte_width_3(c) != 37) by (bit_vector);
    assert(leading_byte_width_4(c) != 37) by (bit_vector);
    assert(last_continuation_byte(c) != 37) by (bit_vector);
    assert(second_last_continuation_byte(c) != 37) by (bit_vector);
    assert(third_last_continuation_byte(c) != 37) by (bit_vector);
}

proof fn lemma_encode_no_percent(s: Seq<char>)
    requires
        forall|i: int| 0 <= i < s.len() ==> s[i] != '%',
    ensures
        forall|i: int| 0 <= i < encode_utf8(s).len() ==> encode_utf8(s)[i] != 37,
    decreases s.len(),
{
    if s.len() > 0 {
        assert(s[0] != '%');
        let u = s[0] as u32;
        vstd::utf8::char_u32_cast(s[0], u);
        assert(u != 37) by {
            if u == 37 {
                assert((37u32 as char) == '%');
            }
        }
        lemma_scalar_no_percent(u);
        lemma_encode_no_percent(s.drop_first());
        let head = encode_scalar(s[0] as u32);
        let tail = encode_utf8(s.drop_first());
        assert(encode_utf8(s) == head + tail);
        assert forall|i: int| 0 <= i < encode_utf8(s).len() implies encode_utf8(s)[i] != 37 by {
            if i < head.len() {
                assert(encode_utf8(s)[i] == head[i]);
            } else {
                assert(encode_utf8(s)[i] == tail[i - head.len()]);
            }
        }
    }
}

proof fn lemma_percent_decode_bytes_plain(b: Seq<u8>)
    requires
        forall|i: int| 0 <= i < b.len() ==> b[i] != 37,
    ensures
        percent_decode_bytes(b) == b,
    decreases b.len(),
{
    if b.len() > 0 {
        assert(b[0] != 37);
        lemma_percent_decode_bytes_plain(b.skip(1));
        assert(seq![b[0]] + b.skip(1) =~= b);
    }
}

/// Text without a `%` comes out of percent-decoding unchanged: its bytes
/// decode to it again.
pub proof fn lemma_unescaped_text_unchanged(s: Seq<char>)
    requires
        forall|i: int| 0 <= i < s.len() ==> s[i] != '%',
    ensures
        valid_utf8(percent_decode_bytes(encode_utf8(s))),
        decode_utf8(percent_decode_bytes(encode_utf8(s))) == s,
{
    lemma_encode_no_percent(s);
    lemma_percent_decode_bytes_plain(encode_utf8(s));
    vstd::utf8::encode_utf8_valid_utf8(s);
    vstd::utf8::encode_utf8_decode_utf8(s);
}

/// Decodes `%XX` escapes in the UTF-8 bytes of `input`, then reads the result
/// back as UTF-8, replacing invalid sequences.
pub fn percent_decode(input: &str) -> (r: String)
    ensures
        r@ == utf8_lossy(percent_decode_bytes(input.spec_bytes())),
        valid_utf8(percent_decode_bytes(input.spec_bytes())) ==> r@ == decode_utf8(
            percent_decode_bytes(input.spec_bytes()),
        ),
{
    let bytes = input.as_bytes();
    let mut decoded: Vec<u8> = Vec::new();
    let mut index: usize = 0;
    assert(bytes@.skip(0) == bytes@);
    while index < bytes.len()
        invariant
            index <= bytes@.len(),
            decoded@ + percent_decode_bytes(bytes@.skip(index as int)) == percent_decode_bytes(
                bytes@,
            ),
        decreases bytes@.len() - index,
    {
        proof {
            lemma_percent_decode_step(bytes@, index as int);
        }
        if bytes[index] == 37 && bytes.len() > 2 && index < bytes.len() - 2 {
            let high = hex_value(bytes[index + 1]);
            let low = hex_value(bytes[index + 2]);
            if high.is_some() && low.is_some() {
                let h = high.unwrap();
                let l = low.unwrap();
                decoded.push(h * 16 + l);
                index = index + 3;
                if index == bytes.len() {
                    assert(bytes@.skip(index as int) =~= Seq::<u8>::empty());
                }
                continue;
            }
        }
        decoded.push(bytes[index]);
        index = index + 1;
    }
    assert(bytes@.skip(index as int) =~= Seq::<u8>::empty());
    from_utf8_lossy(decoded.as_slice())
}

} // verus!
