//! Percent-encoding of the texts in a contract call request.

use percent_encoding::percent_decode;
use vstd::prelude::*;
use vstd::utf8::{decode_utf8, encode_utf8, valid_utf8};

verus! {

/// Upper-case hexadecimal digit.
pub open spec fn hex_digit(n: int) -> char {
    if n < 10 {
        (48 + n) as char
    } else {
        (55 + n) as char
    }
}

/// Value of a hexadecimal digit in either case.
pub open spec fn hex_value(b: u8) -> Option<u8> {
    if 48 <= b <= 57 {
        Some((b - 48) as u8)
    } else if 65 <= b <= 70 {
        Some((b - 55) as u8)
    } else if 97 <= b <= 102 {
        Some((b - 87) as u8)
    } else {
        None
    }
}

/// A byte as a percent sign and two hexadecimal digits.
pub open spec fn escape(b: u8) -> Seq<char> {
    seq!['%', hex_digit(b as int / 16), hex_digit(b as int % 16)]
}

/// The bytes which do not stand for themselves in a request: those outside of ASCII, the control
/// characters, the space and the characters `"`, `#`, `<`, `>`, `[`, `]`, `&`, `=`.
pub open spec fn is_escaped(b: u8) -> bool {
    ||| b >= 127
    ||| b <= 32
    ||| b == 34
    ||| b == 35
    ||| b == 60
    ||| b == 62
    ||| b == 91
    ||| b == 93
    ||| b == 38
    ||| b == 61
}

/// What a byte is written as.
pub open spec fn encoded_byte(b: u8) -> Seq<char> {
    if is_escaped(b) {
        escape(b)
    } else {
        seq![b as char]
    }
}

/// What a sequence of bytes is written as.
pub open spec fn encoded_bytes(bytes: Seq<u8>) -> Seq<char>
    decreases bytes.len(),
{
    if bytes.len() == 0 {
        Seq::empty()
    } else {
        encoded_byte(bytes[0]) + encoded_bytes(bytes.skip(1))
    }
}

/// What a text is written as.
pub open spec fn encoded_text(text: Seq<char>) -> Seq<char> {
    encoded_bytes(encode_utf8(text))
}

/// The bytes behind a percent-encoding: each percent sign with two hexadecimal digits stands for
/// one byte, anything else for itself.
pub open spec fn decoded_bytes(bytes: Seq<u8>) -> Seq<u8>
    decreases bytes.len(),
{
    if bytes.len() == 0 {
        Seq::empty()
    } else if bytes[0] == 37 && bytes.len() >= 3 && hex_value(bytes[1]) is Some && hex_value(
        bytes[2],
    ) is Some {
        seq![(hex_value(bytes[1])->0 * 16 + hex_value(bytes[2])->0) as u8] + decoded_bytes(
            bytes.skip(3),
        )
    } else {
        seq![bytes[0]] + decoded_bytes(bytes.skip(1))
    }
}

/// The text that `String::from_utf8_lossy` makes of bytes which are not all UTF-8.
pub uninterp spec fn lossy_text(bytes: Seq<u8>) -> Seq<char>;

/// The text behind a percent-encoding; what is not UTF-8 is replaced.
pub open spec fn decoded_text(text: Seq<char>) -> Seq<char> {
    let bytes = decoded_bytes(encode_utf8(text));
    if valid_utf8(bytes) {
        decode_utf8(bytes)
    } else {
        lossy_text(bytes)
    }
}

/// `percent_encoding::percent_encode_byte`: the byte as a percent sign and two upper-case
/// hexadecimal digits.
#[verifier::external_body]
fn percent_encode_byte(byte: u8) -> (r: &'static str)
    ensures
        r@ == escape(byte),
{
    percent_encoding::percent_encode_byte(byte)
}

/// `percent_encoding::percent_decode` with `decode_utf8_lossy`: every percent sign followed by two
/// hexadecimal digits is decoded to a byte; the bytes are taken as UTF-8, and where they are not,
/// parts of them are replaced (which ones is left to the standard library).
#[verifier::external_body]
pub(crate) fn percent_decode_text(encoded: &str) -> (r: String)
    ensures
        valid_utf8(decoded_bytes(encode_utf8(encoded@))) ==> r@ == decode_utf8(
            decoded_bytes(encode_utf8(encoded@)),
        ),
        !valid_utf8(decoded_bytes(encode_utf8(encoded@))) ==> r@ == lossy_text(
            decoded_bytes(encode_utf8(encoded@)),
        ),
{
    percent_decode(encoded.as_bytes()).decode_utf8_lossy().into_owned()
}

/// Percent-encodes a text.
pub fn percent_encode_text(text: &str) -> (r: String)
    ensures
        r@ == encoded_text(text@),
{
    let bytes = text.as_bytes();
    let mut encoded = String::new();
    let mut i: usize = 0;
    assert(bytes@.skip(0) =~= bytes@);
    assert(encoded@ + encoded_bytes(bytes@) =~= encoded_bytes(bytes@));
    while i < bytes.len()
        invariant
            i <= bytes@.len(),
            bytes@ == encode_utf8(text@),
            encoded@ + encoded_bytes(bytes@.skip(i as int)) == encoded_bytes(bytes@),
        decreases bytes@.len() - i,
    {
        let b = bytes[i];
        let ghost before = encoded@;
        if b >= 127 || b <= 32 || b == 34 || b == 35 || b == 60 || b == 62 || b == 91 || b == 93 || b
            == 38 || b == 61 {
            encoded.append(percent_encode_byte(b));
        } else {
            encoded.push(b as char);
        }
        proof {
            let rest = bytes@.skip(i as int);
            assert(rest.skip(1) =~= bytes@.skip(i + 1));
            assert(encoded@ =~= before + encoded_byte(b));
            assert(encoded@ + encoded_bytes(rest.skip(1)) =~= before + encoded_bytes(rest));
        }
        i = i + 1;
    }
    assert(encoded@ + Seq::<char>::empty() =~= encoded@);
    encoded
}

/// An ASCII text as bytes.
pub open spec fn ascii_bytes(text: Seq<char>) -> Seq<u8> {
    text.map_values(|c: char| c as u8)
}

/// The digits of an escape stand for the byte.
proof fn lemma_escape_digits(b: u8)
    ensures
        ascii_bytes(escape(b)).len() == 3,
        ascii_bytes(escape(b))[0] == 37,
        hex_value(ascii_bytes(escape(b))[1]) == Some((b / 16) as u8),
        hex_value(ascii_bytes(escape(b))[2]) == Some((b % 16) as u8),
        (b / 16) * 16 + (b % 16) == b,
{
    let bytes = ascii_bytes(escape(b));
    let high = b as int / 16;
    let low = b as int % 16;
    assert(bytes[1] == hex_digit(high) as u8);
    assert(bytes[2] == hex_digit(low) as u8);
}

/// An encoding is all ASCII.
proof fn lemma_encoding_is_ascii(bytes: Seq<u8>)
    ensures
        vstd::utf8::is_ascii_chars(encoded_bytes(bytes)),
    decreases bytes.len(),
{
    if bytes.len() > 0 {
        lemma_encoding_is_ascii(bytes.skip(1));
        let b = bytes[0];
        let head = encoded_byte(b);
        let rest = encoded_bytes(bytes.skip(1));
        assert(vstd::utf8::is_ascii_chars(head)) by {
            assert forall|i: int| 0 <= i < head.len() implies '\0' <= #[trigger] head[i] <= '\u{7f}' by {
                if is_escaped(b) {
                    assert(head[i] == '%' || head[i] == hex_digit(b as int / 16) || head[i] == hex_digit(
                        b as int % 16,
                    ));
                }
            }
        }
        vstd::utf8::is_ascii_chars_concat(head + rest, head, rest);
    }
}

/// Decoding undoes encoding on bytes, where none of them is a percent sign.
proof fn lemma_decoding_undoes_encoding(bytes: Seq<u8>)
    requires
        !bytes.contains(37u8),
    ensures
        decoded_bytes(ascii_bytes(encoded_bytes(bytes))) == bytes,
    decreases bytes.len(),
{
    if bytes.len() > 0 {
        let b = bytes[0];
        let rest = bytes.skip(1);
        assert(!rest.contains(37u8)) by {
            if rest.contains(37u8) {
                let i = choose|i: int| 0 <= i < rest.len() && rest[i] == 37u8;
                assert(bytes[i + 1] == 37u8);
            }
        }
        lemma_decoding_undoes_encoding(rest);
        let head = ascii_bytes(encoded_byte(b));
        let tail = ascii_bytes(encoded_bytes(rest));
        assert(ascii_bytes(encoded_bytes(bytes)) =~= head + tail);
        if is_escaped(b) {
            lemma_escape_digits(b);
            assert((head + tail)[0] == head[0]);
            assert((head + tail)[1] == head[1]);
            assert((head + tail)[2] == head[2]);
            assert((head + tail).skip(3) =~= tail);
            assert(decoded_bytes(head + tail) =~= seq![b] + decoded_bytes(tail));
        } else {
            assert(bytes.contains(b));
            assert((head + tail)[0] == b);
            assert((head + tail).skip(1) =~= tail);
        }
        assert(seq![b] + rest =~= bytes);
    } else {
        assert(ascii_bytes(encoded_bytes(bytes)) =~= Seq::<u8>::empty());
    }
}

/// A UTF-8 text without a percent sign has no byte which is one.
proof fn lemma_no_percent_byte(text: Seq<char>)
    requires
        !text.contains('%'),
    ensures
        !encode_utf8(text).contains(37u8),
    decreases text.len(),
{
    if text.len() > 0 {
        let rest = text.drop_first();
        assert(!rest.contains('%')) by {
            if rest.contains('%') {
                let i = choose|i: int| 0 <= i < rest.len() && rest[i] == '%';
                assert(text[i + 1] == '%');
            }
        }
        lemma_no_percent_byte(rest);
        assert(text.contains(text[0]));
        let head = vstd::utf8::encode_scalar(text[0] as u32);
        lemma_char_bytes(text[0]);
        let all = head + encode_utf8(rest);
        assert(encode_utf8(text) == all);
        if all.contains(37u8) {
            let i = choose|i: int| 0 <= i < all.len() && all[i] == 37u8;
            if i < head.len() {
                assert(head[i] == 37u8);
            } else {
                assert(encode_utf8(rest)[i - head.len()] == 37u8);
            }
        }
    }
}

/// No character but the percent sign itself is encoded with the byte of the percent sign.
proof fn lemma_char_bytes(c: char)
    requires
        c != '%',
    ensures
        !vstd::utf8::encode_scalar(c as u32).contains(37u8),
{
    let scalar = c as u32;
    assert(scalar != 37);
    let bytes = vstd::utf8::encode_scalar(scalar);
    if vstd::utf8::has_width_1_encoding(scalar) {
        assert(0 <= scalar <= 0x7F && scalar != 37 ==> (scalar & 0x7F) as u8 != 37u8) by (bit_vector);
    } else {
        assert((0x80u8 | ((scalar & 0x3F) as u8)) >= 0x80) by (bit_vector);
        assert((0x80u8 | (((scalar >> 6) & 0x3F) as u8)) >= 0x80) by (bit_vector);
        assert((0x80u8 | (((scalar >> 12) & 0x3F) as u8)) >= 0x80) by (bit_vector);
        assert((0xC0u8 | (((scalar >> 6) & 0x1F) as u8)) >= 0x80) by (bit_vector);
        assert((0xE0u8 | (((scalar >> 12) & 0x0F) as u8)) >= 0x80) by (bit_vector);
        assert((0xF0u8 | (((scalar >> 18) & 0x07) as u8)) >= 0x80) by (bit_vector);
    }
}

/// Decoding an encoded text gives the text back, where it holds no percent sign. (A percent sign
/// is not escaped, and may be taken for the start of an escape.)
pub proof fn law_decoding_undoes_encoding(text: Seq<char>)
    requires
        !text.contains('%'),
    ensures
        decoded_text(encoded_text(text)) == text,
{
    let bytes = encode_utf8(text);
    let encoded = encoded_bytes(bytes);
    lemma_encoding_is_ascii(bytes);
    vstd::utf8::is_ascii_chars_encode_utf8(encoded);
    assert(encode_utf8(encoded) =~= ascii_bytes(encoded));
    lemma_no_percent_byte(text);
    lemma_decoding_undoes_encoding(bytes);
    vstd::utf8::encode_utf8_valid_utf8(text);
    vstd::utf8::encode_utf8_decode_utf8(text);
}

/// A character which stands for itself in a request.
pub open spec fn stands_for_itself(c: char) -> bool {
    (c as u32) < 128 && !is_escaped(c as u8)
}

/// The encoding of a sequence of bytes is made of the encodings of its parts.
proof fn lemma_encoded_bytes_concat(one: Seq<u8>, other: Seq<u8>)
    ensures
        encoded_bytes(one + other) == encoded_bytes(one) + encoded_bytes(other),
    decreases one.len(),
{
    if one.len() == 0 {
        assert(one + other =~= other);
        assert(encoded_bytes(one) + encoded_bytes(other) =~= encoded_bytes(other));
    } else {
        lemma_encoded_bytes_concat(one.skip(1), other);
        assert((one + other).skip(1) =~= one.skip(1) + other);
        assert(encoded_bytes(one + other) =~= encoded_bytes(one) + encoded_bytes(other));
    }
}

/// The UTF-8 bytes of a text are made of those of its parts.
proof fn lemma_utf8_concat(one: Seq<char>, other: Seq<char>)
    ensures
        encode_utf8(one + other) == encode_utf8(one) + encode_utf8(other),
    decreases one.len(),
{
    if one.len() == 0 {
        assert(one + other =~= other);
        assert(encode_utf8(one) + encode_utf8(other) =~= encode_utf8(other));
    } else {
        lemma_utf8_concat(one.drop_first(), other);
        assert((one + other).drop_first() =~= one.drop_first() + other);
        assert(encode_utf8(one + other) =~= encode_utf8(one) + encode_utf8(other));
    }
}

/// The encoding of a text is made of the encodings of its parts.
pub proof fn lemma_encoded_concat(one: Seq<char>, other: Seq<char>)
    ensures
        encoded_text(one + other) == encoded_text(one) + encoded_text(other),
{
    lemma_utf8_concat(one, other);
    lemma_encoded_bytes_concat(encode_utf8(one), encode_utf8(other));
}

/// A text of characters which stand for themselves is not changed by the encoding.
pub proof fn lemma_plain_text(text: Seq<char>)
    requires
        forall|i: int| 0 <= i < text.len() ==> stands_for_itself(#[trigger] text[i]),
    ensures
        encoded_text(text) == text,
{
    assert(vstd::utf8::is_ascii_chars(text)) by {
        assert forall|i: int| 0 <= i < text.len() implies '\0' <= #[trigger] text[i] <= '\u{7f}' by {
            assert(stands_for_itself(text[i]));
            lemma_char_back(text[i]);
        }
    }
    vstd::utf8::is_ascii_chars_encode_utf8(text);
    let bytes = encode_utf8(text);
    assert(bytes =~= ascii_bytes(text));
    lemma_plain_bytes(bytes, text);
}

/// Bytes which stand for themselves are written as they are.
proof fn lemma_plain_bytes(bytes: Seq<u8>, text: Seq<char>)
    requires
        bytes == ascii_bytes(text),
        forall|i: int| 0 <= i < text.len() ==> stands_for_itself(#[trigger] text[i]),
    ensures
        encoded_bytes(bytes) == text,
    decreases bytes.len(),
{
    if bytes.len() > 0 {
        let rest = text.skip(1);
        assert(bytes.skip(1) =~= ascii_bytes(rest));
        assert forall|i: int| 0 <= i < rest.len() implies stands_for_itself(#[trigger] rest[i]) by {
            assert(stands_for_itself(text[i + 1]));
        }
        lemma_plain_bytes(bytes.skip(1), rest);
        assert(stands_for_itself(text[0]));
        lemma_char_back(text[0]);
        assert(bytes[0] == text[0] as u8);
        assert(encoded_bytes(bytes) =~= seq![text[0]] + rest);
        assert(seq![text[0]] + rest =~= text);
    } else {
        assert(encoded_bytes(bytes) =~= text);
    }
}

/// An ASCII character is that of its byte.
proof fn lemma_char_back(c: char)
    requires
        (c as u32) < 128,
    ensures
        (c as u8) as char == c,
        '\0' <= c <= '\u{7f}',
{
}

/// Neither an ampersand nor an equality sign stands in an encoded text.
pub proof fn lemma_encoded_separators(text: Seq<char>)
    ensures
        forall|i: int| 0 <= i < encoded_text(text).len() ==> (#[trigger] encoded_text(text)[i]) != '&'
            && encoded_text(text)[i] != '=',
{
    lemma_encoded_bytes_separators(encode_utf8(text));
}

/// Neither an ampersand nor an equality sign stands in an encoding.
proof fn lemma_encoded_bytes_separators(bytes: Seq<u8>)
    ensures
        forall|i: int| 0 <= i < encoded_bytes(bytes).len() ==> (#[trigger] encoded_bytes(bytes)[i]) != '&'
            && encoded_bytes(bytes)[i] != '=',
    decreases bytes.len(),
{
    if bytes.len() > 0 {
        lemma_encoded_bytes_separators(bytes.skip(1));
        let b = bytes[0];
        let head = encoded_byte(b);
        let rest = encoded_bytes(bytes.skip(1));
        assert forall|i: int| 0 <= i < head.len() implies (#[trigger] head[i]) != '&' && head[i] != '=' by {
            if is_escaped(b) {
                assert(head[i] == '%' || head[i] == hex_digit(b as int / 16) || head[i] == hex_digit(
                    b as int % 16,
                ));
            }
        }
        assert forall|i: int| 0 <= i < (head + rest).len() implies (#[trigger] (head + rest)[i]) != '&'
            && (head + rest)[i] != '=' by {
            if i >= head.len() {
                assert((head + rest)[i] == rest[i - head.len()]);
            }
        }
    }
}

} // verus!
