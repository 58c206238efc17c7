//! URIs of the contract call requests: which of them are well-formed and read back.

use crate::percent::{
    encoded_bytes, encoded_text, escape, hex_digit, is_escaped, lemma_encoded_concat,
    lemma_plain_text, stands_for_itself,
};
use crate::text::{decimal, is_digit, lemma_decimal};
use crate::uri::{
    endpoint_texts, joined, pair_text, pair_texts, parsed, Fault, RequestView, UriText, MAX_LOCK,
};
use crate::uri_bridge::{
    is_baid64, is_baid64_char, is_component, is_hex_digit, is_name_char, is_path_char, is_plain_uri,
    is_time_text, lock_reading, lock_text, number_value, plain_uri, time_reading, time_text,
    value_text, Timestamp,
};
use crate::uri_laws::{
    has_number_text, has_readable_endpoints, has_readable_ids, has_readable_pairs, has_readable_query,
    has_valid_names, law_request_reads_back, uri_parts,
};
use baid64::base64::DecodeError as LockError;
use chrono::ParseError as TimeError;
use strict_types::StrictVal;
use vstd::prelude::*;
use vstd::utf8::encode_utf8;

verus! {

/// A text of characters which stand for themselves in the path of a URI.
pub open spec fn is_path_text(text: Seq<char>) -> bool {
    forall|i: int| 0 <= i < text.len() ==> is_path_char(#[trigger] text[i])
}

/// A character which has its place in a query once it is percent-encoded.
pub open spec fn is_query_char(c: char) -> bool {
    c != '%' && c != '\\' && c != '^' && c != '`' && c != '{' && c != '|' && c != '}'
}

/// A text of characters which have their place in a query once they are percent-encoded.
pub open spec fn is_query_text(text: Seq<char>) -> bool {
    forall|i: int| 0 <= i < text.len() ==> is_query_char(#[trigger] text[i])
}

/// The identifiers, the endpoints and the other parameters consist of characters which have their
/// place in a URI.
pub open spec fn has_uri_texts<T: UriText, A: UriText, L: UriText>(
    request: RequestView<T, A, L>,
) -> bool {
    &&& is_path_text(request.layer1.text())
    &&& is_path_text(request.scope.bare_text())
    &&& is_path_text(request.auth.text())
    &&& has_query_texts(request)
}

/// The endpoints and the other parameters consist of characters which have their place in a query.
pub open spec fn has_query_texts<T, A, L>(request: RequestView<T, A, L>) -> bool {
    &&& forall|i: int|
        0 <= i < request.endpoints.len() ==> is_query_text((#[trigger] request.endpoints[i]).1)
    &&& forall|i: int|
        0 <= i < request.unknown_query.len() ==> is_query_text(
            (#[trigger] request.unknown_query[i]).0,
        ) && is_query_text(request.unknown_query[i].1)
}

/// The request can be read back from its URI: the names are valid, the identifiers are read back,
/// the call data are absent or a number, the query holds parameters of no more than one sort, and
/// everything consists of characters which have their place in a URI.
pub open spec fn is_readable<T: UriText, A: UriText, L: UriText>(
    request: RequestView<T, A, L>,
) -> bool {
    &&& has_valid_names(request)
    &&& has_readable_ids(request)
    &&& request.data matches Some(data) ==> has_number_text(data)
    &&& has_readable_query(request)
    &&& has_uri_texts(request)
}

/// A text of path characters without separators.
pub open spec fn is_segment_text(text: Seq<char>) -> bool {
    forall|i: int|
        0 <= i < text.len() ==> is_path_char(#[trigger] text[i]) && text[i] != '/' && text[i] != '@'
}

/// The texts of the identifiers are read back, and have their place in segments of a path.
pub open spec fn has_segment_ids<T: UriText, A: UriText, L: UriText>(
    request: RequestView<T, A, L>,
) -> bool {
    &&& L::reading(request.layer1.text()) == Ok::<L, L::Err>(request.layer1)
    &&& is_segment_text(request.layer1.text())
    &&& T::reading(request.scope.bare_text()) == Ok::<T, T::Err>(request.scope)
    &&& is_segment_text(request.scope.bare_text())
    &&& A::reading(request.auth.text()) == Ok::<A, A::Err>(request.auth)
    &&& is_segment_text(request.auth.text())
}

/// The text of the lock is read back, and that of the expiry time in the years from 0 to 9999.
pub open spec fn has_read_values<T, A, L>(request: RequestView<T, A, L>) -> bool {
    &&& request.lock matches Some(lock) ==> {
        &&& lock_reading(lock_text(lock)) == Ok::<Seq<u8>, LockError>(lock)
        &&& is_baid64(lock_text(lock))
    }
    &&& request.expiry matches Some(time) ==> {
        &&& is_time_text(time_text(time))
        &&& -62167219200 <= time.secs <= 253402300799 ==> time_reading(time_text(time)) == Ok::<
            Timestamp,
            TimeError,
        >(time)
    }
}

/// The value is a 64-bit number.
pub open spec fn is_number_value(value: StrictVal) -> bool {
    exists|n: u64| value == #[trigger] number_value(n)
}

/// Where the call data are a number, their text consists of the decimal digits.
pub open spec fn has_read_data<T, A, L>(request: RequestView<T, A, L>) -> bool {
    request.data matches Some(data) ==> is_number_value(data) ==> has_number_text(data)
}

/// The names of a request are valid, its call data are absent or a number, its query holds parameters
/// of no more than one sort, which can be told apart and consist of characters which have their place
/// in a URI.
pub open spec fn is_simple<T, A, L>(request: RequestView<T, A, L>) -> bool {
    &&& has_valid_names(request)
    &&& request.data matches Some(data) ==> is_number_value(data)
    &&& request.lock matches Some(lock) ==> {
        &&& lock.len() <= MAX_LOCK
        &&& request.expiry is None && request.endpoints.len() == 0 && request.unknown_query.len() == 0
    }
    &&& request.expiry matches Some(time) ==> {
        &&& -62167219200 <= time.secs <= 253402300799
        &&& request.endpoints.len() == 0 && request.unknown_query.len() == 0
    }
    &&& request.endpoints.len() > 0 ==> request.unknown_query.len() == 0
    &&& has_readable_endpoints(request.endpoints)
    &&& has_readable_pairs(request.unknown_query)
    &&& has_query_texts(request)
}

/// A Baid64 text has its place in a segment of a path.
pub(crate) proof fn lemma_baid64_segment(text: Seq<char>)
    requires
        is_baid64(text),
    ensures
        is_segment_text(text),
{
    assert forall|i: int| 0 <= i < text.len() implies is_path_char(#[trigger] text[i]) && text[i] != '/'
        && text[i] != '@' by {
        assert(is_baid64_char(text[i]));
    }
}

/// A Baid64 text with a prefix has its place in a segment of a path.
pub(crate) proof fn lemma_prefixed_segment(text: Seq<char>, prefix: Seq<char>)
    requires
        prefix.is_prefix_of(text),
        is_segment_text(prefix),
        is_baid64(text.skip(prefix.len() as int)),
    ensures
        is_segment_text(text),
{
    let bare = text.skip(prefix.len() as int);
    assert forall|i: int| 0 <= i < text.len() implies is_path_char(#[trigger] text[i]) && text[i] != '/'
        && text[i] != '@' by {
        if i < prefix.len() {
            assert(prefix[i] == text[i]);
        } else {
            assert(is_baid64_char(bare[i - prefix.len()]));
        }
    }
}

/// A simple request can be read back, where the texts of its values are.
pub(crate) proof fn lemma_simple_is_readable<T: UriText, A: UriText, L: UriText>(
    request: RequestView<T, A, L>,
)
    requires
        is_simple(request),
        has_segment_ids(request),
        has_read_data(request),
        has_read_values(request),
    ensures
        is_readable(request),
{
}

/// Components one after another make a component.
proof fn lemma_component_concat(one: Seq<char>, other: Seq<char>, query: bool)
    requires
        is_component(one, query),
        is_component(other, query),
    ensures
        is_component(one + other, query),
    decreases one.len(),
{
    let whole = one + other;
    if one.len() == 0 {
        assert(whole =~= other);
    } else if one[0] == '%' {
        lemma_component_concat(one.skip(3), other, query);
        assert(whole.skip(3) =~= one.skip(3) + other);
    } else {
        lemma_component_concat(one.skip(1), other, query);
        assert(whole.skip(1) =~= one.skip(1) + other);
    }
}

/// A text of path characters is a component.
proof fn lemma_path_text(text: Seq<char>, query: bool)
    requires
        is_path_text(text),
    ensures
        is_component(text, query),
    decreases text.len(),
{
    if text.len() > 0 {
        let rest = text.skip(1);
        assert forall|i: int| 0 <= i < rest.len() implies is_path_char(#[trigger] rest[i]) by {
            assert(is_path_char(text[i + 1]));
        }
        lemma_path_text(rest, query);
        assert(is_path_char(text[0]));
    }
}

/// An escaped byte is a component.
proof fn lemma_escape(b: u8)
    ensures
        is_component(escape(b), true),
{
    let text = escape(b);
    let (high, low) = (b as int / 16, b as int % 16);
    assert(is_hex_digit(hex_digit(high)));
    assert(is_hex_digit(hex_digit(low)));
    assert(text.skip(3) =~= Seq::empty());
    assert(is_component(text.skip(3), true));
}

/// Escaped bytes are a component.
proof fn lemma_escaped_bytes(bytes: Seq<u8>)
    requires
        forall|i: int| 0 <= i < bytes.len() ==> is_escaped(#[trigger] bytes[i]),
    ensures
        is_component(encoded_bytes(bytes), true),
    decreases bytes.len(),
{
    if bytes.len() > 0 {
        let rest = bytes.skip(1);
        assert forall|i: int| 0 <= i < rest.len() implies is_escaped(#[trigger] rest[i]) by {
            assert(is_escaped(bytes[i + 1]));
        }
        lemma_escaped_bytes(rest);
        assert(is_escaped(bytes[0]));
        lemma_escape(bytes[0]);
        lemma_component_concat(escape(bytes[0]), encoded_bytes(rest), true);
    }
}

/// All the bytes of a character are escaped, unless it stands for itself.
proof fn lemma_char_escaped(c: char)
    requires
        !stands_for_itself(c),
    ensures
        forall|i: int|
            0 <= i < vstd::utf8::encode_scalar(c as u32).len() ==> is_escaped(
                #[trigger] vstd::utf8::encode_scalar(c as u32)[i],
            ),
{
    let scalar = c as u32;
    let bytes = vstd::utf8::encode_scalar(scalar);
    if vstd::utf8::has_width_1_encoding(scalar) {
        assert(0 <= scalar <= 0x7F ==> (scalar & 0x7F) as u8 == scalar as u8) by (bit_vector);
    } else {
        assert((0x80u8 | ((scalar & 0x3F) as u8)) >= 0x80) by (bit_vector);
        assert((0x80u8 | (((scalar >> 6) & 0x3F) as u8)) >= 0x80) by (bit_vector);
        assert((0x80u8 | (((scalar >> 12) & 0x3F) as u8)) >= 0x80) by (bit_vector);
        assert((0xC0u8 | (((scalar >> 6) & 0x1F) as u8)) >= 0x80) by (bit_vector);
        assert((0xE0u8 | (((scalar >> 12) & 0x0F) as u8)) >= 0x80) by (bit_vector);
        assert((0xF0u8 | (((scalar >> 18) & 0x07) as u8)) >= 0x80) by (bit_vector);
    }
}

/// A character which stands for itself has its place in a query.
proof fn lemma_plain_query_char(c: char)
    requires
        is_query_char(c),
        stands_for_itself(c),
    ensures
        is_path_char(c) || c == '?',
{
}

/// An encoded text is a component of a query.
proof fn lemma_encoded_component(text: Seq<char>)
    requires
        is_query_text(text),
    ensures
        is_component(encoded_text(text), true),
    decreases text.len(),
{
    if text.len() == 0 {
        assert(encode_utf8(text) =~= Seq::empty());
    } else {
        let head = seq![text[0]];
        let rest = text.skip(1);
        assert forall|i: int| 0 <= i < rest.len() implies is_query_char(#[trigger] rest[i]) by {
            assert(is_query_char(text[i + 1]));
        }
        lemma_encoded_component(rest);
        assert(text =~= head + rest);
        lemma_encoded_concat(head, rest);
        assert(is_query_char(text[0]));
        if stands_for_itself(text[0]) {
            lemma_plain_text(head);
            lemma_plain_query_char(text[0]);
            assert(head.skip(1) =~= Seq::empty());
            assert(is_component(head.skip(1), true));
        } else {
            lemma_char_escaped(text[0]);
            assert(head.drop_first() =~= Seq::empty());
            assert(encode_utf8(head.drop_first()) =~= Seq::empty());
            assert(encode_utf8(head) =~= vstd::utf8::encode_scalar(text[0] as u32));
            lemma_escaped_bytes(encode_utf8(head));
        }
        lemma_component_concat(encoded_text(head), encoded_text(rest), true);
    }
}

/// Components, joined by a path character, make a component.
proof fn lemma_joined_component(texts: Seq<Seq<char>>, separator: char)
    requires
        is_path_char(separator),
        separator != '%',
        forall|i: int| 0 <= i < texts.len() ==> is_component(#[trigger] texts[i], true),
    ensures
        is_component(joined(texts, separator), true),
    decreases texts.len(),
{
    if texts.len() == 1 {
        assert(is_component(texts[0], true));
    } else if texts.len() > 1 {
        let less = texts.drop_last();
        let n = texts.len() - 1;
        assert forall|i: int| 0 <= i < less.len() implies is_component(#[trigger] less[i], true) by {
            assert(is_component(texts[i], true));
        }
        lemma_joined_component(less, separator);
        assert(is_component(texts[n], true));
        let middle = seq![separator];
        assert(middle.skip(1) =~= Seq::empty());
        assert(is_component(middle.skip(1), true));
        lemma_component_concat(joined(less, separator), middle, true);
        lemma_component_concat(joined(less, separator) + middle, texts.last(), true);
    }
}

/// A name is a text of path characters.
proof fn lemma_name_text(name: Seq<char>)
    requires
        forall|i: int| 0 <= i < name.len() ==> is_name_char(#[trigger] name[i]),
    ensures
        is_path_text(name),
{
    assert forall|i: int| 0 <= i < name.len() implies is_path_char(#[trigger] name[i]) by {
        assert(is_name_char(name[i]));
    }
}

/// The path of a request is a text of path characters.
proof fn lemma_path_of_request<T: UriText, A: UriText, L: UriText>(request: RequestView<T, A, L>)
    requires
        is_readable(request),
    ensures
        is_path_text(request.path_text()),
{
    if let Some(api) = request.api {
        lemma_name_text(api);
    }
    if let Some(call) = request.call {
        lemma_name_text(call.method);
        if let Some(owned) = call.owned {
            lemma_name_text(owned);
        }
    }
    assert(is_path_text(request.call_text()));
    if let Some(data) = request.data {
        let number = choose|n: u64|
            data == #[trigger] number_value(n) && value_text(data) == decimal(n as nat);
        let digits = decimal(number as nat);
        lemma_decimal(number as nat);
        assert forall|i: int| 0 <= i < digits.len() implies stands_for_itself(#[trigger] digits[i])
            && is_path_char(digits[i]) by {
            assert(is_digit(digits[i]));
        }
        lemma_plain_text(digits);
    }
    assert(is_path_text(request.auth_text()));
}

/// The query of a request is a component.
proof fn lemma_query_of_request<T: UriText, A: UriText, L: UriText>(request: RequestView<T, A, L>)
    requires
        is_readable(request),
    ensures
        is_component(request.query_text(), true),
{
    reveal_strlit("lock=");
    reveal_strlit("expiry=");
    reveal_strlit("endpoints=");
    let lock = match request.lock {
        Some(lock) => "lock="@ + lock_text(lock),
        None => Seq::empty(),
    };
    let expiry = match request.expiry {
        Some(time) => "expiry="@ + time_text(time),
        None => Seq::empty(),
    };
    let encoded = endpoint_texts(request.endpoints);
    let endpoints = if request.endpoints.len() > 0 {
        "endpoints="@ + joined(encoded, ',')
    } else {
        Seq::empty()
    };
    if let Some(value) = request.lock {
        let text = lock_text(value);
        assert forall|i: int| 0 <= i < text.len() implies is_path_char(#[trigger] text[i]) by {
            assert(is_baid64_char(text[i]));
        }
    }
    assert(is_path_text(lock));
    lemma_path_text(lock, true);
    assert(is_path_text(expiry));
    lemma_path_text(expiry, true);
    assert forall|i: int| 0 <= i < encoded.len() implies is_component(#[trigger] encoded[i], true) by {
        assert(is_query_text(request.endpoints[i].1));
        lemma_encoded_component(request.endpoints[i].1);
    }
    lemma_joined_component(encoded, ',');
    assert(is_path_text("endpoints="@));
    lemma_path_text("endpoints="@, true);
    lemma_component_concat("endpoints="@, joined(encoded, ','), true);
    assert(is_component(endpoints, true));
    let pairs = pair_texts(request.unknown_query);
    assert forall|i: int| 0 <= i < pairs.len() implies is_component(#[trigger] pairs[i], true) by {
        let (key, value) = request.unknown_query[i];
        assert(is_query_text(request.unknown_query[i].0));
        lemma_encoded_component(key);
        lemma_encoded_component(value);
        let equals = seq!['='];
        lemma_path_text(equals, true);
        lemma_component_concat(encoded_text(key), equals, true);
        lemma_component_concat(encoded_text(key) + equals, encoded_text(value), true);
        assert(pairs[i] == pair_text(request.unknown_query[i]));
    }
    lemma_joined_component(pairs, '&');
    lemma_component_concat(lock, expiry, true);
    lemma_component_concat(lock + expiry, endpoints, true);
    lemma_component_concat(lock + expiry + endpoints, joined(pairs, '&'), true);
}

/// A request is read back from its URI: the URI has the components of the request, which are those
/// of a well-formed URI without an authority, and the request is read from them.
pub proof fn law_request_reads_back_from_text<T: UriText, A: UriText, L: UriText>(
    request: RequestView<T, A, L>,
)
    requires
        is_readable(request),
    ensures
        is_plain_uri(uri_parts(request)),
        request.uri_text() == plain_uri(uri_parts(request)),
        parsed::<T, A, L>(uri_parts(request)) == Ok::<RequestView<T, A, L>, Fault<T::Err, A::Err>>(
            request,
        ),
{
    law_request_reads_back(request);
    reveal_strlit("contract");
    lemma_path_of_request(request);
    lemma_path_text(request.path_text(), false);
    lemma_query_of_request(request);
    let layer1 = request.layer1.text();
    if layer1.len() > 0 {
        assert(request.path_text()[0] == layer1[0]);
    } else {
        assert(request.path_text()[0] == '@');
    }
}

/// A letter, a digit or another printable character of ASCII stands for itself in an encoded text,
/// unless it is one of `"`, `#`, `<`, `>`, `[`, `]`, `&`, `=`. Of any other character every byte is
/// written as a percent sign with two digits.
pub proof fn law_special_characters_are_encoded(c: char)
    ensures
        ({
            let plain = '!' <= c <= '~' && c != '"' && c != '#' && c != '<' && c != '>' && c != '['
                && c != ']' && c != '&' && c != '=';
            let encoded = encoded_text(seq![c]);
            let n = encode_utf8(seq![c]).len();
            &&& plain ==> encoded == seq![c]
            &&& !plain ==> encoded.len() == 3 * n && n > 0 && forall|i: int|
                0 <= i < n ==> #[trigger] encoded[3 * i] == '%'
        }),
{
    let head = seq![c];
    let plain = '!' <= c <= '~' && c != '"' && c != '#' && c != '<' && c != '>' && c != '[' && c
        != ']' && c != '&' && c != '=';
    let value = c as u32;
    assert(value < 128 ==> value as u8 == value);
    assert(plain == stands_for_itself(c));
    if plain {
        lemma_plain_text(head);
    } else {
        lemma_char_escaped(c);
        assert(head.drop_first() =~= Seq::empty());
        assert(encode_utf8(head.drop_first()) =~= Seq::empty());
        assert(encode_utf8(head) =~= vstd::utf8::encode_scalar(c as u32));
        lemma_escapes(encode_utf8(head));
    }
}

/// Escaped bytes take three characters each, the first of which is a percent sign.
proof fn lemma_escapes(bytes: Seq<u8>)
    requires
        forall|i: int| 0 <= i < bytes.len() ==> is_escaped(#[trigger] bytes[i]),
    ensures
        encoded_bytes(bytes).len() == 3 * bytes.len(),
        forall|i: int| 0 <= i < bytes.len() ==> #[trigger] encoded_bytes(bytes)[3 * i] == '%',
    decreases bytes.len(),
{
    if bytes.len() > 0 {
        let rest = bytes.skip(1);
        assert forall|i: int| 0 <= i < rest.len() implies is_escaped(#[trigger] rest[i]) by {
            assert(is_escaped(bytes[i + 1]));
        }
        lemma_escapes(rest);
        assert(is_escaped(bytes[0]));
        let whole = encoded_bytes(bytes);
        assert(whole =~= escape(bytes[0]) + encoded_bytes(rest));
        assert forall|i: int| 0 <= i < bytes.len() implies #[trigger] whole[3 * i] == '%' by {
            if i > 0 {
                assert(encoded_bytes(rest)[3 * (i - 1)] == '%');
                assert(whole[3 * i] == encoded_bytes(rest)[3 * i - 3]);
            }
        }
    }
}

} // verus!
