//! Laws of the contract call requests: what is written is read back.

use crate::percent::{
    decoded_text, encoded_text, law_decoding_undoes_encoding, lemma_encoded_concat,
    lemma_encoded_separators, lemma_plain_text, stands_for_itself,
};
use crate::text::{
    decimal, divided, first_position, is_digit, law_decimal_reads_back, lemma_decimal,
    lemma_first_position_is, pieces,
};
use crate::uri::{
    data_and_auth, endpoint_kind, endpoint_texts, joined, merged, pair_text, pair_texts, parsed,
    parsed_endpoints, parsed_params, parsed_path, parsed_query, EndpointKind, Fault, PathView,
    QueryView, RequestView, UriText, MAX_ENDPOINTS, MAX_LOCK,
};
use crate::uri_bridge::{
    found, is_baid64, is_baid64_char, is_name_char, is_time_text, is_type_name, is_variant_name,
    lock_reading, lock_text, number_value, plain_uri, put, time_reading, time_text, value_text,
    without, Timestamp, UriPartsView,
};
use baid64::base64::DecodeError as LockError;
use chrono::ParseError as TimeError;
use strict_types::StrictVal;
use vstd::prelude::*;

verus! {

/// The character does not stand in a text.
pub open spec fn free_of(text: Seq<char>, c: char) -> bool {
    forall|i: int| 0 <= i < text.len() ==> #[trigger] text[i] != c
}

/// Texts with a separator between them begin with the first one.
proof fn lemma_joined_front(texts: Seq<Seq<char>>, c: char)
    requires
        texts.len() >= 2,
    ensures
        joined(texts, c) == texts[0] + seq![c] + joined(texts.skip(1), c),
    decreases texts.len(),
{
    let rest = texts.skip(1);
    if texts.len() == 2 {
        assert(texts.drop_last().len() == 1);
        assert(joined(texts.drop_last(), c) == texts[0]);
        assert(rest.len() == 1);
        assert(joined(rest, c) == texts[1]);
        assert(joined(texts, c) =~= texts[0] + seq![c] + joined(rest, c));
    } else {
        lemma_joined_front(texts.drop_last(), c);
        assert(texts.drop_last().skip(1) =~= rest.drop_last());
        let (a, b, z) = (texts[0], joined(rest.drop_last(), c), texts.last());
        assert(texts.drop_last()[0] == texts[0]);
        assert(joined(texts, c) == (a + seq![c] + b) + seq![c] + z);
        assert(joined(rest, c) == b + seq![c] + z);
        assert((a + seq![c] + b) + seq![c] + z =~= a + seq![c] + (b + seq![c] + z));
    }
}

/// A text is divided at the first separator.
proof fn lemma_divided(head: Seq<char>, tail: Seq<char>, c: char)
    requires
        free_of(head, c),
    ensures
        first_position(head + seq![c] + tail, c) == head.len(),
        divided(head + seq![c] + tail, c) == Some((head, tail)),
{
    let text = head + seq![c] + tail;
    assert forall|i: int| 0 <= i < head.len() implies #[trigger] text[i] != c by {
        assert(text[i] == head[i]);
    }
    assert(text[head.len() as int] == c);
    lemma_first_position_is(text, c, head.len() as int);
    assert(text.take(head.len() as int) =~= head);
    assert(text.skip(head.len() as int + 1) =~= tail);
}

/// A text without a separator is not divided.
proof fn lemma_undivided(text: Seq<char>, c: char)
    requires
        free_of(text, c),
    ensures
        first_position(text, c) == text.len(),
        divided(text, c) is None,
        pieces(text, c) == seq![text],
{
    lemma_first_position_is(text, c, text.len() as int);
}

/// Texts without the separator, joined by it, are its pieces.
proof fn lemma_pieces_joined(texts: Seq<Seq<char>>, c: char)
    requires
        texts.len() >= 1,
        forall|i: int| 0 <= i < texts.len() ==> free_of(#[trigger] texts[i], c),
    ensures
        pieces(joined(texts, c), c) == texts,
    decreases texts.len(),
{
    assert(free_of(texts[0], c));
    if texts.len() == 1 {
        lemma_undivided(texts[0], c);
        assert(seq![texts[0]] =~= texts);
    } else {
        let rest = texts.skip(1);
        lemma_joined_front(texts, c);
        lemma_divided(texts[0], joined(rest, c), c);
        assert forall|i: int| 0 <= i < rest.len() implies free_of(#[trigger] rest[i], c) by {
            assert(free_of(texts[i + 1], c));
        }
        lemma_pieces_joined(rest, c);
        let text = joined(texts, c);
        let at = texts[0].len() as int;
        assert(text.take(at) =~= texts[0]);
        assert(text.skip(at + 1) =~= joined(rest, c));
        assert(pieces(text, c) == seq![texts[0]] + rest);
        assert(seq![texts[0]] + rest =~= texts);
    }
}

/// A digit stands for itself and is no separator.
proof fn lemma_digit(c: char)
    requires
        is_digit(c),
    ensures
        stands_for_itself(c),
        c != '@',
        c != '/',
        c != '%',
{
}

/// The segments of the API, the method and the state.
pub open spec fn call_segments<T, A, L>(request: RequestView<T, A, L>) -> Seq<Seq<char>> {
    match request.api {
        None => Seq::empty(),
        Some(api) => match request.call {
            None => seq![api],
            Some(call) => match call.owned {
                None => seq![api, call.method],
                Some(owned) => seq![api, call.method, owned],
            },
        },
    }
}

/// The names of a request are valid, and a method comes with an API.
pub open spec fn has_valid_names<T, A, L>(request: RequestView<T, A, L>) -> bool {
    &&& request.api matches Some(api) ==> is_type_name(api)
    &&& request.call matches Some(call) ==> {
        &&& request.api is Some
        &&& is_variant_name(call.method)
        &&& call.owned matches Some(owned) ==> is_variant_name(owned)
    }
}

/// The texts of the identifiers are read back, and hold no separators.
pub open spec fn has_readable_ids<T: UriText, A: UriText, L: UriText>(
    request: RequestView<T, A, L>,
) -> bool {
    &&& L::reading(request.layer1.text()) == Ok::<L, L::Err>(request.layer1)
    &&& free_of(request.layer1.text(), '@')
    &&& free_of(request.layer1.text(), '/')
    &&& T::reading(request.scope.bare_text()) == Ok::<T, T::Err>(request.scope)
    &&& free_of(request.scope.bare_text(), '/')
    &&& A::reading(request.auth.text()) == Ok::<A, A::Err>(request.auth)
    &&& free_of(request.auth.text(), '@')
    &&& free_of(request.auth.text(), '/')
}

/// A name holds no slash.
proof fn lemma_name_free(name: Seq<char>)
    requires
        forall|i: int| 0 <= i < name.len() ==> is_name_char(#[trigger] name[i]),
    ensures
        free_of(name, '/'),
{
    assert forall|i: int| 0 <= i < name.len() implies #[trigger] name[i] != '/' by {
        assert(is_name_char(name[i]));
    }
}

/// The value is a number, and its text consists of the decimal digits.
pub open spec fn has_number_text(value: StrictVal) -> bool {
    exists|n: u64| value == #[trigger] number_value(n) && value_text(value) == decimal(n as nat)
}

/// The path of a request is read back.
proof fn lemma_path_reads_back<T: UriText, A: UriText, L: UriText>(request: RequestView<T, A, L>)
    requires
        has_valid_names(request),
        has_readable_ids(request),
        request.data matches Some(data) ==> has_number_text(data),
    ensures
        parsed_path::<T, A, L>(pieces(request.path_text(), '/')) == Ok::<
            PathView<T, A, L>,
            Fault<T::Err, A::Err>,
        >(
            PathView {
                scope: request.scope,
                layer1: request.layer1,
                api: request.api,
                call: request.call,
                auth: request.auth,
                data: request.data,
            },
        ),
{
    let first = request.layer1.text() + seq!['@'] + request.scope.bare_text();
    let middle = call_segments(request);
    let last = request.auth_text();
    let segments = seq![first] + middle + seq![last, Seq::empty()];
    let n = segments.len() as int;
    // the segments hold no slash
    assert(free_of(first, '/'));
    lemma_last_segment(request);
    assert forall|i: int| 0 <= i < middle.len() implies free_of(#[trigger] middle[i], '/') by {
        lemma_name_free(middle[i]);
    }
    assert forall|i: int| 0 <= i < n implies free_of(#[trigger] segments[i], '/') by {
        if 0 < i <= middle.len() {
            assert(segments[i] == middle[i - 1]);
        }
    }
    lemma_path_joined(request, segments);
    lemma_pieces_joined(segments, '/');
    // the first one
    lemma_divided(request.layer1.text(), request.scope.bare_text(), '@');
    assert(segments[0] == first);
    assert(segments[n - 1] == Seq::<char>::empty());
    assert(segments[n - 2] == last);
    assert(segments.subrange(1, n - 2) =~= middle);
}

/// The segment of the data and the authority token is read back.
proof fn lemma_last_segment<T: UriText, A: UriText, L: UriText>(request: RequestView<T, A, L>)
    requires
        has_readable_ids(request),
        request.data matches Some(data) ==> has_number_text(data),
    ensures
        free_of(request.auth_text(), '/'),
        data_and_auth(request.auth_text()) == (request.data, request.auth.text()),
{
    let auth = request.auth.text();
    match request.data {
        None => {
            lemma_undivided(auth, '@');
        },
        Some(data) => {
            let number = choose|n: u64|
                data == #[trigger] number_value(n) && value_text(data) == decimal(n as nat);
            let digits = decimal(number as nat);
            lemma_decimal(number as nat);
            assert forall|i: int| 0 <= i < digits.len() implies stands_for_itself(#[trigger] digits[i])
                && digits[i] != '@' && digits[i] != '/' by {
                assert(is_digit(digits[i]));
                lemma_digit(digits[i]);
            }
            lemma_plain_text(digits);
            lemma_divided(digits, auth, '@');
            law_decimal_reads_back(number);
            assert(request.auth_text() == digits + seq!['@'] + auth);
            assert(free_of(digits + seq!['@'] + auth, '/'));
        },
    }
}

/// The path is made of its segments.
proof fn lemma_path_joined<T: UriText, A: UriText, L: UriText>(
    request: RequestView<T, A, L>,
    segments: Seq<Seq<char>>,
)
    requires
        has_valid_names(request),
        segments == seq![request.layer1.text() + seq!['@'] + request.scope.bare_text()]
            + call_segments(request) + seq![request.auth_text(), Seq::empty()],
    ensures
        joined(segments, '/') == request.path_text(),
{
    let slash = seq!['/'];
    let first = segments[0];
    let last = request.auth_text();
    let empty = Seq::<char>::empty();
    let tail = seq![last, empty];
    lemma_joined_front(tail, '/');
    assert(tail.skip(1) =~= seq![empty]);
    assert(joined(seq![empty], '/') == empty);
    assert(joined(tail, '/') =~= last + slash);
    let middle = call_segments(request);
    let rest = middle + tail;
    assert(segments.skip(1) =~= rest);
    lemma_joined_front(segments, '/');
    assert(joined(rest, '/') =~= request.call_text() + last + slash) by {
        if middle.len() == 0 {
            assert(rest =~= tail);
            assert(request.call_text() =~= empty);
        } else {
            let api = request.api->Some_0;
            lemma_joined_front(rest, '/');
            let after_api = rest.skip(1);
            if middle.len() == 1 {
                assert(after_api =~= tail);
                assert(request.call_text() =~= api + slash);
            } else {
                let call = request.call->Some_0;
                lemma_joined_front(after_api, '/');
                let after_method = after_api.skip(1);
                assert(after_api[0] == call.method);
                if middle.len() == 2 {
                    assert(after_method =~= tail);
                    assert(request.call_text() =~= api + slash + call.method + slash);
                } else {
                    let owned = call.owned->Some_0;
                    lemma_joined_front(after_method, '/');
                    assert(after_method[0] == owned);
                    assert(after_method.skip(1) =~= tail);
                    assert(request.call_text() =~= api + slash + call.method + slash + owned + slash);
                }
            }
        }
    }
    assert(joined(segments, '/') =~= request.path_text());
}

/// A text of characters which stand for themselves is not changed by decoding.
proof fn lemma_plain_decoded(text: Seq<char>)
    requires
        forall|i: int| 0 <= i < text.len() ==> stands_for_itself(#[trigger] text[i]),
        free_of(text, '%'),
    ensures
        decoded_text(text) == text,
{
    lemma_plain_text(text);
    assert(!text.contains('%'));
    law_decoding_undoes_encoding(text);
}

/// A character of the Baid64 encoding stands for itself.
proof fn lemma_baid64_char(c: char)
    requires
        is_baid64_char(c),
    ensures
        stands_for_itself(c),
        c != '%',
        c != '&',
{
}

/// A character of a time stands for itself.
proof fn lemma_time_char(c: char)
    requires
        '0' <= c <= '9' || c == '-' || c == ':' || c == 'T' || c == '.' || c == '+',
    ensures
        stands_for_itself(c),
        c != '%',
        c != '&',
{
}

/// A small letter stands for itself.
proof fn lemma_letter(c: char)
    requires
        'a' <= c <= 'z',
    ensures
        stands_for_itself(c),
        c != '%',
        c != '&',
        c != '=',
{
}

/// A text of small letters.
spec fn is_word(text: Seq<char>) -> bool {
    forall|i: int| 0 <= i < text.len() ==> 'a' <= #[trigger] text[i] <= 'z'
}

/// A query of one parameter with a word for its key.
proof fn lemma_one_param(query: Seq<char>, key: Seq<char>, value: Seq<char>)
    requires
        is_word(key),
        query == key + seq!['='] + value,
        free_of(value, '&'),
    ensures
        parsed_params(pieces(query, '&')) == Ok::<Seq<(Seq<char>, Seq<char>)>, Seq<char>>(
            seq![(key, decoded_text(value))],
        ),
{
    assert forall|i: int| 0 <= i < key.len() implies stands_for_itself(#[trigger] key[i]) && key[i] != '%'
        && key[i] != '&' && key[i] != '=' by {
        lemma_letter(key[i]);
    }
    lemma_plain_decoded(key);
    assert(free_of(query, '&'));
    lemma_undivided(query, '&');
    lemma_divided(key, value, '=');
    let params = seq![query];
    assert(params.drop_last() =~= Seq::empty());
    assert(parsed_params(params.drop_last()) == Ok::<Seq<(Seq<char>, Seq<char>)>, Seq<char>>(
        Seq::empty(),
    ));
    let none = Seq::<(Seq<char>, Seq<char>)>::empty();
    assert(found(none, key) is None);
    assert(merged(none, key, decoded_text(value)) == seq![(key, decoded_text(value))]);
}

/// A lock is read back from a query.
proof fn lemma_lock_reads_back<E1, E2>(lock: Seq<u8>)
    requires
        lock_reading(lock_text(lock)) == Ok::<Seq<u8>, LockError>(lock),
        is_baid64(lock_text(lock)),
        lock.len() <= MAX_LOCK,
    ensures
        parsed_query::<E1, E2>(Some("lock="@ + lock_text(lock))) == Ok::<QueryView, Fault<E1, E2>>(
            QueryView {
                lock: Some(lock),
                expiry: None,
                endpoints: Seq::empty(),
                unknown_query: Seq::empty(),
            },
        ),
{
    let text = lock_text(lock);
    reveal_strlit("lock=");
    reveal_strlit("lock");
    reveal_strlit("expiry");
    reveal_strlit("endpoints");
    assert("lock="@ =~= "lock"@ + seq!['=']);
    assert forall|i: int| 0 <= i < text.len() implies stands_for_itself(#[trigger] text[i]) && text[i]
        != '%' && text[i] != '&' by {
        lemma_baid64_char(text[i]);
    }
    lemma_plain_decoded(text);
    lemma_one_param("lock="@ + text, "lock"@, text);
    let pairs = seq![("lock"@, text)];
    assert(pairs.skip(1) =~= Seq::empty());
    assert(without(pairs, "lock"@) =~= Seq::empty());
}

/// An expiry time is read back from a query.
proof fn lemma_expiry_reads_back<E1, E2>(time: Timestamp)
    requires
        time_reading(time_text(time)) == Ok::<Timestamp, TimeError>(time),
        is_time_text(time_text(time)),
    ensures
        parsed_query::<E1, E2>(Some("expiry="@ + time_text(time))) == Ok::<QueryView, Fault<E1, E2>>(
            QueryView {
                lock: None,
                expiry: Some(time),
                endpoints: Seq::empty(),
                unknown_query: Seq::empty(),
            },
        ),
{
    let text = time_text(time);
    reveal_strlit("expiry=");
    reveal_strlit("lock");
    reveal_strlit("expiry");
    reveal_strlit("endpoints");
    assert("expiry="@ =~= "expiry"@ + seq!['=']);
    assert forall|i: int| 0 <= i < text.len() implies stands_for_itself(#[trigger] text[i]) && text[i]
        != '%' && text[i] != '&' by {
        lemma_time_char(text[i]);
    }
    lemma_plain_decoded(text);
    lemma_one_param("expiry="@ + text, "expiry"@, text);
    let pairs = seq![("expiry"@, text)];
    lemma_other_key(pairs, "lock"@);
    assert(pairs.skip(1) =~= Seq::empty());
    assert(without(pairs, "expiry"@) =~= Seq::empty());
}

/// Nothing is under a key which no pair has.
proof fn lemma_other_key(pairs: Seq<(Seq<char>, Seq<char>)>, key: Seq<char>)
    requires
        forall|i: int| 0 <= i < pairs.len() ==> (#[trigger] pairs[i]).0 != key,
    ensures
        found(pairs, key) is None,
        without(pairs, key) == pairs,
    decreases pairs.len(),
{
    if pairs.len() > 0 {
        let rest = pairs.skip(1);
        assert forall|i: int| 0 <= i < rest.len() implies (#[trigger] rest[i]).0 != key by {
            assert(rest[i] == pairs[i + 1]);
        }
        lemma_other_key(rest, key);
        assert(pairs[0].0 != key);
        assert(seq![pairs[0]] + rest =~= pairs);
    }
}

/// A pair with a new key comes last.
proof fn lemma_put_new(pairs: Seq<(Seq<char>, Seq<char>)>, key: Seq<char>, value: Seq<char>)
    requires
        forall|i: int| 0 <= i < pairs.len() ==> (#[trigger] pairs[i]).0 != key,
    ensures
        put(pairs, key, value) == pairs.push((key, value)),
    decreases pairs.len(),
{
    if pairs.len() == 0 {
        assert(pairs.push((key, value)) =~= seq![(key, value)]);
    } else {
        let rest = pairs.skip(1);
        assert forall|i: int| 0 <= i < rest.len() implies (#[trigger] rest[i]).0 != key by {
            assert(rest[i] == pairs[i + 1]);
        }
        lemma_put_new(rest, key, value);
        assert(pairs[0].0 != key);
        assert(seq![pairs[0]] + rest.push((key, value)) =~= pairs.push((key, value)));
    }
}

/// The endpoints can be told apart in a query.
pub open spec fn has_readable_endpoints(endpoints: Seq<(EndpointKind, Seq<char>)>) -> bool {
    &&& endpoints.len() <= MAX_ENDPOINTS
    &&& forall|i: int|
        0 <= i < endpoints.len() ==> {
            &&& (#[trigger] endpoints[i]).1.len() > 0
            &&& endpoints[i].0 == endpoint_kind(endpoints[i].1)
            &&& free_of(endpoints[i].1, ',')
            &&& free_of(endpoints[i].1, '%')
        }
}

/// The texts of endpoints.
spec fn texts_of(endpoints: Seq<(EndpointKind, Seq<char>)>) -> Seq<Seq<char>> {
    endpoints.map_values(|e: (EndpointKind, Seq<char>)| e.1)
}

/// Encoded texts, joined by a comma, are the encoding of the joined texts.
proof fn lemma_endpoints_encoded(endpoints: Seq<(EndpointKind, Seq<char>)>)
    ensures
        joined(endpoint_texts(endpoints), ',') == encoded_text(joined(texts_of(endpoints), ',')),
    decreases endpoints.len(),
{
    let encoded = endpoint_texts(endpoints);
    let texts = texts_of(endpoints);
    if endpoints.len() == 0 {
        assert(encoded.len() == 0 && texts.len() == 0);
        assert(forall|i: int|
            0 <= i < Seq::<char>::empty().len() ==> stands_for_itself(
                #[trigger] Seq::<char>::empty()[i],
            ));
        lemma_plain_text(Seq::empty());
    } else if endpoints.len() > 1 {
        let less = endpoints.drop_last();
        lemma_endpoints_encoded(less);
        assert(encoded.drop_last() =~= endpoint_texts(less));
        assert(texts.drop_last() =~= texts_of(less));
        let comma = seq![','];
        assert(stands_for_itself(','));
        lemma_plain_text(comma);
        lemma_encoded_concat(joined(texts_of(less), ','), comma);
        lemma_encoded_concat(joined(texts_of(less), ',') + comma, texts.last());
    }
}

/// A character which is not in any of the texts is not in the joined text, unless it separates them.
proof fn lemma_joined_free(texts: Seq<Seq<char>>, separator: char, c: char)
    requires
        c != separator,
        forall|i: int| 0 <= i < texts.len() ==> free_of(#[trigger] texts[i], c),
    ensures
        free_of(joined(texts, separator), c),
    decreases texts.len(),
{
    if texts.len() == 1 {
        assert(free_of(texts[0], c));
    } else if texts.len() > 1 {
        let less = texts.drop_last();
        assert forall|i: int| 0 <= i < less.len() implies free_of(#[trigger] less[i], c) by {
            assert(free_of(texts[i], c));
        }
        lemma_joined_free(less, separator, c);
        let n = texts.len() - 1;
        assert(free_of(texts[n], c));
    }
}

/// The endpoints are read back from their texts.
proof fn lemma_endpoints_of_texts(endpoints: Seq<(EndpointKind, Seq<char>)>)
    requires
        forall|i: int|
            0 <= i < endpoints.len() ==> (#[trigger] endpoints[i]).1.len() > 0 && endpoints[i].0
                == endpoint_kind(endpoints[i].1),
    ensures
        parsed_endpoints(texts_of(endpoints)) == endpoints,
    decreases endpoints.len(),
{
    let texts = texts_of(endpoints);
    if endpoints.len() > 0 {
        let less = endpoints.drop_last();
        assert forall|i: int| 0 <= i < less.len() implies (#[trigger] less[i]).1.len() > 0 && less[i].0
            == endpoint_kind(less[i].1) by {
            assert(less[i] == endpoints[i]);
        }
        lemma_endpoints_of_texts(less);
        assert(texts.drop_last() =~= texts_of(less));
        let n = endpoints.len() - 1;
        assert(endpoints[n].1.len() > 0);
        assert(texts.last() == endpoints[n].1);
        assert(less.push(endpoints[n]) =~= endpoints);
    }
}

/// Endpoints are read back from a query.
proof fn lemma_endpoints_read_back<E1, E2>(endpoints: Seq<(EndpointKind, Seq<char>)>)
    requires
        endpoints.len() > 0,
        has_readable_endpoints(endpoints),
    ensures
        parsed_query::<E1, E2>(
            Some("endpoints="@ + joined(endpoint_texts(endpoints), ',')),
        ) == Ok::<QueryView, Fault<E1, E2>>(
            QueryView {
                lock: None,
                expiry: None,
                endpoints,
                unknown_query: Seq::empty(),
            },
        ),
{
    let texts = texts_of(endpoints);
    let whole = joined(texts, ',');
    let value = joined(endpoint_texts(endpoints), ',');
    reveal_strlit("endpoints=");
    reveal_strlit("lock");
    reveal_strlit("expiry");
    reveal_strlit("endpoints");
    assert("endpoints="@ =~= "endpoints"@ + seq!['=']);
    lemma_endpoints_encoded(endpoints);
    lemma_encoded_separators(whole);
    assert forall|i: int| 0 <= i < texts.len() implies free_of(#[trigger] texts[i], '%') && free_of(
        texts[i],
        ',',
    ) by {
        assert(texts[i] == endpoints[i].1);
    }
    lemma_joined_free(texts, ',', '%');
    assert(!whole.contains('%'));
    law_decoding_undoes_encoding(whole);
    lemma_one_param("endpoints="@ + value, "endpoints"@, value);
    let pairs = seq![("endpoints"@, whole)];
    lemma_other_key(pairs, "lock"@);
    lemma_other_key(pairs, "expiry"@);
    assert(pairs.skip(1) =~= Seq::empty());
    assert(without(pairs, "endpoints"@) =~= Seq::empty());
    lemma_pieces_joined(texts, ',');
    lemma_endpoints_of_texts(endpoints);
}

/// The parameters of a query can be told apart, from each other and from those with a meaning.
pub open spec fn has_readable_pairs(pairs: Seq<(Seq<char>, Seq<char>)>) -> bool {
    &&& forall|i: int|
        0 <= i < pairs.len() ==> {
            &&& (#[trigger] pairs[i]).0 != "lock"@
            &&& pairs[i].0 != "expiry"@
            &&& pairs[i].0 != "endpoints"@
            &&& free_of(pairs[i].0, '%')
            &&& free_of(pairs[i].1, '%')
        }
    &&& forall|i: int, j: int|
        0 <= i < j < pairs.len() ==> (#[trigger] pairs[i]).0 != (#[trigger] pairs[j]).0
}

/// Parameters are read back from their texts.
proof fn lemma_params_read_back(pairs: Seq<(Seq<char>, Seq<char>)>)
    requires
        has_readable_pairs(pairs),
    ensures
        parsed_params(pair_texts(pairs)) == Ok::<Seq<(Seq<char>, Seq<char>)>, Seq<char>>(pairs),
    decreases pairs.len(),
{
    let texts = pair_texts(pairs);
    if pairs.len() == 0 {
        assert(pairs =~= Seq::empty());
    } else {
        let less = pairs.drop_last();
        let n = pairs.len() - 1;
        let (key, value) = pairs[n];
        assert(has_readable_pairs(less)) by {
            assert forall|i: int| 0 <= i < less.len() implies less[i] == pairs[i] by {}
            assert forall|i: int, j: int| 0 <= i < j < less.len() implies (#[trigger] less[i]).0 != (
            #[trigger] less[j]).0 by {
                assert(pairs[i].0 != pairs[j].0);
            }
        }
        lemma_params_read_back(less);
        assert(texts.drop_last() =~= pair_texts(less));
        assert(texts.last() == pair_text(pairs[n]));
        lemma_encoded_separators(key);
        lemma_divided(encoded_text(key), encoded_text(value), '=');
        assert(!key.contains('%') && !value.contains('%')) by {
            assert(free_of(pairs[n].0, '%') && free_of(pairs[n].1, '%'));
        }
        law_decoding_undoes_encoding(key);
        law_decoding_undoes_encoding(value);
        assert forall|i: int| 0 <= i < less.len() implies (#[trigger] less[i]).0 != key by {
            assert(pairs[i].0 != pairs[n].0);
        }
        lemma_other_key(less, key);
        lemma_put_new(less, key, value);
        assert(less.push((key, value)) =~= pairs);
    }
}

/// Parameters are read back from a query.
proof fn lemma_pairs_read_back<E1, E2>(pairs: Seq<(Seq<char>, Seq<char>)>)
    requires
        pairs.len() > 0,
        has_readable_pairs(pairs),
    ensures
        parsed_query::<E1, E2>(Some(joined(pair_texts(pairs), '&'))) == Ok::<
            QueryView,
            Fault<E1, E2>,
        >(QueryView { lock: None, expiry: None, endpoints: Seq::empty(), unknown_query: pairs }),
{
    let texts = pair_texts(pairs);
    assert forall|i: int| 0 <= i < texts.len() implies free_of(#[trigger] texts[i], '&') by {
        assert(texts[i] == pair_text(pairs[i]));
        lemma_encoded_separators(pairs[i].0);
        lemma_encoded_separators(pairs[i].1);
    }
    lemma_pieces_joined(texts, '&');
    lemma_params_read_back(pairs);
    lemma_other_key(pairs, "lock"@);
    lemma_other_key(pairs, "expiry"@);
    lemma_other_key(pairs, "endpoints"@);
}

/// The query of a request holds parameters of no more than one sort, and they are read back.
pub open spec fn has_readable_query<T, A, L>(request: RequestView<T, A, L>) -> bool {
    &&& request.lock matches Some(lock) ==> {
        &&& lock_reading(lock_text(lock)) == Ok::<Seq<u8>, LockError>(lock)
        &&& is_baid64(lock_text(lock))
        &&& lock.len() <= MAX_LOCK
        &&& request.expiry is None && request.endpoints.len() == 0 && request.unknown_query.len() == 0
    }
    &&& request.expiry matches Some(time) ==> {
        &&& time_reading(time_text(time)) == Ok::<Timestamp, TimeError>(time)
        &&& is_time_text(time_text(time))
        &&& request.endpoints.len() == 0 && request.unknown_query.len() == 0
    }
    &&& request.endpoints.len() > 0 ==> request.unknown_query.len() == 0
    &&& has_readable_endpoints(request.endpoints)
    &&& has_readable_pairs(request.unknown_query)
}

/// The components of the URI of a request.
pub open spec fn uri_parts<T: UriText, A: UriText, L: UriText>(
    request: RequestView<T, A, L>,
) -> UriPartsView {
    UriPartsView {
        scheme: "contract"@,
        authority: false,
        path: request.path_text(),
        query: if request.has_query() {
            Some(request.query_text())
        } else {
            None
        },
    }
}

/// A request which was written as a URI is read back from it, where the call data are absent or a
/// number, and the query holds parameters of no more than one sort.
pub proof fn law_request_reads_back<T: UriText, A: UriText, L: UriText>(
    request: RequestView<T, A, L>,
)
    requires
        has_valid_names(request),
        has_readable_ids(request),
        request.data matches Some(data) ==> has_number_text(data),
        has_readable_query(request),
    ensures
        plain_uri(uri_parts(request)) == request.uri_text(),
        parsed::<T, A, L>(uri_parts(request)) == Ok::<RequestView<T, A, L>, Fault<T::Err, A::Err>>(
            request,
        ),
{
    reveal_strlit("contract:");
    reveal_strlit("contract");
    assert("contract:"@ =~= "contract"@ + seq![':']);
    assert(plain_uri(uri_parts(request)) =~= request.uri_text());
    lemma_path_reads_back(request);
    assert(request.path_text()[0] != '/') by {
        let layer1 = request.layer1.text();
        if layer1.len() > 0 {
            assert(request.path_text()[0] == layer1[0]);
        } else {
            assert(request.path_text()[0] == '@');
        }
    }
    lemma_query_reads_back(request);
}

/// The query of a request is read back.
proof fn lemma_query_reads_back<T: UriText, A: UriText, L: UriText>(request: RequestView<T, A, L>)
    requires
        has_readable_query(request),
    ensures
        parsed_query::<T::Err, A::Err>(uri_parts(request).query) == Ok::<
            QueryView,
            Fault<T::Err, A::Err>,
        >(
            QueryView {
                lock: request.lock,
                expiry: request.expiry,
                endpoints: request.endpoints,
                unknown_query: request.unknown_query,
            },
        ),
{
    let pairs = request.unknown_query;
    let query = request.query_text();
    let none = Seq::<char>::empty();
    if pairs.len() == 0 {
        assert(pair_texts(pairs).len() == 0);
        assert(joined(pair_texts(pairs), '&') == none);
        assert(pairs =~= Seq::empty());
    }
    if request.endpoints.len() == 0 {
        assert(request.endpoints =~= Seq::empty());
    }
    if let Some(lock) = request.lock {
        assert(query =~= "lock="@ + lock_text(lock));
        lemma_lock_reads_back::<T::Err, A::Err>(lock);
    } else if let Some(time) = request.expiry {
        assert(query =~= "expiry="@ + time_text(time));
        lemma_expiry_reads_back::<T::Err, A::Err>(time);
    } else if request.endpoints.len() > 0 {
        assert(query =~= "endpoints="@ + joined(endpoint_texts(request.endpoints), ','));
        lemma_endpoints_read_back::<T::Err, A::Err>(request.endpoints);
    } else if pairs.len() > 0 {
        assert(query =~= joined(pair_texts(pairs), '&'));
        lemma_pairs_read_back::<T::Err, A::Err>(pairs);
    } else {
        lemma_other_key(pairs, "lock"@);
        lemma_other_key(pairs, "expiry"@);
        lemma_other_key(pairs, "endpoints"@);
    }
}

} // verus!
