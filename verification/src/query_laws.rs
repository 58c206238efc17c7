//! The parts of a request URI are read and written independently of each other.

use crate::percent::{decoded_text, encoded_text};
use crate::text::{
    all_digits, decimal, digits_value, divided, first_position, is_digit, lemma_decimal,
    lemma_first_position, number_of, pieces,
};
use crate::uri::{
    endpoint_kind, endpoint_texts, joined, merged, pair_texts, parsed, parsed_endpoints,
    parsed_pairs, parsed_params, parsed_path, parsed_query, CallStateView, EndpointKind, Fault, PathView,
    QueryView, RequestView, UriText,
};
use crate::uri_bridge::{
    found, is_type_name, is_variant_name, lock_reading, lock_text, number_value, put, string_value,
    time_reading, time_text, type_name_error, value_text, variant_name_error, without, Timestamp,
    UriPartsView,
};
use baid64::base64::DecodeError as LockError;
use chrono::ParseError as TimeError;
use vstd::prelude::*;

verus! {

/// A text is divided at the first separator, and only where there is one.
pub proof fn law_text_is_divided_at_the_first_separator(text: Seq<char>, c: char)
    ensures
        divided(text, c) is None <==> !text.contains(c),
        divided(text, c) matches Some((head, tail)) ==> text == head + seq![c] + tail
            && !head.contains(c),
{
    lemma_first_position(text, c);
    let at = first_position(text, c);
    if at < text.len() {
        assert(text.contains(text[at]));
        assert(text =~= text.take(at) + seq![c] + text.skip(at + 1));
        if text.take(at).contains(c) {
            let i = choose|i: int| 0 <= i < at && text.take(at)[i] == c;
            assert(text[i] == c);
        }
    } else if text.contains(c) {
        let i = choose|i: int| 0 <= i < text.len() && text[i] == c;
        assert(text[i] != c);
    }
}

/// Texts begin with the first one and a separator.
proof fn lemma_joined_front(texts: Seq<Seq<char>>, c: char)
    requires
        texts.len() >= 2,
    ensures
        joined(texts, c) == texts[0] + seq![c] + joined(texts.skip(1), c),
    decreases texts.len(),
{
    let rest = texts.skip(1);
    if texts.len() == 2 {
        assert(joined(texts.drop_last(), c) == texts[0]);
        assert(joined(rest, c) == texts[1]);
    } else {
        lemma_joined_front(texts.drop_last(), c);
        assert(texts.drop_last().skip(1) =~= rest.drop_last());
        assert(joined(texts, c) =~= texts[0] + seq![c] + joined(rest, c));
    }
}

/// The pieces of a text hold no separator, and joined by it they are the text again.
pub proof fn law_pieces_make_the_text(text: Seq<char>, c: char)
    ensures
        pieces(text, c).len() >= 1,
        joined(pieces(text, c), c) == text,
        forall|i: int| 0 <= i < pieces(text, c).len() ==> !(#[trigger] pieces(text, c)[i]).contains(c),
    decreases text.len(),
{
    lemma_first_position(text, c);
    law_text_is_divided_at_the_first_separator(text, c);
    let at = first_position(text, c);
    if at < text.len() {
        let rest = text.skip(at + 1);
        law_pieces_make_the_text(rest, c);
        let list = pieces(text, c);
        assert(list.skip(1) =~= pieces(rest, c));
        lemma_joined_front(list, c);
        assert forall|i: int| 0 <= i < list.len() implies !(#[trigger] list[i]).contains(c) by {
            if i > 0 {
                assert(list[i] == pieces(rest, c)[i - 1]);
            }
        }
    }
}

/// The key of a parameter.
pub open spec fn key_of(param: Seq<char>) -> Seq<char> {
    decoded_text(divided(param, '=')->Some_0.0)
}

/// The value of a parameter.
pub open spec fn value_of(param: Seq<char>) -> Seq<char> {
    decoded_text(divided(param, '=')->Some_0.1)
}

/// The values which the parameters have under a key, in their order.
pub open spec fn values_under(params: Seq<Seq<char>>, key: Seq<char>) -> Seq<Seq<char>> {
    params.filter(|param: Seq<char>| key_of(param) == key).map_values(
        |param: Seq<char>| value_of(param),
    )
}

/// What the parameters give under a key: all its values with a comma between them.
pub open spec fn given(params: Seq<Seq<char>>, key: Seq<char>) -> Option<Seq<char>> {
    if values_under(params, key).len() == 0 {
        None
    } else {
        Some(joined(values_under(params, key), ','))
    }
}

/// No key repeats.
pub open spec fn distinct_keys(pairs: Seq<(Seq<char>, Seq<char>)>) -> bool {
    forall|i: int, j: int|
        0 <= i < j < pairs.len() ==> (#[trigger] pairs[i]).0 != (#[trigger] pairs[j]).0
}

/// The parameter with the given number is the first one with its key.
pub open spec fn is_first(params: Seq<Seq<char>>, m: int, key: Seq<char>) -> bool {
    &&& 0 <= m < params.len()
    &&& key_of(params[m]) == key
    &&& forall|n: int| 0 <= n < m ==> key_of(#[trigger] params[n]) != key
}

/// One key comes first before another one does.
pub open spec fn comes_before(params: Seq<Seq<char>>, one: Seq<char>, other: Seq<char>) -> bool {
    exists|m: int, n: int|
        m < n && #[trigger] is_first(params, m, one) && #[trigger] is_first(params, n, other)
}

/// The keys stand in the order in which they come first.
pub open spec fn in_first_order(
    params: Seq<Seq<char>>,
    pairs: Seq<(Seq<char>, Seq<char>)>,
) -> bool {
    forall|i: int, j: int|
        0 <= i < j < pairs.len() ==> comes_before(
            params,
            (#[trigger] pairs[i]).0,
            (#[trigger] pairs[j]).0,
        )
}

/// The value found under a key is that of a pair with the key.
proof fn lemma_found(pairs: Seq<(Seq<char>, Seq<char>)>, key: Seq<char>)
    ensures
        found(pairs, key) matches Some(value) ==> pairs.contains((key, value)),
        found(pairs, key) is None ==> forall|i: int|
            0 <= i < pairs.len() ==> (#[trigger] pairs[i]).0 != key,
        distinct_keys(pairs) ==> forall|i: int|
            0 <= i < pairs.len() && (#[trigger] pairs[i]).0 == key ==> found(pairs, key) == Some(
                pairs[i].1,
            ),
    decreases pairs.len(),
{
    if pairs.len() > 0 {
        let rest = pairs.skip(1);
        assert forall|i: int| 0 <= i < rest.len() implies rest[i] == pairs[i + 1] by {}
        lemma_found(rest, key);
        if pairs[0].0 == key {
            assert(pairs[0] == (key, pairs[0].1));
            if distinct_keys(pairs) {
                assert forall|i: int|
                    0 <= i < pairs.len() && (#[trigger] pairs[i]).0 == key implies found(
                    pairs,
                    key,
                ) == Some(pairs[i].1) by {
                    if i > 0 {
                        assert(pairs[0].0 != pairs[i].0);
                    }
                }
            }
        } else {
            if let Some(value) = found(rest, key) {
                let i = choose|i: int| 0 <= i < rest.len() && rest[i] == (key, value);
                assert(pairs[i + 1] == (key, value));
            }
            assert forall|i: int| 0 <= i < pairs.len() && i > 0 implies pairs[i] == rest[i - 1] by {}
            if found(pairs, key) is None {
                assert forall|i: int| 0 <= i < pairs.len() implies (#[trigger] pairs[i]).0 != key by {
                    if i > 0 {
                        assert(rest[i - 1].0 != key);
                    }
                }
            }
            if distinct_keys(pairs) {
                assert(distinct_keys(rest)) by {
                    assert forall|i: int, j: int| 0 <= i < j < rest.len() implies (
                    #[trigger] rest[i]).0 != (#[trigger] rest[j]).0 by {
                        assert(pairs[i + 1].0 != pairs[j + 1].0);
                    }
                }
                assert forall|i: int|
                    0 <= i < pairs.len() && (#[trigger] pairs[i]).0 == key implies found(
                    pairs,
                    key,
                ) == Some(pairs[i].1) by {
                    if i > 0 {
                        assert(rest[i - 1].0 == key);
                    }
                }
            }
        }
    }
}

/// A value is put in place of the earlier one, or at the end.
proof fn lemma_put(pairs: Seq<(Seq<char>, Seq<char>)>, key: Seq<char>, value: Seq<char>)
    requires
        distinct_keys(pairs),
    ensures
        found(pairs, key) is None ==> put(pairs, key, value) == pairs.push((key, value)),
        forall|i: int|
            0 <= i < pairs.len() && (#[trigger] pairs[i]).0 == key ==> put(pairs, key, value)
                == pairs.update(i, (key, value)),
    decreases pairs.len(),
{
    if pairs.len() == 0 {
        assert(pairs.push((key, value)) =~= seq![(key, value)]);
    } else {
        let rest = pairs.skip(1);
        assert forall|i: int, j: int| 0 <= i < j < rest.len() implies (#[trigger] rest[i]).0 != (
        #[trigger] rest[j]).0 by {
            assert(pairs[i + 1].0 != pairs[j + 1].0);
        }
        lemma_put(rest, key, value);
        if pairs[0].0 == key {
            assert forall|i: int| 0 <= i < pairs.len() && (#[trigger] pairs[i]).0 == key implies put(
                pairs,
                key,
                value,
            ) == pairs.update(i, (key, value)) by {
                if i > 0 {
                    assert(pairs[0].0 != pairs[i].0);
                }
            }
        } else {
            if found(pairs, key) is None {
                assert(put(pairs, key, value) =~= pairs.push((key, value)));
            }
            assert forall|i: int| 0 <= i < pairs.len() && (#[trigger] pairs[i]).0 == key implies put(
                pairs,
                key,
                value,
            ) == pairs.update(i, (key, value)) by {
                assert(rest[i - 1].0 == key);
                assert(put(pairs, key, value) =~= pairs.update(i, (key, value)));
            }
        }
    }
}

/// One more parameter adds its value under its key, and changes nothing under the others.
proof fn lemma_values_step(params: Seq<Seq<char>>, key: Seq<char>)
    requires
        params.len() > 0,
    ensures
        key_of(params.last()) == key ==> values_under(params, key) == values_under(
            params.drop_last(),
            key,
        ).push(value_of(params.last())),
        key_of(params.last()) != key ==> values_under(params, key) == values_under(
            params.drop_last(),
            key,
        ),
{
    reveal(Seq::filter);
    let pred = |param: Seq<char>| key_of(param) == key;
    let less = params.drop_last().filter(pred);
    if key_of(params.last()) == key {
        assert(params.filter(pred) == less.push(params.last()));
        assert(values_under(params, key) =~= values_under(params.drop_last(), key).push(
            value_of(params.last()),
        ));
    }
}

/// Each parameter of a query has a key and a value, and the pairs hold all of them: under each key
/// the values of its parameters, in their order, with a comma between them. No key repeats, and the
/// keys stand in the order in which they come first. Where a parameter has no value, the first such
/// one is named.
pub proof fn law_pairs_hold_every_parameter(params: Seq<Seq<char>>)
    ensures
        match parsed_params(params) {
            Err(param) => exists|i: int|
                0 <= i < params.len() && #[trigger] params[i] == param && !param.contains('=')
                    && forall|j: int| 0 <= j < i ==> (#[trigger] params[j]).contains('='),
            Ok(pairs) => {
                &&& forall|i: int| 0 <= i < params.len() ==> (#[trigger] params[i]).contains('=')
                &&& distinct_keys(pairs)
                &&& forall|key: Seq<char>, value: Seq<char>| #[trigger]
                    pairs.contains((key, value)) <==> given(params, key) == Some(value)
                &&& in_first_order(params, pairs)
            },
        },
    decreases params.len(),
{
    if params.len() == 0 {
        reveal(Seq::filter);
        assert forall|key: Seq<char>, value: Seq<char>| #[trigger]
            Seq::<(Seq<char>, Seq<char>)>::empty().contains((key, value)) <==> given(params, key)
                == Some(value) by {
            assert(values_under(params, key).len() == 0);
        }
    } else {
        let less = params.drop_last();
        let last = params.last();
        let n = less.len() as int;
        law_pairs_hold_every_parameter(less);
        law_text_is_divided_at_the_first_separator(last, '=');
        assert forall|i: int| 0 <= i < n implies less[i] == params[i] by {}
        assert(params[n] == last);
        match parsed_params(less) {
            Err(param) => {
                let i = choose|i: int|
                    0 <= i < less.len() && #[trigger] less[i] == param && !param.contains('=')
                        && forall|j: int| 0 <= j < i ==> (#[trigger] less[j]).contains('=');
                assert(params[i] == param);
                assert forall|j: int| 0 <= j < i implies (#[trigger] params[j]).contains('=') by {
                    assert(less[j].contains('='));
                }
            },
            Ok(earlier) => {
                assert forall|j: int| 0 <= j < n implies (#[trigger] params[j]).contains('=') by {
                    assert(less[j].contains('='));
                }
                if last.contains('=') {
                    lemma_one_more_parameter(params, earlier);
                } else {
                    assert(params[n] == last);
                }
            },
        }
    }
}

/// The pairs hold one more parameter.
proof fn lemma_one_more_parameter(params: Seq<Seq<char>>, earlier: Seq<(Seq<char>, Seq<char>)>)
    requires
        params.len() > 0,
        distinct_keys(earlier),
        forall|key: Seq<char>, value: Seq<char>| #[trigger]
            earlier.contains((key, value)) <==> given(params.drop_last(), key) == Some(value),
        in_first_order(params.drop_last(), earlier),
    ensures
        ({
            let pairs = merged(earlier, key_of(params.last()), value_of(params.last()));
            &&& distinct_keys(pairs)
            &&& forall|key: Seq<char>, value: Seq<char>| #[trigger]
                pairs.contains((key, value)) <==> given(params, key) == Some(value)
            &&& in_first_order(params, pairs)
        }),
{
    let less = params.drop_last();
    let new_key = key_of(params.last());
    let new_value = value_of(params.last());
    let pairs = merged(earlier, new_key, new_value);
    let last = params.len() - 1;
    lemma_found(earlier, new_key);
    assert forall|m: int, key: Seq<char>| is_first(less, m, key) implies #[trigger] is_first(
        params,
        m,
        key,
    ) by {
        assert(params[m] == less[m]);
        assert forall|n: int| 0 <= n < m implies key_of(#[trigger] params[n]) != key by {
            assert(params[n] == less[n]);
        }
    }
    match found(earlier, new_key) {
        Some(value) => {
            let at = choose|i: int| 0 <= i < earlier.len() && earlier[i] == (new_key, value);
            let whole = value + seq![','] + new_value;
            lemma_put(earlier, new_key, whole);
            assert(earlier[at].0 == new_key);
            assert(pairs == earlier.update(at, (new_key, whole)));
            assert forall|i: int| 0 <= i < pairs.len() implies (#[trigger] pairs[i]).0
                == earlier[i].0 by {}
            assert forall|i: int, j: int| 0 <= i < j < pairs.len() implies (#[trigger] pairs[i]).0
                != (#[trigger] pairs[j]).0 by {
                assert(earlier[i].0 != earlier[j].0);
            }
            lemma_values_step(params, new_key);
            let values = values_under(params, new_key);
            assert(given(less, new_key) == Some(value)) by {
                assert(earlier.contains((new_key, value)));
            }
            assert(values.drop_last() =~= values_under(less, new_key));
            assert(values.last() == new_value);
            assert(given(params, new_key) == Some(whole));
            assert forall|key: Seq<char>, v: Seq<char>| #[trigger]
                pairs.contains((key, v)) <==> given(params, key) == Some(v) by {
                if key == new_key {
                    assert(pairs[at] == (new_key, whole));
                    if pairs.contains((key, v)) {
                        let i = choose|i: int| 0 <= i < pairs.len() && pairs[i] == (key, v);
                        if i != at {
                            assert(pairs[i].0 == pairs[at].0);
                        }
                    }
                } else {
                    lemma_values_step(params, key);
                    assert(given(params, key) == given(less, key));
                    assert(earlier.contains((key, v)) <==> given(less, key) == Some(v));
                    if earlier.contains((key, v)) {
                        let i = choose|i: int| 0 <= i < earlier.len() && earlier[i] == (key, v);
                        assert(pairs[i] == (key, v));
                    }
                    if pairs.contains((key, v)) {
                        let i = choose|i: int| 0 <= i < pairs.len() && pairs[i] == (key, v);
                        assert(earlier[i] == (key, v));
                    }
                }
            }
            assert forall|i: int, j: int| 0 <= i < j < pairs.len() implies comes_before(
                params,
                (#[trigger] pairs[i]).0,
                (#[trigger] pairs[j]).0,
            ) by {
                assert(comes_before(less, earlier[i].0, earlier[j].0));
                let (m, n) = choose|m: int, n: int|
                    m < n && #[trigger] is_first(less, m, earlier[i].0) && #[trigger] is_first(
                        less,
                        n,
                        earlier[j].0,
                    );
                assert(is_first(params, m, pairs[i].0));
                assert(is_first(params, n, pairs[j].0));
            }
        },
        None => {
            lemma_put(earlier, new_key, new_value);
            assert(pairs == earlier.push((new_key, new_value)));
            assert forall|i: int, j: int| 0 <= i < j < pairs.len() implies (#[trigger] pairs[i]).0
                != (#[trigger] pairs[j]).0 by {
                assert(earlier[i].0 != new_key);
                if j < earlier.len() {
                    assert(earlier[i].0 != earlier[j].0);
                }
            }
            assert(given(less, new_key) is None) by {
                if let Some(v) = given(less, new_key) {
                    assert(earlier.contains((new_key, v)));
                    let i = choose|i: int| 0 <= i < earlier.len() && earlier[i] == (new_key, v);
                    assert(earlier[i].0 != new_key);
                }
            }
            lemma_values_step(params, new_key);
            assert(values_under(params, new_key) =~= seq![new_value]);
            assert(given(params, new_key) == Some(new_value));
            assert forall|key: Seq<char>, v: Seq<char>| #[trigger]
                pairs.contains((key, v)) <==> given(params, key) == Some(v) by {
                let n = earlier.len() as int;
                assert(pairs[n] == (new_key, new_value));
                assert forall|i: int| 0 <= i < n implies pairs[i] == earlier[i] by {}
                if key == new_key {
                    if pairs.contains((key, v)) {
                        let i = choose|i: int| 0 <= i < pairs.len() && pairs[i] == (key, v);
                        if i < n {
                            assert(earlier[i].0 != new_key);
                        }
                    }
                } else {
                    lemma_values_step(params, key);
                    assert(given(params, key) == given(less, key));
                    assert(earlier.contains((key, v)) <==> given(less, key) == Some(v));
                    if earlier.contains((key, v)) {
                        let i = choose|i: int| 0 <= i < earlier.len() && earlier[i] == (key, v);
                        assert(pairs[i] == (key, v));
                    }
                    if pairs.contains((key, v)) {
                        let i = choose|i: int| 0 <= i < pairs.len() && pairs[i] == (key, v);
                        assert(earlier[i] == (key, v));
                    }
                }
            }
            assert(is_first(params, last, new_key)) by {
                assert forall|n: int| 0 <= n < last implies key_of(#[trigger] params[n]) != new_key by {
                    if key_of(params[n]) == new_key {
                        lemma_value_is_given(less, n);
                    }
                }
            }
            assert forall|i: int, j: int| 0 <= i < j < pairs.len() implies comes_before(
                params,
                (#[trigger] pairs[i]).0,
                (#[trigger] pairs[j]).0,
            ) by {
                if j < earlier.len() {
                    assert(comes_before(less, earlier[i].0, earlier[j].0));
                    let (m, n) = choose|m: int, n: int|
                        m < n && #[trigger] is_first(less, m, earlier[i].0) && #[trigger] is_first(
                            less,
                            n,
                            earlier[j].0,
                        );
                    assert(is_first(params, m, pairs[i].0));
                    assert(is_first(params, n, pairs[j].0));
                } else {
                    let key = earlier[i].0;
                    assert(earlier.contains((key, earlier[i].1)));
                    let m = lemma_given_has_first(less, key);
                    assert(is_first(params, m, pairs[i].0));
                    assert(is_first(params, last, pairs[j].0));
                }
            }
        },
    }
}

/// A parameter gives a value under its key.
proof fn lemma_value_is_given(params: Seq<Seq<char>>, i: int)
    requires
        0 <= i < params.len(),
    ensures
        given(params, key_of(params[i])) is Some,
    decreases params.len(),
{
    let key = key_of(params[i]);
    lemma_values_step(params, key);
    if i < params.len() - 1 {
        assert(params.drop_last()[i] == params[i]);
        lemma_value_is_given(params.drop_last(), i);
    }
}

/// Where a value is given, there is a first parameter which gives it.
proof fn lemma_given_has_first(params: Seq<Seq<char>>, key: Seq<char>) -> (m: int)
    requires
        given(params, key) is Some,
    ensures
        is_first(params, m, key),
    decreases params.len(),
{
    if params.len() == 0 {
        reveal(Seq::filter);
        assert(values_under(params, key).len() == 0);
        0
    } else {
        let less = params.drop_last();
        lemma_values_step(params, key);
        if given(less, key) is Some {
            let m = lemma_given_has_first(less, key);
            assert(params[m] == less[m]);
            assert forall|n: int| 0 <= n < m implies key_of(#[trigger] params[n]) != key by {
                assert(params[n] == less[n]);
            }
            m
        } else {
            let m = params.len() - 1;
            assert forall|n: int| 0 <= n < m implies key_of(#[trigger] params[n]) != key by {
                if key_of(params[n]) == key {
                    assert(less[n] == params[n]);
                    lemma_value_is_given(less, n);
                }
            }
            m
        }
    }
}

/// The pairs which are not under a key are left, in their order.
proof fn lemma_without(
    pairs: Seq<(Seq<char>, Seq<char>)>,
    key: Seq<char>,
    pred: spec_fn((Seq<char>, Seq<char>)) -> bool,
)
    requires
        distinct_keys(pairs),
        forall|pair: (Seq<char>, Seq<char>)| #[trigger] pred(pair) == (pair.0 != key),
    ensures
        without(pairs, key) == pairs.filter(pred),
    decreases pairs.len(),
{
    reveal(Seq::filter);
    if pairs.len() > 0 {
        let rest = pairs.skip(1);
        assert forall|i: int, j: int| 0 <= i < j < rest.len() implies (#[trigger] rest[i]).0 != (
        #[trigger] rest[j]).0 by {
            assert(pairs[i + 1].0 != pairs[j + 1].0);
        }
        lemma_without(rest, key, pred);
        let head = seq![pairs[0]];
        assert(pairs =~= head + rest);
        Seq::filter_distributes_over_add(head, rest, pred);
        assert(head.drop_last() =~= Seq::empty());
        assert(head.drop_last().filter(pred) =~= Seq::empty());
        assert(pred(pairs[0]) == (pairs[0].0 != key));
        if pairs[0].0 == key {
            assert(head.filter(pred) =~= Seq::empty());
            assert forall|i: int| 0 <= i < rest.len() implies (#[trigger] rest[i]).0 != key by {
                assert(pairs[0].0 != pairs[i + 1].0);
            }
            lemma_filter_all(rest, pred);
            assert(Seq::empty() + rest =~= rest);
        } else {
            assert(head.filter(pred) =~= head);
        }
    }
}

/// A filter which everything passes leaves a list as it is.
proof fn lemma_filter_all<X>(list: Seq<X>, pred: spec_fn(X) -> bool)
    requires
        forall|i: int| 0 <= i < list.len() ==> pred(#[trigger] list[i]),
    ensures
        list.filter(pred) == list,
    decreases list.len(),
{
    reveal(Seq::filter);
    if list.len() > 0 {
        let less = list.drop_last();
        assert forall|i: int| 0 <= i < less.len() implies pred(#[trigger] less[i]) by {
            assert(less[i] == list[i]);
        }
        lemma_filter_all(less, pred);
        assert(pred(list[list.len() - 1]));
        assert(less.push(list.last()) =~= list);
    }
}

/// Filtering with one condition and then with another is filtering with both.
proof fn lemma_filter_twice<X>(
    list: Seq<X>,
    one: spec_fn(X) -> bool,
    other: spec_fn(X) -> bool,
    both: spec_fn(X) -> bool,
)
    requires
        forall|x: X| #[trigger] both(x) == (one(x) && other(x)),
    ensures
        list.filter(one).filter(other) == list.filter(both),
    decreases list.len(),
{
    reveal(Seq::filter);
    if list.len() > 0 {
        let less = list.drop_last();
        lemma_filter_twice(less, one, other, both);
        let last = list.last();
        assert(both(last) == (one(last) && other(last)));
        if one(last) {
            assert(less.filter(one).push(last).drop_last() =~= less.filter(one));
        }
    }
}

/// Taking one key away leaves what is under the others, and the keys differ still.
proof fn lemma_other_found(
    pairs: Seq<(Seq<char>, Seq<char>)>,
    gone: Seq<char>,
    key: Seq<char>,
)
    requires
        distinct_keys(pairs),
    ensures
        key != gone ==> found(without(pairs, gone), key) == found(pairs, key),
        distinct_keys(without(pairs, gone)),
        forall|pair: (Seq<char>, Seq<char>)| #[trigger]
            without(pairs, gone).contains(pair) <==> pairs.contains(pair) && pair.0 != gone,
    decreases pairs.len(),
{
    if pairs.len() == 0 {
    } else {
        let rest = pairs.skip(1);
        let left = without(pairs, gone);
        assert forall|i: int, j: int| 0 <= i < j < rest.len() implies (#[trigger] rest[i]).0 != (
        #[trigger] rest[j]).0 by {
            assert(pairs[i + 1].0 != pairs[j + 1].0);
        }
        lemma_other_found(rest, gone, key);
        assert forall|pair: (Seq<char>, Seq<char>)| #[trigger]
            pairs.contains(pair) <==> rest.contains(pair) || pair == pairs[0] by {
            if pairs.contains(pair) {
                let i = choose|i: int| 0 <= i < pairs.len() && pairs[i] == pair;
                if i > 0 {
                    assert(rest[i - 1] == pair);
                }
            }
            if rest.contains(pair) {
                let i = choose|i: int| 0 <= i < rest.len() && rest[i] == pair;
                assert(pairs[i + 1] == pair);
            }
            if pair == pairs[0] {
                assert(pairs[0] == pair);
            }
        }
        if pairs[0].0 == gone {
            assert forall|pair: (Seq<char>, Seq<char>)| #[trigger]
                left.contains(pair) <==> pairs.contains(pair) && pair.0 != gone by {
                if rest.contains(pair) {
                    let i = choose|i: int| 0 <= i < rest.len() && rest[i] == pair;
                    assert(pairs[0].0 != pairs[i + 1].0);
                }
            }
        } else {
            let tail = without(rest, gone);
            assert(left[0] == pairs[0]);
            assert(left.skip(1) =~= tail);
            assert forall|i: int| 0 <= i < tail.len() implies (#[trigger] tail[i]).0 != pairs[0].0 by {
                assert(tail.contains(tail[i]));
                assert(rest.contains(tail[i]));
                let k = choose|k: int| 0 <= k < rest.len() && rest[k] == tail[i];
                assert(pairs[0].0 != pairs[k + 1].0);
            }
            assert forall|i: int, j: int| 0 <= i < j < left.len() implies (#[trigger] left[i]).0 != (
            #[trigger] left[j]).0 by {
                assert(left[j] == tail[j - 1]);
                if i > 0 {
                    assert(left[i] == tail[i - 1]);
                }
            }
            assert forall|pair: (Seq<char>, Seq<char>)| #[trigger]
                left.contains(pair) <==> pairs.contains(pair) && pair.0 != gone by {
                if left.contains(pair) {
                    let i = choose|i: int| 0 <= i < left.len() && left[i] == pair;
                    if i > 0 {
                        assert(tail[i - 1] == pair);
                        assert(tail.contains(pair));
                    }
                }
                if pairs.contains(pair) && pair.0 != gone {
                    if pair == pairs[0] {
                        assert(left[0] == pair);
                    } else {
                        assert(tail.contains(pair));
                        let i = choose|i: int| 0 <= i < tail.len() && tail[i] == pair;
                        assert(left[i + 1] == pair);
                    }
                }
            }
        }
    }
}

/// The endpoints are those of the texts which are not empty.
proof fn lemma_endpoints(texts: Seq<Seq<char>>)
    ensures
        parsed_endpoints(texts) == texts.filter(|text: Seq<char>| text.len() > 0).map_values(
            |text: Seq<char>| (endpoint_kind(text), text),
        ),
    decreases texts.len(),
{
    reveal(Seq::filter);
    let kind = |text: Seq<char>| (endpoint_kind(text), text);
    let pred = |text: Seq<char>| text.len() > 0;
    if texts.len() > 0 {
        let less = texts.drop_last();
        lemma_endpoints(less);
        if texts.last().len() > 0 {
            assert(texts.filter(pred) == less.filter(pred).push(texts.last()));
            assert(less.filter(pred).push(texts.last()).map_values(kind) =~= less.filter(
                pred,
            ).map_values(kind).push(kind(texts.last())));
        }
    } else {
        assert(texts.filter(pred).map_values(kind) =~= Seq::empty());
    }
}

/// What the pairs of a query give under a key.
pub open spec fn value_among(pairs: Seq<(Seq<char>, Seq<char>)>, key: Seq<char>) -> Option<Seq<char>> {
    if exists|value: Seq<char>| pairs.contains((key, value)) {
        Some(choose|value: Seq<char>| pairs.contains((key, value)))
    } else {
        None
    }
}

/// The lock, the expiry time, the endpoints and the unknown parameters of a query are each read of
/// what the query has under their own key, whatever the other keys are.
pub open spec fn reads_each_part(
    lock: Option<Seq<char>>,
    expiry: Option<Seq<char>>,
    endpoints: Option<Seq<char>>,
    query: QueryView,
) -> bool {
    &&& match lock {
        None => query.lock is None,
        Some(text) => (lock_reading(text) matches Ok(bytes) && bytes.len() <= 256 && query.lock
            == Some(bytes)),
    }
    &&& match expiry {
        None => query.expiry is None,
        Some(text) => (time_reading(text) matches Ok(time) && query.expiry == Some(time)),
    }
    &&& match endpoints {
        None => query.endpoints.len() == 0,
        Some(text) => {
            let texts = pieces(text, ',').filter(|piece: Seq<char>| piece.len() > 0);
            &&& query.endpoints.len() == if texts.len() > 10 {
                10
            } else {
                texts.len()
            }
            &&& forall|i: int|
                0 <= i < query.endpoints.len() ==> #[trigger] query.endpoints[i] == (
                    endpoint_kind(texts[i]),
                    texts[i],
                )
        },
    }
}

/// The pairs of a query are read independently of each other: each of the known keys by itself, and
/// the rest is kept in its order. Only what is under the keys of the lock and of the expiry time can
/// be refused.
pub proof fn law_pairs_are_read_independently<E1, E2>(pairs: Seq<(Seq<char>, Seq<char>)>)
    requires
        distinct_keys(pairs),
    ensures
        match parsed_pairs::<E1, E2>(pairs) {
            Ok(query) => {
                &&& reads_each_part(
                    value_among(pairs, "lock"@),
                    value_among(pairs, "expiry"@),
                    value_among(pairs, "endpoints"@),
                    query,
                )
                &&& query.unknown_query == pairs.filter(
                    |pair: (Seq<char>, Seq<char>)|
                        pair.0 != "lock"@ && pair.0 != "expiry"@ && pair.0 != "endpoints"@,
                )
                &&& distinct_keys(query.unknown_query)
                &&& forall|pair: (Seq<char>, Seq<char>)| #[trigger]
                    query.unknown_query.contains(pair) <==> pairs.contains(pair) && pair.0
                        != "lock"@ && pair.0 != "expiry"@ && pair.0 != "endpoints"@
            },
            Err(Fault::LockInvalidEncoding(e)) => (value_among(pairs, "lock"@) matches Some(text)
                && lock_reading(text) == Err::<Seq<u8>, LockError>(e)),
            Err(Fault::LockTooLong) => (value_among(pairs, "lock"@) matches Some(text)
                && lock_reading(text) matches Ok(bytes) && bytes.len() > 256),
            Err(Fault::ExpiryInvalid(e)) => (value_among(pairs, "expiry"@) matches Some(text)
                && time_reading(text) == Err::<Timestamp, TimeError>(e)),
            Err(_) => false,
        },
{
    reveal_strlit("lock");
    reveal_strlit("expiry");
    reveal_strlit("endpoints");
    assert("lock"@[0] == 'l');
    assert("expiry"@[1] == 'x');
    assert("endpoints"@[1] == 'n');
    assert("expiry"@[0] == 'e' && "endpoints"@[0] == 'e');
    let after_lock = without(pairs, "lock"@);
    let after_expiry = without(after_lock, "expiry"@);
    let after_endpoints = without(after_expiry, "endpoints"@);
    lemma_other_found(pairs, "lock"@, "expiry"@);
    lemma_other_found(pairs, "lock"@, "endpoints"@);
    lemma_other_found(after_lock, "expiry"@, "endpoints"@);
    lemma_other_found(after_expiry, "endpoints"@, "lock"@);
    lemma_value_among(pairs, "lock"@);
    lemma_value_among(pairs, "expiry"@);
    lemma_value_among(pairs, "endpoints"@);
    let not_lock = |pair: (Seq<char>, Seq<char>)| pair.0 != "lock"@;
    let not_expiry = |pair: (Seq<char>, Seq<char>)| pair.0 != "expiry"@;
    let not_endpoints = |pair: (Seq<char>, Seq<char>)| pair.0 != "endpoints"@;
    let neither = |pair: (Seq<char>, Seq<char>)| pair.0 != "lock"@ && pair.0 != "expiry"@;
    let none = |pair: (Seq<char>, Seq<char>)|
        pair.0 != "lock"@ && pair.0 != "expiry"@ && pair.0 != "endpoints"@;
    lemma_without(pairs, "lock"@, not_lock);
    lemma_without(after_lock, "expiry"@, not_expiry);
    lemma_without(after_expiry, "endpoints"@, not_endpoints);
    lemma_filter_twice(pairs, not_lock, not_expiry, neither);
    lemma_filter_twice(pairs, neither, not_endpoints, none);
    assert(after_endpoints == pairs.filter(none));
    if let Some(text) = found(after_expiry, "endpoints"@) {
        lemma_endpoints(pieces(text, ','));
    }
}

/// The value under a key is the one which is found.
proof fn lemma_value_among(pairs: Seq<(Seq<char>, Seq<char>)>, key: Seq<char>)
    requires
        distinct_keys(pairs),
    ensures
        value_among(pairs, key) == found(pairs, key),
{
    lemma_found(pairs, key);
    if let Some(value) = value_among(pairs, key) {
        assert(pairs.contains((key, value)));
        let i = choose|i: int| 0 <= i < pairs.len() && pairs[i] == (key, value);
        assert(pairs[i].0 == key);
    } else if let Some(value) = found(pairs, key) {
        assert(pairs.contains((key, value)));
    }
}

/// Where a query has parameters of several sorts, each is read independently of the others. If the
/// query has the key of the expiry time with a text which is a time, the request expires at that
/// time, whatever the other keys are; likewise for the lock, the endpoints, and each of the unknown
/// parameters. A query without a key has nothing of its sort.
pub proof fn law_query_is_read_part_by_part<T: UriText, A: UriText, L: UriText>(
    parts: UriPartsView,
    request: RequestView<T, A, L>,
)
    requires
        parsed::<T, A, L>(parts) == Ok::<RequestView<T, A, L>, Fault<T::Err, A::Err>>(request),
    ensures
        ({
            let query = QueryView {
                lock: request.lock,
                expiry: request.expiry,
                endpoints: request.endpoints,
                unknown_query: request.unknown_query,
            };
            match parts.query {
                None => reads_each_part(None, None, None, query) && request.unknown_query.len() == 0,
                Some(text) => {
                    let params = pieces(text, '&');
                    &&& forall|i: int| 0 <= i < params.len() ==> (#[trigger] params[i]).contains('=')
                    &&& reads_each_part(
                        given(params, "lock"@),
                        given(params, "expiry"@),
                        given(params, "endpoints"@),
                        query,
                    )
                    &&& distinct_keys(request.unknown_query)
                    &&& forall|key: Seq<char>, value: Seq<char>| #[trigger]
                        request.unknown_query.contains((key, value)) <==> given(params, key)
                            == Some(value) && key != "lock"@ && key != "expiry"@ && key
                            != "endpoints"@
                },
            }
        }),
{
    match parts.query {
        None => {
            let none = Seq::<(Seq<char>, Seq<char>)>::empty();
            law_pairs_are_read_independently::<T::Err, A::Err>(none);
            assert forall|key: Seq<char>| #[trigger] value_among(none, key) is None by {}
            reveal(Seq::filter);
        },
        Some(text) => {
            let params = pieces(text, '&');
            law_pairs_hold_every_parameter(params);
            let pairs = parsed_params(params)->Ok_0;
            law_pairs_are_read_independently::<T::Err, A::Err>(pairs);
            assert forall|key: Seq<char>| #[trigger] value_among(pairs, key) == given(params, key) by {
                if let Some(value) = given(params, key) {
                    assert(pairs.contains((key, value)));
                    let other = value_among(pairs, key)->Some_0;
                    assert(pairs.contains((key, other)));
                } else if let Some(value) = value_among(pairs, key) {
                    assert(pairs.contains((key, value)));
                }
            }
        },
    }
}

/// A query is refused for what it names, and only then: the first parameter without a value, a lock
/// or an expiry time which can't be read, or a lock which is too long.
pub proof fn law_refused_query_names_its_fault<E1, E2>(text: Seq<char>)
    ensures
        ({
            let params = pieces(text, '&');
            let lock = given(params, "lock"@);
            let expiry = given(params, "expiry"@);
            let all_pairs = forall|i: int|
                0 <= i < params.len() ==> (#[trigger] params[i]).contains('=');
            match parsed_query::<E1, E2>(Some(text)) {
                Ok(_) => all_pairs,
                Err(Fault::QueryParamInvalid(param)) => exists|i: int|
                    0 <= i < params.len() && #[trigger] params[i] == param && !param.contains('=')
                        && forall|j: int| 0 <= j < i ==> (#[trigger] params[j]).contains('='),
                Err(Fault::LockInvalidEncoding(e)) => all_pairs && (lock matches Some(text)
                    && lock_reading(text) == Err::<Seq<u8>, LockError>(e)),
                Err(Fault::LockTooLong) => all_pairs && (lock matches Some(text) && lock_reading(
                    text,
                ) matches Ok(bytes) && bytes.len() > 256),
                Err(Fault::ExpiryInvalid(e)) => all_pairs && (expiry matches Some(text)
                    && time_reading(text) == Err::<Timestamp, TimeError>(e)),
                Err(_) => false,
            }
        }),
{
    let params = pieces(text, '&');
    law_pairs_hold_every_parameter(params);
    if let Ok(pairs) = parsed_params(params) {
        law_pairs_are_read_independently::<E1, E2>(pairs);
        assert forall|key: Seq<char>| #[trigger] value_among(pairs, key) == given(params, key) by {
            if let Some(value) = given(params, key) {
                assert(pairs.contains((key, value)));
                let other = value_among(pairs, key)->Some_0;
                assert(pairs.contains((key, other)));
            } else if let Some(value) = value_among(pairs, key) {
                assert(pairs.contains((key, value)));
            }
        }
    }
}

/// The path of a request is read segment by segment: layer 1 and the scope around the first `@` of
/// the first one, the authority token in the one before the last, after the call data and an `@`
/// where there is one, and the API, the method and the state in between. The last segment is empty.
pub proof fn law_path_is_read_segment_by_segment<T: UriText, A: UriText, L: UriText>(
    segments: Seq<Seq<char>>,
    path: PathView<T, A, L>,
)
    requires
        segments.len() >= 1,
        parsed_path::<T, A, L>(segments) == Ok::<PathView<T, A, L>, Fault<T::Err, A::Err>>(path),
    ensures
        segments.len() >= 3,
        segments.last().len() == 0,
        exists|layer1: Seq<char>, scope: Seq<char>|
            {
                &&& segments[0] == layer1 + seq!['@'] + scope
                &&& !layer1.contains('@')
                &&& #[trigger] L::reading(layer1) == Ok::<L, L::Err>(path.layer1)
                &&& #[trigger] T::reading(scope) == Ok::<T, T::Err>(path.scope)
            },
        match path.data {
            None => !segments[segments.len() - 2].contains('@') && A::reading(
                segments[segments.len() - 2],
            ) == Ok::<A, A::Err>(path.auth),
            Some(value) => exists|data: Seq<char>, auth: Seq<char>|
                {
                    &&& segments[segments.len() - 2] == data + seq!['@'] + auth
                    &&& !data.contains('@')
                    &&& #[trigger] A::reading(auth) == Ok::<A, A::Err>(path.auth)
                    &&& #[trigger] number_of(data) is Some ==> value == number_value(
                        number_of(data)->Some_0,
                    )
                    &&& number_of(data) is None ==> value == string_value(data)
                },
        },
        match path.api {
            None => segments.len() == 3 && path.call is None,
            Some(api) => segments.len() >= 4 && api == segments[1] && is_type_name(api),
        },
        match path.call {
            None => segments.len() <= 4,
            Some(call) => {
                &&& segments.len() >= 5
                &&& call.method == segments[2]
                &&& is_variant_name(call.method)
                &&& match call.owned {
                    None => segments.len() == 5,
                    Some(owned) => segments.len() >= 6 && owned == segments[3] && is_variant_name(
                        owned,
                    ),
                }
            },
        },
{
    let n = segments.len() as int;
    law_text_is_divided_at_the_first_separator(segments[0], '@');
    let (layer1, scope) = divided(segments[0], '@')->Some_0;
    assert(L::reading(layer1) == Ok::<L, L::Err>(path.layer1));
    assert(T::reading(scope) == Ok::<T, T::Err>(path.scope));
    law_text_is_divided_at_the_first_separator(segments[n - 2], '@');
    if let Some((data, auth)) = divided(segments[n - 2], '@') {
        assert(A::reading(auth) == Ok::<A, A::Err>(path.auth));
        assert(number_of(data) is Some || number_of(data) is None);
    }
    let middle = segments.subrange(1, n - 2);
    assert(middle.len() == n - 3);
    if middle.len() > 0 {
        assert(middle[0] == segments[1]);
    }
    if middle.len() > 1 {
        assert(middle[1] == segments[2]);
    }
    if middle.len() > 2 {
        assert(middle[2] == segments[3]);
    }
}

/// A request with nothing to put into its query.
pub open spec fn bare<T, A, L>(request: RequestView<T, A, L>) -> RequestView<T, A, L> {
    RequestView {
        lock: None,
        expiry: None,
        endpoints: Seq::empty(),
        unknown_query: Seq::empty(),
        ..request
    }
}

/// The query of a request is written part by part: it is the query of its lock alone, then that of
/// its expiry time, then that of its endpoints, then that of its unknown parameters. There is a query
/// if and only if one of them is there, and the path does not depend on any of them.
pub proof fn law_query_is_written_part_by_part<T: UriText, A: UriText, L: UriText>(
    request: RequestView<T, A, L>,
)
    ensures
        request.query_text() == (RequestView {
            lock: request.lock,
            ..bare(request)
        }).query_text() + (RequestView { expiry: request.expiry, ..bare(request) }).query_text() + (
        RequestView { endpoints: request.endpoints, ..bare(request) }).query_text() + (RequestView {
            unknown_query: request.unknown_query,
            ..bare(request)
        }).query_text(),
        request.has_query() <==> !(request.lock is None && request.expiry is None
            && request.endpoints.len() == 0 && request.unknown_query.len() == 0),
        request.has_query() ==> request.uri_text() == bare(request).uri_text() + seq!['?']
            + request.query_text(),
        !request.has_query() ==> request.uri_text() == bare(request).uri_text(),
        forall|lock: Seq<u8>|
            (RequestView { lock: Some(lock), ..bare(request) }).query_text() == "lock="@
                + #[trigger] lock_text(lock),
        forall|time: Timestamp|
            (RequestView { expiry: Some(time), ..bare(request) }).query_text() == "expiry="@
                + #[trigger] time_text(time),
{
    assert(joined(pair_texts(Seq::empty()), '&') =~= Seq::empty());
    assert(request.query_text() =~= (RequestView {
        lock: request.lock,
        ..bare(request)
    }).query_text() + (RequestView { expiry: request.expiry, ..bare(request) }).query_text() + (
    RequestView { endpoints: request.endpoints, ..bare(request) }).query_text() + (RequestView {
        unknown_query: request.unknown_query,
        ..bare(request)
    }).query_text());
    assert(bare(request).uri_text() =~= "contract:"@ + request.path_text());
    assert(request.has_query() ==> request.uri_text() =~= bare(request).uri_text() + seq!['?']
        + request.query_text());
    assert forall|lock: Seq<u8>|
        (RequestView { lock: Some(lock), ..bare(request) }).query_text() == "lock="@
            + #[trigger] lock_text(lock) by {
        assert((RequestView { lock: Some(lock), ..bare(request) }).query_text() =~= "lock="@
            + lock_text(lock));
    }
    assert forall|time: Timestamp|
        (RequestView { expiry: Some(time), ..bare(request) }).query_text() == "expiry="@
            + #[trigger] time_text(time) by {
        assert((RequestView { expiry: Some(time), ..bare(request) }).query_text() =~= "expiry="@
            + time_text(time));
    }
}

/// One more endpoint comes after the others, behind a comma, and one more unknown parameter behind an
/// ampersand, each of them percent-encoded.
pub proof fn law_one_more_parameter_is_written_last<T: UriText, A: UriText, L: UriText>(
    request: RequestView<T, A, L>,
    endpoint: (EndpointKind, Seq<char>),
    pair: (Seq<char>, Seq<char>),
)
    ensures
        ({
            let before = RequestView { endpoints: request.endpoints, ..bare(request) };
            let after = RequestView { endpoints: request.endpoints.push(endpoint), ..bare(request) };
            after.query_text() == if request.endpoints.len() == 0 {
                "endpoints="@ + encoded_text(endpoint.1)
            } else {
                before.query_text() + seq![','] + encoded_text(endpoint.1)
            }
        }),
        ({
            let before = RequestView { unknown_query: request.unknown_query, ..bare(request) };
            let after = RequestView {
                unknown_query: request.unknown_query.push(pair),
                ..bare(request)
            };
            after.query_text() == if request.unknown_query.len() == 0 {
                encoded_text(pair.0) + seq!['='] + encoded_text(pair.1)
            } else {
                before.query_text() + seq!['&'] + encoded_text(pair.0) + seq!['='] + encoded_text(
                    pair.1,
                )
            }
        }),
{
    let one = RequestView { endpoints: request.endpoints.push(endpoint), ..bare(request) };
    let texts = endpoint_texts(request.endpoints.push(endpoint));
    assert(texts.drop_last() =~= endpoint_texts(request.endpoints));
    assert(joined(pair_texts(Seq::empty()), '&') =~= Seq::empty());
    if request.endpoints.len() == 0 {
        assert(joined(texts, ',') == encoded_text(endpoint.1));
        assert(one.query_text() =~= "endpoints="@ + encoded_text(endpoint.1));
    } else {
        let before = RequestView { endpoints: request.endpoints, ..bare(request) };
        assert(one.query_text() =~= before.query_text() + seq![','] + encoded_text(endpoint.1));
    }
    let other = RequestView { unknown_query: request.unknown_query.push(pair), ..bare(request) };
    let pairs = pair_texts(request.unknown_query.push(pair));
    assert(pairs.drop_last() =~= pair_texts(request.unknown_query));
    if request.unknown_query.len() == 0 {
        assert(joined(pairs, '&') == pairs[0]);
        assert(other.query_text() =~= encoded_text(pair.0) + seq!['='] + encoded_text(pair.1));
    } else {
        let before = RequestView { unknown_query: request.unknown_query, ..bare(request) };
        assert(other.query_text() =~= before.query_text() + seq!['&'] + encoded_text(pair.0) + seq![
            '=',
        ] + encoded_text(pair.1));
    }
}

/// The path of a request is written part by part: the API, the method, the state and the call data
/// each add a segment, or a part of one, of their own, whatever the others are.
pub proof fn law_path_is_written_part_by_part<T: UriText, A: UriText, L: UriText>(
    request: RequestView<T, A, L>,
)
    ensures
        ({
            let head = request.layer1.text() + seq!['@'] + request.scope.bare_text() + seq!['/'];
            let api = match request.api {
                Some(api) => api + seq!['/'],
                None => Seq::empty(),
            };
            let tail = request.auth.text() + seq!['/'];
            let data = match request.data {
                Some(data) => encoded_text(value_text(data)) + seq!['@'],
                None => Seq::empty(),
            };
            match request.call {
                None => request.path_text() == head + api + data + tail,
                Some(CallStateView { method, owned: None }) => request.path_text() == head + api
                    + method + seq!['/'] + data + tail,
                Some(CallStateView { method, owned: Some(owned) }) => request.path_text() == head
                    + api + method + seq!['/'] + owned + seq!['/'] + data + tail,
            }
        }),
{
    let head = request.layer1.text() + seq!['@'] + request.scope.bare_text() + seq!['/'];
    let api = match request.api {
        Some(api) => api + seq!['/'],
        None => Seq::empty(),
    };
    let tail = request.auth.text() + seq!['/'];
    let data = match request.data {
        Some(data) => encoded_text(value_text(data)) + seq!['@'],
        None => Seq::empty(),
    };
    match request.call {
        None => {
            assert(request.path_text() =~= head + api + data + tail);
        },
        Some(CallStateView { method, owned: None }) => {
            assert(request.path_text() =~= head + api + method + seq!['/'] + data + tail);
        },
        Some(CallStateView { method, owned: Some(owned) }) => {
            assert(request.path_text() =~= head + api + method + seq!['/'] + owned + seq!['/'] + data
                + tail);
        },
    }
}

/// The kind of an endpoint goes by its scheme, whatever follows it; a text with no known scheme is an
/// endpoint of an unspecified kind.
pub proof fn law_endpoint_goes_by_its_scheme(rest: Seq<char>, text: Seq<char>)
    ensures
        endpoint_kind("http+json-rpc://"@ + rest) == EndpointKind::JsonRpc,
        endpoint_kind("https+json-rpc://"@ + rest) == EndpointKind::JsonRpc,
        endpoint_kind("http://"@ + rest) == EndpointKind::RestHttp,
        endpoint_kind("https://"@ + rest) == EndpointKind::RestHttp,
        endpoint_kind("ws://"@ + rest) == EndpointKind::WebSockets,
        endpoint_kind("wss://"@ + rest) == EndpointKind::WebSockets,
        endpoint_kind("storm://"@ + rest) == EndpointKind::Storm,
        endpoint_kind(text) != EndpointKind::Unspecified ==> exists|tail: Seq<char>|
            {
                ||| text == #[trigger] ("http+json-rpc://"@ + tail)
                ||| text == "https+json-rpc://"@ + tail
                ||| text == "http://"@ + tail
                ||| text == "https://"@ + tail
                ||| text == "ws://"@ + tail
                ||| text == "wss://"@ + tail
                ||| text == "storm://"@ + tail
            },
{
    reveal_strlit("http+json-rpc://");
    reveal_strlit("https+json-rpc://");
    reveal_strlit("http://");
    reveal_strlit("https://");
    reveal_strlit("ws://");
    reveal_strlit("wss://");
    reveal_strlit("storm://");
    lemma_begins("http+json-rpc://"@, rest);
    lemma_begins("https+json-rpc://"@, rest);
    lemma_begins("http://"@, rest);
    lemma_begins("https://"@, rest);
    lemma_begins("ws://"@, rest);
    lemma_begins("wss://"@, rest);
    lemma_begins("storm://"@, rest);
    let http = "http://"@ + rest;
    let https = "https://"@ + rest;
    let ws = "ws://"@ + rest;
    let wss = "wss://"@ + rest;
    let storm = "storm://"@ + rest;
    assert(http[4] == ':' && https[4] == 's' && https[5] == ':');
    assert(ws[0] == 'w' && ws[2] == ':' && wss[0] == 'w' && wss[2] == 's' && storm[0] == 's');
    assert("http+json-rpc://"@[4] == '+' && "https+json-rpc://"@[5] == '+');
    assert("https+json-rpc://"@[4] == 's' && "http://"@[4] == ':' && "https://"@[4] == 's');
    assert("https://"@[5] == ':' && "ws://"@[2] == ':' && "wss://"@[2] == 's');
    lemma_differs("http+json-rpc://"@, http, 4);
    lemma_differs("https+json-rpc://"@, http, 4);
    lemma_differs("http+json-rpc://"@, https, 4);
    lemma_differs("https+json-rpc://"@, https, 5);
    lemma_differs("http+json-rpc://"@, ws, 0);
    lemma_differs("https+json-rpc://"@, ws, 0);
    lemma_differs("http://"@, ws, 0);
    lemma_differs("https://"@, ws, 0);
    lemma_differs("http+json-rpc://"@, wss, 0);
    lemma_differs("https+json-rpc://"@, wss, 0);
    lemma_differs("http://"@, wss, 0);
    lemma_differs("https://"@, wss, 0);
    lemma_differs("http+json-rpc://"@, storm, 0);
    lemma_differs("https+json-rpc://"@, storm, 0);
    lemma_differs("http://"@, storm, 0);
    lemma_differs("https://"@, storm, 0);
    lemma_differs("ws://"@, storm, 0);
    lemma_differs("wss://"@, storm, 0);
    if endpoint_kind(text) != EndpointKind::Unspecified {
        lemma_splits("http+json-rpc://"@, text);
        lemma_splits("https+json-rpc://"@, text);
        lemma_splits("http://"@, text);
        lemma_splits("https://"@, text);
        lemma_splits("ws://"@, text);
        lemma_splits("wss://"@, text);
        lemma_splits("storm://"@, text);
        let tail = if "http+json-rpc://"@.is_prefix_of(text) {
            text.skip("http+json-rpc://"@.len() as int)
        } else if "https+json-rpc://"@.is_prefix_of(text) {
            text.skip("https+json-rpc://"@.len() as int)
        } else if "http://"@.is_prefix_of(text) {
            text.skip("http://"@.len() as int)
        } else if "https://"@.is_prefix_of(text) {
            text.skip("https://"@.len() as int)
        } else if "ws://"@.is_prefix_of(text) {
            text.skip("ws://"@.len() as int)
        } else if "wss://"@.is_prefix_of(text) {
            text.skip("wss://"@.len() as int)
        } else {
            text.skip("storm://"@.len() as int)
        };
        let trigger = "http+json-rpc://"@ + tail;
        assert({
            ||| text == "http+json-rpc://"@ + tail
            ||| text == "https+json-rpc://"@ + tail
            ||| text == "http://"@ + tail
            ||| text == "https://"@ + tail
            ||| text == "ws://"@ + tail
            ||| text == "wss://"@ + tail
            ||| text == "storm://"@ + tail
        });
    }
}

/// A text begins with what stands in front.
proof fn lemma_begins(head: Seq<char>, rest: Seq<char>)
    ensures
        head.is_prefix_of(head + rest),
{
    assert((head + rest).subrange(0, head.len() as int) =~= head);
}

/// A text which differs from another one in a place does not begin with it.
proof fn lemma_differs(head: Seq<char>, text: Seq<char>, i: int)
    requires
        0 <= i < head.len(),
        i < text.len(),
        head[i] != text[i],
    ensures
        !head.is_prefix_of(text),
{
    if head.is_prefix_of(text) {
        assert(text.subrange(0, head.len() as int)[i] == text[i]);
    }
}

/// A text which begins with another one is that one and the rest.
proof fn lemma_splits(head: Seq<char>, text: Seq<char>)
    ensures
        head.is_prefix_of(text) ==> text == head + text.skip(head.len() as int),
{
    if head.is_prefix_of(text) {
        assert(text =~= text.subrange(0, head.len() as int) + text.skip(head.len() as int));
    }
}

/// A text is read as a number if and only if it consists of decimal digits, with a plus sign before
/// them or without it, and the number has no more than 64 bits. Leading zeros change nothing.
pub proof fn law_number_is_read_of_its_digits(text: Seq<char>, n: u64)
    ensures
        number_of(decimal(n as nat)) == Some(n),
        number_of(seq!['+'] + decimal(n as nat)) == Some(n),
        number_of(seq!['0'] + decimal(n as nat)) == Some(n),
        number_of(Seq::<char>::empty()) is None,
        number_of(seq!['+']) is None,
        (exists|i: int| 0 <= i < text.len() && !is_digit(#[trigger] text[i]) && (i > 0 || text[i]
            != '+')) ==> number_of(text) is None,
        number_of(text) matches Some(value) ==> value == digits_value(
            if text.len() > 0 && text[0] == '+' {
                text.skip(1)
            } else {
                text
            },
        ),
{
    let digits = decimal(n as nat);
    lemma_decimal(n as nat);
    assert(is_digit(digits[0]));
    assert((seq!['+'] + digits).skip(1) =~= digits);
    let padded = seq!['0'] + digits;
    lemma_leading_zero(digits);
    assert(padded[0] == '0');
    assert(seq!['+'].skip(1) =~= Seq::empty());
    if exists|i: int| 0 <= i < text.len() && !is_digit(#[trigger] text[i]) && (i > 0 || text[i]
        != '+') {
        let i = choose|i: int|
            0 <= i < text.len() && !is_digit(#[trigger] text[i]) && (i > 0 || text[i] != '+');
        if text[0] == '+' {
            assert(text.skip(1)[i - 1] == text[i]);
        }
    }
}

/// A zero in front changes nothing.
proof fn lemma_leading_zero(digits: Seq<char>)
    requires
        all_digits(digits),
    ensures
        all_digits(seq!['0'] + digits),
        digits_value(seq!['0'] + digits) == digits_value(digits),
    decreases digits.len(),
{
    let whole = seq!['0'] + digits;
    assert forall|i: int| 0 <= i < whole.len() implies is_digit(#[trigger] whole[i]) by {
        if i > 0 {
            assert(whole[i] == digits[i - 1]);
        }
    }
    if digits.len() == 0 {
        assert(whole =~= seq!['0']);
        assert(seq!['0'].drop_last() =~= Seq::<char>::empty());
        reveal_with_fuel(digits_value, 2);
    } else {
        let less = digits.drop_last();
        assert forall|i: int| 0 <= i < less.len() implies is_digit(#[trigger] less[i]) by {
            assert(less[i] == digits[i]);
        }
        lemma_leading_zero(less);
        assert(whole.drop_last() =~= seq!['0'] + less);
        assert(whole.last() == digits.last());
    }
}

/// A path is refused for what the fault says: the first segment which can't be read, from the first one
/// on, but for the authority token, which is looked at before the names.
pub proof fn law_refused_path_names_its_fault<T: UriText, A: UriText, L: UriText>(
    segments: Seq<Seq<char>>,
)
    requires
        segments.len() >= 1,
    ensures
        ({
            let n = segments.len() as int;
            match parsed_path::<T, A, L>(segments) {
                Ok(_) => true,
                Err(Fault::ScopeMissed) => segments[0].len() == 0,
                Err(Fault::NoLayer1) => segments[0].len() > 0 && !segments[0].contains('@'),
                Err(Fault::Layer1) => exists|layer1: Seq<char>, scope: Seq<char>|
                    segments[0] == #[trigger] (layer1 + seq!['@'] + scope) && !layer1.contains('@')
                        && L::reading(layer1) is Err,
                Err(Fault::Scope(e)) => exists|layer1: Seq<char>, scope: Seq<char>|
                    segments[0] == #[trigger] (layer1 + seq!['@'] + scope) && !layer1.contains('@')
                        && T::reading(scope) == Err::<T, T::Err>(e),
                Err(Fault::PathNoAuth) => n < 3 && (n == 2 ==> segments[1].len() == 0),
                Err(Fault::PathLastNoEmpty) => n >= 2 && segments[n - 1].len() > 0,
                Err(Fault::AuthInvalid(e)) => n >= 3 && segments[n - 1].len() == 0 && {
                    ||| !segments[n - 2].contains('@') && A::reading(segments[n - 2]) == Err::<
                        A,
                        A::Err,
                    >(e)
                    ||| exists|data: Seq<char>, auth: Seq<char>|
                        segments[n - 2] == #[trigger] (data + seq!['@'] + auth) && !data.contains(
                            '@',
                        ) && A::reading(auth) == Err::<A, A::Err>(e)
                },
                Err(Fault::ApiInvalid(e)) => n >= 4 && !is_type_name(segments[1]) && e
                    == type_name_error(segments[1]),
                Err(Fault::MethodInvalid(e)) => n >= 5 && is_type_name(segments[1])
                    && !is_variant_name(segments[2]) && e == variant_name_error(segments[2]),
                Err(Fault::StateInvalid(e)) => n >= 6 && is_type_name(segments[1])
                    && is_variant_name(segments[2]) && !is_variant_name(segments[3]) && e
                    == variant_name_error(segments[3]),
                Err(_) => false,
            }
        }),
{
    let n = segments.len() as int;
    law_text_is_divided_at_the_first_separator(segments[0], '@');
    if let Some((layer1, scope)) = divided(segments[0], '@') {
        assert(segments[0] == layer1 + seq!['@'] + scope);
    }
    if n >= 3 {
        law_text_is_divided_at_the_first_separator(segments[n - 2], '@');
        if let Some((data, auth)) = divided(segments[n - 2], '@') {
            assert(segments[n - 2] == data + seq!['@'] + auth);
        }
        let middle = segments.subrange(1, n - 2);
        assert(middle.len() == n - 3);
        if middle.len() > 0 {
            assert(middle[0] == segments[1]);
        }
        if middle.len() > 1 {
            assert(middle[1] == segments[2]);
        }
        if middle.len() > 2 {
            assert(middle[2] == segments[3]);
        }
    }
}

/// A URI is a request if and only if its scheme is the one of contracts, it has no authority and no
/// slash in front of its path, and both its path and its query can be read; what is refused of it is
/// told in this order. The request is made of what the path and the query hold.
pub proof fn law_request_is_its_path_and_query<T: UriText, A: UriText, L: UriText>(
    parts: UriPartsView,
)
    ensures
        ({
            let rooted = parts.authority || (parts.path.len() > 0 && parts.path[0] == '/');
            let path = parsed_path::<T, A, L>(pieces(parts.path, '/'));
            let query = parsed_query::<T::Err, A::Err>(parts.query);
            match parsed::<T, A, L>(parts) {
                Ok(request) => {
                    &&& parts.scheme == "contract"@ && !rooted
                    &&& path matches Ok(p) && request.scope == p.scope && request.layer1 == p.layer1
                        && request.api == p.api && request.call == p.call && request.auth == p.auth
                        && request.data == p.data
                    &&& query matches Ok(q) && request.lock == q.lock && request.expiry == q.expiry
                        && request.endpoints == q.endpoints && request.unknown_query
                        == q.unknown_query
                },
                Err(Fault::SchemeInvalid(scheme)) => scheme == parts.scheme && scheme
                    != "contract"@,
                Err(Fault::Authority) => parts.scheme == "contract"@ && rooted,
                Err(e) => parts.scheme == "contract"@ && !rooted && (path == Err::<
                    PathView<T, A, L>,
                    Fault<T::Err, A::Err>,
                >(e) || (path is Ok && query == Err::<QueryView, Fault<T::Err, A::Err>>(e))),
            }
        }),
{
    law_pieces_make_the_text(parts.path, '/');
    law_refused_path_names_its_fault::<T, A, L>(pieces(parts.path, '/'));
    if let Some(text) = parts.query {
        law_refused_query_names_its_fault::<T::Err, A::Err>(text);
    }
}

} // verus!
