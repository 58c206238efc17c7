//! Contract call requests in the form of a URI.

use crate::percent::{decoded_text, encoded_text, percent_decode_text, percent_encode_text};
use crate::text::{
    divided, number_of, parse_number, pieces, split, split_once, views,
};
use crate::types::{AuthToken, ContractId};
use crate::uri_bridge::{
    auth_token_bare_text, auth_token_reading, auth_token_text, contract_id_bare_text,
    contract_id_reading, contract_id_text, decode_lock, encode_lock, found, is_plain_uri,
    is_type_name, is_variant_name, lock_reading, lock_text, number_value, parse_auth_token,
    parse_contract_id,
    parse_time, parse_type_name, parse_uri, parse_variant_name, plain_uri, put, query_content,
    query_get, query_insert, query_len, query_new, query_pair, query_remove, string_value,
    time_reading, time_text, type_name_error, uri_reading, value_of_number, value_of_string,
    value_text, variant_name_error, without, write_auth_token,
    write_bare_auth_token, write_bare_contract_id, write_contract_id, write_time,
    write_value, Timestamp, UriParts, UriPartsView,
};
use crate::uri_laws::uri_parts;
use crate::uri_plain::{
    has_read_data, has_read_values, has_segment_ids, is_readable, is_segment_text, is_simple,
    law_request_reads_back_from_text, lemma_baid64_segment, lemma_prefixed_segment,
    lemma_simple_is_readable,
};
use baid64::base64::DecodeError as LockError;
use baid64::Baid64ParseError;
use chrono::ParseError as TimeError;
use fluent_uri::ParseError as UriError;
use indexmap::IndexMap;
use strict_encoding::InvalidRString;
use strict_types::StrictVal;
use vstd::prelude::*;

verus! {

/// Largest number of endpoints in a request.
pub const MAX_ENDPOINTS: usize = 10;

/// Largest length of the lock data.
pub const MAX_LOCK: usize = 256;

/// A value which a URI holds as a text.
pub trait UriText: Sized {
    /// Failure to read a value.
    type Err;

    /// The value has a text.
    open spec fn writable(&self) -> bool {
        true
    }

    /// The text of the value.
    open spec fn text(&self) -> Seq<char> {
        vstd::pervasive::arbitrary()
    }

    /// The text of the value without its prefix.
    open spec fn bare_text(&self) -> Seq<char> {
        vstd::pervasive::arbitrary()
    }

    /// The texts of all the values which have one are read back, and consist of characters which have
    /// their place in a segment of a path.
    open spec fn reads_back() -> bool {
        false
    }

    /// What a text stands for.
    open spec fn reading(text: Seq<char>) -> Result<Self, Self::Err> {
        vstd::pervasive::arbitrary()
    }

    /// Reads a value.
    fn parse_text(text: &str) -> (r: Result<Self, Self::Err>)
        ensures
            r == Self::reading(text@),
    ;

    /// Writes a value.
    fn to_text(&self) -> (r: String)
        requires
            self.writable(),
        ensures
            r@ == self.text(),
            Self::reads_back() ==> Self::reading(r@) == Ok::<Self, Self::Err>(*self)
                && is_segment_text(r@),
    ;

    /// Writes a value without its prefix.
    fn to_bare_text(&self) -> (r: String)
        requires
            self.writable(),
        ensures
            r@ == self.bare_text(),
            Self::reads_back() ==> Self::reading(r@) == Ok::<Self, Self::Err>(*self)
                && is_segment_text(r@),
    ;
}

impl UriText for ContractId {
    type Err = Baid64ParseError;

    open spec fn writable(&self) -> bool {
        true
    }

    open spec fn text(&self) -> Seq<char> {
        contract_id_text(*self)
    }

    open spec fn bare_text(&self) -> Seq<char> {
        contract_id_bare_text(*self)
    }

    open spec fn reads_back() -> bool {
        true
    }

    open spec fn reading(text: Seq<char>) -> Result<Self, Baid64ParseError> {
        contract_id_reading(text)
    }

    fn parse_text(text: &str) -> (r: Result<Self, Baid64ParseError>) {
        parse_contract_id(text)
    }

    fn to_text(&self) -> (r: String) {
        let text = write_contract_id(*self);
        proof {
            reveal_strlit("contract:");
            lemma_prefixed_segment(text@, "contract:"@);
        }
        text
    }

    fn to_bare_text(&self) -> (r: String) {
        let text = write_bare_contract_id(*self);
        proof {
            lemma_baid64_segment(text@);
        }
        text
    }
}

impl UriText for AuthToken {
    type Err = Baid64ParseError;

    open spec fn writable(&self) -> bool {
        self.hi < 0x1_0000_0000_0000_0000_0000_0000_0000
    }

    open spec fn text(&self) -> Seq<char> {
        auth_token_text(*self)
    }

    open spec fn bare_text(&self) -> Seq<char> {
        auth_token_bare_text(*self)
    }

    open spec fn reads_back() -> bool {
        true
    }

    open spec fn reading(text: Seq<char>) -> Result<Self, Baid64ParseError> {
        auth_token_reading(text)
    }

    fn parse_text(text: &str) -> (r: Result<Self, Baid64ParseError>) {
        parse_auth_token(text)
    }

    fn to_text(&self) -> (r: String) {
        let text = write_auth_token(*self);
        proof {
            reveal_strlit("at:");
            lemma_prefixed_segment(text@, "at:"@);
        }
        text
    }

    fn to_bare_text(&self) -> (r: String) {
        let text = write_bare_auth_token(*self);
        proof {
            lemma_baid64_segment(text@);
        }
        text
    }
}

/// How an endpoint is reached.
#[derive(Copy, Clone, PartialEq, Eq, Structural, Debug)]
pub enum EndpointKind {
    JsonRpc,
    RestHttp,
    WebSockets,
    Storm,
    Unspecified,
}

/// Endpoint at which the request may be served.
#[derive(Debug, PartialEq, Eq)]
pub enum Endpoint {
    JsonRpc(String),
    RestHttp(String),
    WebSockets(String),
    Storm(String),
    UnspecifiedMeans(String),
}

impl View for Endpoint {
    type V = (EndpointKind, Seq<char>);

    open spec fn view(&self) -> (EndpointKind, Seq<char>) {
        match self {
            Endpoint::JsonRpc(s) => (EndpointKind::JsonRpc, s@),
            Endpoint::RestHttp(s) => (EndpointKind::RestHttp, s@),
            Endpoint::WebSockets(s) => (EndpointKind::WebSockets, s@),
            Endpoint::Storm(s) => (EndpointKind::Storm, s@),
            Endpoint::UnspecifiedMeans(s) => (EndpointKind::Unspecified, s@),
        }
    }
}

/// The kind of an endpoint goes by the scheme of its text.
pub open spec fn endpoint_kind(text: Seq<char>) -> EndpointKind {
    if "http+json-rpc://"@.is_prefix_of(text) || "https+json-rpc://"@.is_prefix_of(text) {
        EndpointKind::JsonRpc
    } else if "http://"@.is_prefix_of(text) || "https://"@.is_prefix_of(text) {
        EndpointKind::RestHttp
    } else if "ws://"@.is_prefix_of(text) || "wss://"@.is_prefix_of(text) {
        EndpointKind::WebSockets
    } else if "storm://"@.is_prefix_of(text) {
        EndpointKind::Storm
    } else {
        EndpointKind::Unspecified
    }
}

/// Tests whether a text starts with another one.
fn starts_with(text: &str, prefix: &str) -> (r: bool)
    ensures
        r == prefix@.is_prefix_of(text@),
{
    let len = prefix.unicode_len();
    if text.unicode_len() < len {
        return false;
    }
    let head = text.substring_char(0, len).to_owned();
    let r = head == prefix.to_owned();
    proof {
        assert(head@ =~= text@.subrange(0, len as int));
    }
    r
}

impl Endpoint {
    /// Reads an endpoint; every text is one.
    pub fn parse_text(text: &str) -> (r: Endpoint)
        ensures
            r@ == (endpoint_kind(text@), text@),
    {
        if starts_with(text, "http+json-rpc://") || starts_with(text, "https+json-rpc://") {
            Endpoint::JsonRpc(text.to_owned())
        } else if starts_with(text, "http://") || starts_with(text, "https://") {
            Endpoint::RestHttp(text.to_owned())
        } else if starts_with(text, "ws://") || starts_with(text, "wss://") {
            Endpoint::WebSockets(text.to_owned())
        } else if starts_with(text, "storm://") {
            Endpoint::Storm(text.to_owned())
        } else {
            Endpoint::UnspecifiedMeans(text.to_owned())
        }
    }

    /// The text of the endpoint.
    pub fn as_str(&self) -> (r: &str)
        ensures
            r@ == self@.1,
    {
        match self {
            Endpoint::JsonRpc(s) => s.as_str(),
            Endpoint::RestHttp(s) => s.as_str(),
            Endpoint::WebSockets(s) => s.as_str(),
            Endpoint::Storm(s) => s.as_str(),
            Endpoint::UnspecifiedMeans(s) => s.as_str(),
        }
    }
}

/// The method to call, and the owned state to call it with.
#[derive(Debug, PartialEq, Eq)]
pub struct CallState {
    pub method: String,
    pub owned: Option<String>,
}

/// Mathematical model of [`CallState`].
pub struct CallStateView {
    pub method: Seq<char>,
    pub owned: Option<Seq<char>>,
}

impl View for CallState {
    type V = CallStateView;

    open spec fn view(&self) -> CallStateView {
        CallStateView {
            method: self.method@,
            owned: match self.owned {
                Some(owned) => Some(owned@),
                None => None,
            },
        }
    }
}

impl CallState {
    /// A call of a method.
    pub fn new(method: String) -> (r: CallState)
        ensures
            r@ == (CallStateView { method: method@, owned: None }),
    {
        CallState { method, owned: None }
    }

    /// A call of a method with an owned state.
    pub fn with(method: String, owned: String) -> (r: CallState)
        ensures
            r@ == (CallStateView { method: method@, owned: Some(owned@) }),
    {
        CallState { method, owned: Some(owned) }
    }
}

/// Contract call request.
#[derive(Debug)]
pub struct CallRequest<T, A, L> {
    pub scope: T,
    pub layer1: L,
    pub api: Option<String>,
    pub call: Option<CallState>,
    pub auth: A,
    pub data: Option<StrictVal>,
    pub lock: Option<Vec<u8>>,
    pub expiry: Option<Timestamp>,
    pub endpoints: Vec<Endpoint>,
    pub unknown_query: IndexMap<String, String>,
}

/// Mathematical model of [`CallRequest`].
#[verifier::ext_equal]
pub struct RequestView<T, A, L> {
    pub scope: T,
    pub layer1: L,
    pub api: Option<Seq<char>>,
    pub call: Option<CallStateView>,
    pub auth: A,
    pub data: Option<StrictVal>,
    pub lock: Option<Seq<u8>>,
    pub expiry: Option<Timestamp>,
    pub endpoints: Seq<(EndpointKind, Seq<char>)>,
    pub unknown_query: Seq<(Seq<char>, Seq<char>)>,
}

/// Models of a list of endpoints.
pub open spec fn endpoint_views(list: Seq<Endpoint>) -> Seq<(EndpointKind, Seq<char>)> {
    list.map_values(|e: Endpoint| e@)
}

impl<T, A, L> View for CallRequest<T, A, L> {
    type V = RequestView<T, A, L>;

    open spec fn view(&self) -> RequestView<T, A, L> {
        RequestView {
            scope: self.scope,
            layer1: self.layer1,
            api: match self.api {
                Some(api) => Some(api@),
                None => None,
            },
            call: match self.call {
                Some(call) => Some(call@),
                None => None,
            },
            auth: self.auth,
            data: self.data,
            lock: match self.lock {
                Some(lock) => Some(lock@),
                None => None,
            },
            expiry: self.expiry,
            endpoints: endpoint_views(self.endpoints@),
            unknown_query: query_content(self.unknown_query),
        }
    }
}

impl<T, A, L> RequestView<T, A, L> {
    /// The request has something to put into the query of its URI.
    pub open spec fn has_query(self) -> bool {
        self.unknown_query.len() > 0 || self.expiry is Some || self.lock is Some
            || self.endpoints.len() > 0
    }
}

impl<T, A, L> CallRequest<T, A, L> {
    /// Tests whether the URI of the request has a query.
    pub fn has_query(&self) -> (r: bool)
        ensures
            r == self@.has_query(),
    {
        query_len(&self.unknown_query) > 0 || self.expiry.is_some() || self.lock.is_some()
            || self.endpoints.len() > 0
    }
}

/// Errors of reading a contract call request.
#[derive(Debug)]
pub enum ParseError<E1, E2> {
    Uri(UriError),

    /// invalid contract call request URI scheme.
    SchemeInvalid(String),

    /// contract call request must not contain any URI authority data, including empty one.
    Authority,

    Scope(E1),

    /// absent information about layer 1
    NoLayer1,

    /// unrecognized layer 1 identifier
    Layer1,

    /// contract call request scope (first path component) is missed.
    ScopeMissed,

    /// contract call request path must end with `/`
    PathLastNoEmpty,

    /// contract call request URI misses the beneficiary authority token.
    PathNoAuth,

    /// invalid beneficiary authentication token.
    AuthInvalid(E2),

    /// invalid API name.
    ApiInvalid(InvalidRString),

    /// invalid call method name.
    MethodInvalid(InvalidRString),

    /// invalid state method name.
    StateInvalid(InvalidRString),

    /// invalid lock data encoding.
    LockInvalidEncoding(LockError),

    /// Lock data conditions are too long (they must not exceed 256 bytes).
    LockTooLong,

    /// invalid expity time.
    ExpiryInvalid(TimeError),

    /// invalid query parameter.
    QueryParamInvalid(String),
}

/// Mathematical model of [`ParseError`].
pub enum Fault<E1, E2> {
    Uri(UriError),
    SchemeInvalid(Seq<char>),
    Authority,
    Scope(E1),
    NoLayer1,
    Layer1,
    PathLastNoEmpty,
    PathNoAuth,
    AuthInvalid(E2),
    ApiInvalid(InvalidRString),
    MethodInvalid(InvalidRString),
    StateInvalid(InvalidRString),
    LockInvalidEncoding(LockError),
    LockTooLong,
    ExpiryInvalid(TimeError),
    QueryParamInvalid(Seq<char>),
    ScopeMissed,
}

impl<E1, E2> View for ParseError<E1, E2> {
    type V = Fault<E1, E2>;

    open spec fn view(&self) -> Fault<E1, E2> {
        match *self {
            ParseError::Uri(e) => Fault::Uri(e),
            ParseError::SchemeInvalid(s) => Fault::SchemeInvalid(s@),
            ParseError::Authority => Fault::Authority,
            ParseError::Scope(e) => Fault::Scope(e),
            ParseError::NoLayer1 => Fault::NoLayer1,
            ParseError::Layer1 => Fault::Layer1,
            ParseError::ScopeMissed => Fault::ScopeMissed,
            ParseError::PathLastNoEmpty => Fault::PathLastNoEmpty,
            ParseError::PathNoAuth => Fault::PathNoAuth,
            ParseError::AuthInvalid(e) => Fault::AuthInvalid(e),
            ParseError::ApiInvalid(e) => Fault::ApiInvalid(e),
            ParseError::MethodInvalid(e) => Fault::MethodInvalid(e),
            ParseError::StateInvalid(e) => Fault::StateInvalid(e),
            ParseError::LockInvalidEncoding(e) => Fault::LockInvalidEncoding(e),
            ParseError::LockTooLong => Fault::LockTooLong,
            ParseError::ExpiryInvalid(e) => Fault::ExpiryInvalid(e),
            ParseError::QueryParamInvalid(s) => Fault::QueryParamInvalid(s@),
        }
    }
}

/// What the path of a request holds.
pub struct PathView<T, A, L> {
    pub scope: T,
    pub layer1: L,
    pub api: Option<Seq<char>>,
    pub call: Option<CallStateView>,
    pub auth: A,
    pub data: Option<StrictVal>,
}

/// What the query of a request holds.
pub struct QueryView {
    pub lock: Option<Seq<u8>>,
    pub expiry: Option<Timestamp>,
    pub endpoints: Seq<(EndpointKind, Seq<char>)>,
    pub unknown_query: Seq<(Seq<char>, Seq<char>)>,
}

/// The call data and the text of the authority token in a segment of the path.
pub open spec fn data_and_auth(segment: Seq<char>) -> (Option<StrictVal>, Seq<char>) {
    match divided(segment, '@') {
        Some((data, auth)) => (
            Some(
                match number_of(data) {
                    Some(n) => number_value(n),
                    None => string_value(data),
                },
            ),
            auth,
        ),
        None => (None, segment),
    }
}

/// The API name, the method and the owned state in the middle of the path. Segments past the third
/// one are not looked at.
pub open spec fn parsed_call<E1, E2>(middle: Seq<Seq<char>>) -> Result<
    (Option<Seq<char>>, Option<CallStateView>),
    Fault<E1, E2>,
> {
    if middle.len() == 0 {
        Ok((None, None))
    } else if !is_type_name(middle[0]) {
        Err(Fault::ApiInvalid(type_name_error(middle[0])))
    } else if middle.len() == 1 {
        Ok((Some(middle[0]), None))
    } else if !is_variant_name(middle[1]) {
        Err(Fault::MethodInvalid(variant_name_error(middle[1])))
    } else if middle.len() == 2 {
        Ok((Some(middle[0]), Some(CallStateView { method: middle[1], owned: None })))
    } else if !is_variant_name(middle[2]) {
        Err(Fault::StateInvalid(variant_name_error(middle[2])))
    } else {
        Ok((Some(middle[0]), Some(CallStateView { method: middle[1], owned: Some(middle[2]) })))
    }
}

/// What the segments of a path stand for: layer 1 and the scope come first, then the API, the
/// method and the state, then the data with the authority token, and the last segment is empty.
pub open spec fn parsed_path<T: UriText, A: UriText, L: UriText>(segments: Seq<Seq<char>>) -> Result<
    PathView<T, A, L>,
    Fault<T::Err, A::Err>,
> {
    if segments[0].len() == 0 {
        Err(Fault::ScopeMissed)
    } else {
        parsed_segments(segments)
    }
}

/// What the segments of a path, the first one of which is there, stand for.
pub open spec fn parsed_segments<T: UriText, A: UriText, L: UriText>(
    segments: Seq<Seq<char>>,
) -> Result<PathView<T, A, L>, Fault<T::Err, A::Err>> {
    let n = segments.len() as int;
    match divided(segments[0], '@') {
        None => Err(Fault::NoLayer1),
        Some((layer1, scope)) => match L::reading(layer1) {
            Err(_) => Err(Fault::Layer1),
            Ok(layer1) => match T::reading(scope) {
                Err(e) => Err(Fault::Scope(e)),
                Ok(scope) => if n < 2 {
                    Err(Fault::PathNoAuth)
                } else if segments[n - 1].len() != 0 {
                    Err(Fault::PathLastNoEmpty)
                } else if n < 3 {
                    Err(Fault::PathNoAuth)
                } else {
                    match A::reading(data_and_auth(segments[n - 2]).1) {
                        Err(e) => Err(Fault::AuthInvalid(e)),
                        Ok(auth) => match parsed_call(segments.subrange(1, n - 2)) {
                            Err(e) => Err(e),
                            Ok((api, call)) => Ok(
                                PathView {
                                    scope,
                                    layer1,
                                    api,
                                    call,
                                    auth,
                                    data: data_and_auth(segments[n - 2]).0,
                                },
                            ),
                        },
                    }
                },
            },
        },
    }
}

/// The pairs after one more parameter: values under one key are joined with a comma.
pub open spec fn merged(
    pairs: Seq<(Seq<char>, Seq<char>)>,
    key: Seq<char>,
    value: Seq<char>,
) -> Seq<(Seq<char>, Seq<char>)> {
    match found(pairs, key) {
        Some(earlier) => put(pairs, key, earlier + seq![','] + value),
        None => put(pairs, key, value),
    }
}

/// The pairs which the parameters of a query stand for, or the first parameter which is no pair.
pub open spec fn parsed_params(params: Seq<Seq<char>>) -> Result<
    Seq<(Seq<char>, Seq<char>)>,
    Seq<char>,
>
    decreases params.len(),
{
    if params.len() == 0 {
        Ok(Seq::empty())
    } else {
        match parsed_params(params.drop_last()) {
            Err(e) => Err(e),
            Ok(pairs) => match divided(params.last(), '=') {
                None => Err(params.last()),
                Some((key, value)) => Ok(merged(pairs, decoded_text(key), decoded_text(value))),
            },
        }
    }
}

/// The endpoints among the texts, but the empty ones.
pub open spec fn parsed_endpoints(texts: Seq<Seq<char>>) -> Seq<(EndpointKind, Seq<char>)>
    decreases texts.len(),
{
    if texts.len() == 0 {
        Seq::empty()
    } else {
        let earlier = parsed_endpoints(texts.drop_last());
        if texts.last().len() == 0 {
            earlier
        } else {
            earlier.push((endpoint_kind(texts.last()), texts.last()))
        }
    }
}

/// The first elements of a list, up to the given number.
pub open spec fn at_most<X>(list: Seq<X>, n: int) -> Seq<X> {
    if list.len() <= n {
        list
    } else {
        list.take(n)
    }
}

/// The lock among the pairs of a query.
pub open spec fn parsed_lock<E1, E2>(lock: Option<Seq<char>>) -> Result<
    Option<Seq<u8>>,
    Fault<E1, E2>,
> {
    match lock {
        None => Ok(None),
        Some(text) => match lock_reading(text) {
            Err(e) => Err(Fault::LockInvalidEncoding(e)),
            Ok(bytes) => if bytes.len() > MAX_LOCK {
                Err(Fault::LockTooLong)
            } else {
                Ok(Some(bytes))
            },
        },
    }
}

/// The expiry time among the pairs of a query.
pub open spec fn parsed_expiry<E1, E2>(expiry: Option<Seq<char>>) -> Result<
    Option<Timestamp>,
    Fault<E1, E2>,
> {
    match expiry {
        None => Ok(None),
        Some(text) => match time_reading(text) {
            Err(e) => Err(Fault::ExpiryInvalid(e)),
            Ok(time) => Ok(Some(time)),
        },
    }
}

/// What the pairs of a query stand for.
pub open spec fn parsed_pairs<E1, E2>(pairs: Seq<(Seq<char>, Seq<char>)>) -> Result<
    QueryView,
    Fault<E1, E2>,
> {
    let after_lock = without(pairs, "lock"@);
    let after_expiry = without(after_lock, "expiry"@);
    let after_endpoints = without(after_expiry, "endpoints"@);
    match parsed_lock(found(pairs, "lock"@)) {
        Err(e) => Err(e),
        Ok(lock) => match parsed_expiry(found(after_lock, "expiry"@)) {
            Err(e) => Err(e),
            Ok(expiry) => Ok(
                QueryView {
                    lock,
                    expiry,
                    endpoints: match found(after_expiry, "endpoints"@) {
                        Some(text) => at_most(
                            parsed_endpoints(pieces(text, ',')),
                            MAX_ENDPOINTS as int,
                        ),
                        None => Seq::empty(),
                    },
                    unknown_query: after_endpoints,
                },
            ),
        },
    }
}

/// What a query stands for.
pub open spec fn parsed_query<E1, E2>(query: Option<Seq<char>>) -> Result<QueryView, Fault<E1, E2>> {
    match query {
        None => parsed_pairs(Seq::empty()),
        Some(text) => match parsed_params(pieces(text, '&')) {
            Err(param) => Err(Fault::QueryParamInvalid(param)),
            Ok(pairs) => parsed_pairs(pairs),
        },
    }
}

/// The request which a path and a query make together.
pub open spec fn joint<T, A, L>(path: PathView<T, A, L>, query: QueryView) -> RequestView<T, A, L> {
    RequestView {
        scope: path.scope,
        layer1: path.layer1,
        api: path.api,
        call: path.call,
        auth: path.auth,
        data: path.data,
        lock: query.lock,
        expiry: query.expiry,
        endpoints: query.endpoints,
        unknown_query: query.unknown_query,
    }
}

/// The request which the components of a URI stand for.
pub open spec fn parsed<T: UriText, A: UriText, L: UriText>(parts: UriPartsView) -> Result<
    RequestView<T, A, L>,
    Fault<T::Err, A::Err>,
> {
    if parts.scheme != "contract"@ {
        Err(Fault::SchemeInvalid(parts.scheme))
    } else if parts.authority || (parts.path.len() > 0 && parts.path[0] == '/') {
        Err(Fault::Authority)
    } else {
        match parsed_path::<T, A, L>(pieces(parts.path, '/')) {
            Err(e) => Err(e),
            Ok(path) => match parsed_query::<T::Err, A::Err>(parts.query) {
                Err(e) => Err(e),
                Ok(query) => Ok(joint(path, query)),
            },
        }
    }
}

/// What the path of a request holds.
struct PathParts<T, A, L> {
    scope: T,
    layer1: L,
    api: Option<String>,
    call: Option<CallState>,
    auth: A,
    data: Option<StrictVal>,
}

/// What the query of a request holds.
struct QueryParts {
    lock: Option<Vec<u8>>,
    expiry: Option<Timestamp>,
    endpoints: Vec<Endpoint>,
    unknown_query: IndexMap<String, String>,
}

impl<T, A, L> View for PathParts<T, A, L> {
    type V = PathView<T, A, L>;

    closed spec fn view(&self) -> PathView<T, A, L> {
        PathView {
            scope: self.scope,
            layer1: self.layer1,
            api: match self.api {
                Some(api) => Some(api@),
                None => None,
            },
            call: match self.call {
                Some(call) => Some(call@),
                None => None,
            },
            auth: self.auth,
            data: self.data,
        }
    }
}

impl View for QueryParts {
    type V = QueryView;

    closed spec fn view(&self) -> QueryView {
        QueryView {
            lock: match self.lock {
                Some(lock) => Some(lock@),
                None => None,
            },
            expiry: self.expiry,
            endpoints: endpoint_views(self.endpoints@),
            unknown_query: query_content(self.unknown_query),
        }
    }
}

/// Reads the call data and the text of the authority token.
fn parse_data_and_auth(segment: &str) -> (r: (Option<StrictVal>, String))
    ensures
        data_and_auth(segment@) == (r.0, r.1@),
{
    match split_once(segment, '@') {
        Some((data, auth)) => {
            let data = match parse_number(data.as_str()) {
                Some(n) => value_of_number(n),
                None => value_of_string(data.as_str()),
            };
            (Some(data), auth)
        },
        None => (None, segment.to_owned()),
    }
}

/// Reads the API name, the method and the owned state.
fn parse_call<E1, E2>(segments: &Vec<String>) -> (r: Result<
    (Option<String>, Option<CallState>),
    ParseError<E1, E2>,
>)
    requires
        segments@.len() >= 3,
    ensures
        ({
            let middle = views(segments@).subrange(1, segments@.len() - 2);
            match r {
                Ok((api, call)) => parsed_call::<E1, E2>(middle) == Ok::<
                    (Option<Seq<char>>, Option<CallStateView>),
                    Fault<E1, E2>,
                >(
                    (
                        match api {
                            Some(api) => Some(api@),
                            None => None,
                        },
                        match call {
                            Some(call) => Some(call@),
                            None => None,
                        },
                    ),
                ),
                Err(e) => parsed_call::<E1, E2>(middle) == Err::<
                    (Option<Seq<char>>, Option<CallStateView>),
                    Fault<E1, E2>,
                >(e@),
            }
        }),
{
    let ghost middle = views(segments@).subrange(1, segments@.len() - 2);
    let count = segments.len() - 3;
    assert(middle.len() == count);
    if count == 0 {
        return Ok((None, None));
    }
    assert(middle[0] == segments@[1]@);
    let api = match parse_type_name(segments[1].as_str()) {
        Ok(api) => api,
        Err(e) => {
            return Err(ParseError::ApiInvalid(e));
        },
    };
    if count == 1 {
        return Ok((Some(api), None));
    }
    assert(middle[1] == segments@[2]@);
    let method = match parse_variant_name(segments[2].as_str()) {
        Ok(method) => method,
        Err(e) => {
            return Err(ParseError::MethodInvalid(e));
        },
    };
    if count == 2 {
        return Ok((Some(api), Some(CallState::new(method))));
    }
    assert(middle[2] == segments@[3]@);
    match parse_variant_name(segments[3].as_str()) {
        Ok(owned) => Ok((Some(api), Some(CallState::with(method, owned)))),
        Err(e) => Err(ParseError::StateInvalid(e)),
    }
}

/// Reads the path of a request.
fn parse_path<T: UriText, A: UriText, L: UriText>(path: &str) -> (r: Result<
    PathParts<T, A, L>,
    ParseError<T::Err, A::Err>,
>)
    ensures
        match r {
            Ok(parts) => parsed_path::<T, A, L>(pieces(path@, '/')) == Ok::<
                PathView<T, A, L>,
                Fault<T::Err, A::Err>,
            >(parts@),
            Err(e) => parsed_path::<T, A, L>(pieces(path@, '/')) == Err::<
                PathView<T, A, L>,
                Fault<T::Err, A::Err>,
            >(e@),
        },
{
    let segments = split(path, '/');
    let n = segments.len();
    assert(forall|i: int| 0 <= i < n ==> #[trigger] views(segments@)[i] == segments@[i]@);
    if segments[0].as_str().is_empty() {
        return Err(ParseError::ScopeMissed);
    }
    let (layer1, scope) = match split_once(segments[0].as_str(), '@') {
        Some(pair) => pair,
        None => {
            return Err(ParseError::NoLayer1);
        },
    };
    let layer1 = match L::parse_text(layer1.as_str()) {
        Ok(layer1) => layer1,
        Err(_) => {
            return Err(ParseError::Layer1);
        },
    };
    let scope = match T::parse_text(scope.as_str()) {
        Ok(scope) => scope,
        Err(e) => {
            return Err(ParseError::Scope(e));
        },
    };
    if n < 2 {
        return Err(ParseError::PathNoAuth);
    }
    if !segments[n - 1].as_str().is_empty() {
        return Err(ParseError::PathLastNoEmpty);
    }
    if n < 3 {
        return Err(ParseError::PathNoAuth);
    }
    let (data, auth) = parse_data_and_auth(segments[n - 2].as_str());
    let auth = match A::parse_text(auth.as_str()) {
        Ok(auth) => auth,
        Err(e) => {
            return Err(ParseError::AuthInvalid(e));
        },
    };
    match parse_call(&segments) {
        Ok((api, call)) => Ok(PathParts { scope, layer1, api, call, auth, data }),
        Err(e) => Err(e),
    }
}

/// Reads the parameters of a query.
fn parse_params(params: &Vec<String>) -> (r: Result<IndexMap<String, String>, String>)
    ensures
        match r {
            Ok(map) => parsed_params(views(params@)) == Ok::<
                Seq<(Seq<char>, Seq<char>)>,
                Seq<char>,
            >(query_content(map)),
            Err(param) => parsed_params(views(params@)) == Err::<
                Seq<(Seq<char>, Seq<char>)>,
                Seq<char>,
            >(param@),
        },
{
    let ghost all = views(params@);
    let mut map = query_new();
    let mut i: usize = 0;
    while i < params.len()
        invariant
            i <= params.len(),
            all == views(params@),
            parsed_params(all.take(i as int)) == Ok::<Seq<(Seq<char>, Seq<char>)>, Seq<char>>(
                query_content(map),
            ),
        decreases params.len() - i,
    {
        proof {
            assert(all.take(i + 1).drop_last() =~= all.take(i as int));
            assert(all.take(i + 1).last() == params@[i as int]@);
        }
        match split_once(params[i].as_str(), '=') {
            Some((key, value)) => {
                let key = percent_decode_text(key.as_str());
                let value = percent_decode_text(value.as_str());
                let joined = match query_get(&map, key.as_str()) {
                    Some(earlier) => {
                        let mut joined = earlier.clone();
                        joined.push(',');
                        joined.append(value.as_str());
                        assert(joined@ =~= earlier@ + seq![','] + value@);
                        joined
                    },
                    None => value,
                };
                query_insert(&mut map, key, joined);
            },
            None => {
                proof {
                    lemma_invalid_param(all, i + 1);
                }
                return Err(params[i].clone());
            },
        }
        i = i + 1;
    }
    assert(all.take(all.len() as int) =~= all);
    Ok(map)
}

/// The parameter refused among the first ones is that refused among all of them.
proof fn lemma_invalid_param(params: Seq<Seq<char>>, n: int)
    requires
        0 <= n <= params.len(),
        parsed_params(params.take(n)) is Err,
    ensures
        parsed_params(params) == parsed_params(params.take(n)),
    decreases params.len() - n,
{
    if n < params.len() {
        assert(params.take(n + 1).drop_last() =~= params.take(n));
        lemma_invalid_param(params, n + 1);
    } else {
        assert(params.take(n) =~= params);
    }
}

/// Reads the endpoints.
fn parse_endpoints(text: &str) -> (r: Vec<Endpoint>)
    ensures
        endpoint_views(r@) == at_most(
            parsed_endpoints(pieces(text@, ',')),
            MAX_ENDPOINTS as int,
        ),
{
    let texts = split(text, ',');
    let ghost all = views(texts@);
    let mut list: Vec<Endpoint> = Vec::new();
    let mut i: usize = 0;
    while i < texts.len() && list.len() < MAX_ENDPOINTS
        invariant
            i <= texts.len(),
            all == views(texts@),
            list@.len() <= MAX_ENDPOINTS,
            endpoint_views(list@) == parsed_endpoints(all.take(i as int)),
        decreases texts.len() - i,
    {
        let ghost before = endpoint_views(list@);
        proof {
            assert(all.take(i + 1).drop_last() =~= all.take(i as int));
            assert(all.take(i + 1).last() == texts@[i as int]@);
        }
        if !texts[i].as_str().is_empty() {
            let endpoint = Endpoint::parse_text(texts[i].as_str());
            list.push(endpoint);
            assert(endpoint_views(list@) =~= before.push(endpoint@));
        }
        i = i + 1;
    }
    proof {
        lemma_more_endpoints(all, i as int);
        assert(all.take(all.len() as int) =~= all);
        let whole = parsed_endpoints(all);
        if i < texts@.len() {
            if whole.len() > MAX_ENDPOINTS {
                assert(endpoint_views(list@) =~= whole.take(MAX_ENDPOINTS as int));
            } else {
                assert(endpoint_views(list@) =~= whole);
            }
        }
    }
    list
}

/// The endpoints of the first texts are the first of all the endpoints.
proof fn lemma_more_endpoints(texts: Seq<Seq<char>>, n: int)
    requires
        0 <= n <= texts.len(),
    ensures
        parsed_endpoints(texts.take(n)).is_prefix_of(parsed_endpoints(texts)),
    decreases texts.len() - n,
{
    if n < texts.len() {
        lemma_more_endpoints(texts, n + 1);
        assert(texts.take(n + 1).drop_last() =~= texts.take(n));
        let shorter = parsed_endpoints(texts.take(n));
        let longer = parsed_endpoints(texts.take(n + 1));
        let whole = parsed_endpoints(texts);
        assert(shorter =~= longer.subrange(0, shorter.len() as int));
        assert(longer =~= whole.subrange(0, longer.len() as int));
        assert(shorter =~= whole.subrange(0, shorter.len() as int));
    } else {
        assert(texts.take(n) =~= texts);
        let whole = parsed_endpoints(texts);
        assert(whole =~= whole.subrange(0, whole.len() as int));
    }
}

/// Reads the lock.
fn parse_lock<E1, E2>(lock: Option<String>) -> (r: Result<Option<Vec<u8>>, ParseError<E1, E2>>)
    ensures
        ({
            let text = match lock {
                Some(lock) => Some(lock@),
                None => None,
            };
            match r {
                Ok(Some(bytes)) => parsed_lock::<E1, E2>(text) == Ok::<
                    Option<Seq<u8>>,
                    Fault<E1, E2>,
                >(Some(bytes@)),
                Ok(None) => parsed_lock::<E1, E2>(text) == Ok::<Option<Seq<u8>>, Fault<E1, E2>>(None),
                Err(e) => parsed_lock::<E1, E2>(text) == Err::<Option<Seq<u8>>, Fault<E1, E2>>(e@),
            }
        }),
{
    match lock {
        None => Ok(None),
        Some(text) => match decode_lock(text.as_str()) {
            Err(e) => Err(ParseError::LockInvalidEncoding(e)),
            Ok(bytes) => if bytes.len() > MAX_LOCK {
                Err(ParseError::LockTooLong)
            } else {
                Ok(Some(bytes))
            },
        },
    }
}

/// Reads the pairs of a query.
fn parse_pairs<E1, E2>(map: IndexMap<String, String>) -> (r: Result<QueryParts, ParseError<E1, E2>>)
    ensures
        match r {
            Ok(parts) => parsed_pairs::<E1, E2>(query_content(map)) == Ok::<
                QueryView,
                Fault<E1, E2>,
            >(parts@),
            Err(e) => parsed_pairs::<E1, E2>(query_content(map)) == Err::<QueryView, Fault<E1, E2>>(
                e@,
            ),
        },
{
    let mut map = map;
    let lock = match parse_lock(query_remove(&mut map, "lock")) {
        Ok(lock) => lock,
        Err(e) => {
            return Err(e);
        },
    };
    let expiry = match query_remove(&mut map, "expiry") {
        None => None,
        Some(text) => match parse_time(text.as_str()) {
            Ok(time) => Some(time),
            Err(e) => {
                return Err(ParseError::ExpiryInvalid(e));
            },
        },
    };
    let endpoints: Vec<Endpoint> = match query_remove(&mut map, "endpoints") {
        None => Vec::new(),
        Some(text) => parse_endpoints(text.as_str()),
    };
    let parts = QueryParts { lock, expiry, endpoints, unknown_query: map };
    assert(endpoint_views(Seq::<Endpoint>::empty()) =~= Seq::<(EndpointKind, Seq<char>)>::empty());
    Ok(parts)
}

/// Reads the query of a request.
fn parse_query<E1, E2>(query: Option<String>) -> (r: Result<QueryParts, ParseError<E1, E2>>)
    ensures
        ({
            let text = match query {
                Some(query) => Some(query@),
                None => None,
            };
            match r {
                Ok(parts) => parsed_query::<E1, E2>(text) == Ok::<QueryView, Fault<E1, E2>>(parts@),
                Err(e) => parsed_query::<E1, E2>(text) == Err::<QueryView, Fault<E1, E2>>(e@),
            }
        }),
{
    match query {
        None => parse_pairs(query_new()),
        Some(text) => {
            let params = split(text.as_str(), '&');
            match parse_params(&params) {
                Ok(map) => parse_pairs(map),
                Err(param) => Err(ParseError::QueryParamInvalid(param)),
            }
        },
    }
}

impl<T: UriText, A: UriText, L: UriText> CallRequest<T, A, L> {
    /// Reads a request from the components of a URI.
    pub fn from_parts(parts: UriParts) -> (r: Result<Self, ParseError<T::Err, A::Err>>)
        ensures
            match r {
                Ok(request) => parsed::<T, A, L>(parts@) == Ok::<
                    RequestView<T, A, L>,
                    Fault<T::Err, A::Err>,
                >(request@),
                Err(e) => parsed::<T, A, L>(parts@) == Err::<
                    RequestView<T, A, L>,
                    Fault<T::Err, A::Err>,
                >(e@),
            },
    {
        if parts.scheme != "contract".to_owned() {
            return Err(ParseError::SchemeInvalid(parts.scheme));
        }
        if parts.authority || (parts.path.as_str().unicode_len() > 0 && parts.path.as_str().get_char(0)
            == '/') {
            return Err(ParseError::Authority);
        }
        let path = match parse_path::<T, A, L>(parts.path.as_str()) {
            Ok(path) => path,
            Err(e) => {
                return Err(e);
            },
        };
        let query = match parse_query(parts.query) {
            Ok(query) => query,
            Err(e) => {
                return Err(e);
            },
        };
        Ok(
            CallRequest {
                scope: path.scope,
                layer1: path.layer1,
                api: path.api,
                call: path.call,
                auth: path.auth,
                data: path.data,
                lock: query.lock,
                expiry: query.expiry,
                endpoints: query.endpoints,
                unknown_query: query.unknown_query,
            },
        )
    }

    /// Reads a request.
    ///
    /// # Special conditions
    ///
    /// If a URI contains more than 10 endpoints, endpoints from number 10 are ignored.
    ///
    /// A request which was written as a URI is read back, where it can be.
    pub fn from_str(s: &str) -> (r: Result<Self, ParseError<T::Err, A::Err>>)
        ensures
            match uri_reading(s@) {
                Err(e) => (r matches Err(ParseError::Uri(fault)) && fault == e),
                Ok(parts) => match r {
                    Ok(request) => parsed::<T, A, L>(parts) == Ok::<
                        RequestView<T, A, L>,
                        Fault<T::Err, A::Err>,
                    >(request@),
                    Err(e) => parsed::<T, A, L>(parts) == Err::<
                        RequestView<T, A, L>,
                        Fault<T::Err, A::Err>,
                    >(e@),
                },
            },
            forall|parts: UriPartsView| #[trigger]
                is_plain_uri(parts) && s@ == plain_uri(parts) ==> uri_reading(s@) == Ok::<
                    UriPartsView,
                    UriError,
                >(parts),
            r matches Ok(request) ==> request@.endpoints.len() <= MAX_ENDPOINTS,
            forall|request: RequestView<T, A, L>| #[trigger]
                is_readable(request) && s@ == request.uri_text() ==> (r matches Ok(read) && read@
                    == request),
    {
        proof {
            assert forall|request: RequestView<T, A, L>| #[trigger]
                is_readable(request) && s@ == request.uri_text() implies is_plain_uri(
                uri_parts(request),
            ) && s@ == plain_uri(uri_parts(request)) && parsed::<T, A, L>(uri_parts(request)) == Ok::<
                RequestView<T, A, L>,
                Fault<T::Err, A::Err>,
            >(request) by {
                law_request_reads_back_from_text(request);
            }
        }
        match parse_uri(s) {
            Ok(parts) => Self::from_parts(parts),
            Err(e) => Err(ParseError::Uri(e)),
        }
    }
}

/// Texts with a separator between them.
pub open spec fn joined(texts: Seq<Seq<char>>, separator: char) -> Seq<char>
    decreases texts.len(),
{
    if texts.len() == 0 {
        Seq::empty()
    } else if texts.len() == 1 {
        texts[0]
    } else {
        joined(texts.drop_last(), separator) + seq![separator] + texts.last()
    }
}

/// A pair of a query, percent-encoded.
pub open spec fn pair_text(pair: (Seq<char>, Seq<char>)) -> Seq<char> {
    encoded_text(pair.0) + seq!['='] + encoded_text(pair.1)
}

/// The texts of the endpoints, percent-encoded.
pub open spec fn endpoint_texts(endpoints: Seq<(EndpointKind, Seq<char>)>) -> Seq<Seq<char>> {
    endpoints.map_values(|e: (EndpointKind, Seq<char>)| encoded_text(e.1))
}

/// The texts of the pairs.
pub open spec fn pair_texts(pairs: Seq<(Seq<char>, Seq<char>)>) -> Seq<Seq<char>> {
    pairs.map_values(|pair: (Seq<char>, Seq<char>)| pair_text(pair))
}

impl<T: UriText, A: UriText, L: UriText> RequestView<T, A, L> {
    /// Everything in the request has a text.
    pub open spec fn writable(self) -> bool {
        &&& self.scope.writable()
        &&& self.layer1.writable()
        &&& self.auth.writable()
        &&& self.expiry matches Some(time) ==> time.well_formed()
    }

    /// The path segments of the API, the method and the state, each with a slash behind it.
    pub open spec fn call_text(self) -> Seq<char> {
        let api = match self.api {
            Some(api) => api + seq!['/'],
            None => Seq::empty(),
        };
        let call = match self.call {
            Some(call) => call.method + seq!['/'] + match call.owned {
                Some(owned) => owned + seq!['/'],
                None => Seq::empty(),
            },
            None => Seq::empty(),
        };
        api + call
    }

    /// The path segment of the data and the authority token.
    pub open spec fn auth_text(self) -> Seq<char> {
        match self.data {
            Some(data) => encoded_text(value_text(data)) + seq!['@'] + self.auth.text(),
            None => self.auth.text(),
        }
    }

    /// The path of the URI.
    pub open spec fn path_text(self) -> Seq<char> {
        self.layer1.text() + seq!['@'] + self.scope.bare_text() + seq!['/'] + self.call_text()
            + self.auth_text() + seq!['/']
    }

    /// The query of the URI. The lock, the expiry time, the endpoints and the other parameters
    /// follow each other without a separator.
    pub open spec fn query_text(self) -> Seq<char> {
        let lock = match self.lock {
            Some(lock) => "lock="@ + lock_text(lock),
            None => Seq::empty(),
        };
        let expiry = match self.expiry {
            Some(time) => "expiry="@ + time_text(time),
            None => Seq::empty(),
        };
        let endpoints = if self.endpoints.len() > 0 {
            "endpoints="@ + joined(endpoint_texts(self.endpoints), ',')
        } else {
            Seq::empty()
        };
        lock + expiry + endpoints + joined(pair_texts(self.unknown_query), '&')
    }

    /// The URI of the request.
    pub open spec fn uri_text(self) -> Seq<char> {
        "contract:"@ + self.path_text() + if self.has_query() {
            seq!['?'] + self.query_text()
        } else {
            Seq::empty()
        }
    }
}

/// Writes the endpoints.
fn write_endpoints(endpoints: &Vec<Endpoint>) -> (r: String)
    ensures
        r@ == joined(endpoint_texts(endpoint_views(endpoints@)), ','),
{
    let ghost all = endpoint_texts(endpoint_views(endpoints@));
    let mut text = String::new();
    let mut i: usize = 0;
    while i < endpoints.len()
        invariant
            i <= endpoints.len(),
            all == endpoint_texts(endpoint_views(endpoints@)),
            text@ == joined(all.take(i as int), ','),
        decreases endpoints.len() - i,
    {
        let ghost before = text@;
        if i > 0 {
            text.push(',');
        }
        let endpoint = percent_encode_text(endpoints[i].as_str());
        text.append(endpoint.as_str());
        proof {
            assert(all.take(i + 1).drop_last() =~= all.take(i as int));
            assert(all.take(i + 1).last() == endpoint@);
            if i == 0 {
                assert(text@ =~= all.take(1)[0]);
            } else {
                assert(text@ =~= before + seq![','] + endpoint@);
            }
        }
        i = i + 1;
    }
    assert(all.take(all.len() as int) =~= all);
    text
}

/// Writes the parameters of a query.
fn write_pairs(map: &IndexMap<String, String>) -> (r: String)
    ensures
        r@ == joined(pair_texts(query_content(*map)), '&'),
{
    let ghost all = pair_texts(query_content(*map));
    let len = query_len(map);
    let mut text = String::new();
    let mut i: usize = 0;
    while i < len
        invariant
            i <= len,
            len == query_content(*map).len(),
            all == pair_texts(query_content(*map)),
            text@ == joined(all.take(i as int), '&'),
        decreases len - i,
    {
        let ghost before = text@;
        if i > 0 {
            text.push('&');
        }
        let (key, value) = query_pair(map, i);
        let key = percent_encode_text(key.as_str());
        let value = percent_encode_text(value.as_str());
        text.append(key.as_str());
        text.push('=');
        text.append(value.as_str());
        proof {
            let pair = all.take(i + 1).last();
            assert(all.take(i + 1).drop_last() =~= all.take(i as int));
            assert(pair =~= key@ + seq!['='] + value@);
            if i == 0 {
                assert(text@ =~= pair);
                assert(all.take(1)[0] == pair);
            } else {
                assert(text@ =~= before + seq!['&'] + pair);
            }
        }
        i = i + 1;
    }
    assert(all.take(all.len() as int) =~= all);
    text
}

impl<T: UriText, A: UriText, L: UriText> CallRequest<T, A, L> {
    /// Writes the path of the URI.
    fn write_path(&self) -> (r: String)
        requires
            self@.writable(),
        ensures
            r@ == self@.path_text(),
            T::reads_back() && A::reads_back() && L::reads_back() ==> has_segment_ids(self@),
            has_read_data(self@),
    {
        let mut text = self.layer1.to_text();
        text.push('@');
        text.append(self.scope.to_bare_text().as_str());
        text.push('/');
        let ghost head = text@;
        assert(head =~= self@.layer1.text() + seq!['@'] + self@.scope.bare_text() + seq!['/']);
        if let Some(api) = &self.api {
            text.append(api.as_str());
            text.push('/');
        }
        let ghost with_api = text@;
        if let Some(call) = &self.call {
            text.append(call.method.as_str());
            text.push('/');
            if let Some(owned) = &call.owned {
                text.append(owned.as_str());
                text.push('/');
            }
        }
        proof {
            assert(text@ =~= head + self@.call_text());
        }
        let ghost middle = text@;
        if let Some(data) = &self.data {
            let plain = write_value(data);
            text.append(percent_encode_text(plain.as_str()).as_str());
            text.push('@');
        }
        text.append(self.auth.to_text().as_str());
        proof {
            assert(text@ =~= middle + self@.auth_text());
        }
        text.push('/');
        assert(text@ =~= middle + self@.auth_text() + seq!['/']);
        text
    }

    /// Writes the query of the URI.
    fn write_query(&self) -> (r: String)
        requires
            self@.writable(),
        ensures
            r@ == self@.query_text(),
            has_read_values(self@),
    {
        let mut text = String::new();
        if let Some(lock) = &self.lock {
            text.append("lock=");
            text.append(encode_lock(lock).as_str());
        }
        let ghost lock = text@;
        if let Some(expiry) = &self.expiry {
            text.append("expiry=");
            text.append(write_time(*expiry).as_str());
        }
        let ghost expiry = text@;
        if self.endpoints.len() > 0 {
            text.append("endpoints=");
            text.append(write_endpoints(&self.endpoints).as_str());
        }
        let ghost endpoints = text@;
        let pairs = write_pairs(&self.unknown_query);
        text.append(pairs.as_str());
        proof {
            assert(lock =~= match self@.lock {
                Some(lock) => "lock="@ + lock_text(lock),
                None => Seq::empty(),
            });
            assert(expiry =~= lock + match self@.expiry {
                Some(time) => "expiry="@ + time_text(time),
                None => Seq::empty(),
            });
            assert(endpoints =~= expiry + if self@.endpoints.len() > 0 {
                "endpoints="@ + joined(endpoint_texts(self@.endpoints), ',')
            } else {
                Seq::empty()
            });
        }
        text
    }

    /// Writes a request as a URI. A simple one can be read back, where the texts of its identifiers
    /// can.
    pub fn to_string(&self) -> (r: String)
        requires
            self@.writable(),
        ensures
            r@ == self@.uri_text(),
            T::reads_back() && A::reads_back() && L::reads_back() && is_simple(self@) ==> is_readable(
                self@,
            ),
    {
        let mut text = "contract:".to_owned();
        text.append(self.write_path().as_str());
        if self.has_query() {
            text.push('?');
            text.append(self.write_query().as_str());
        }
        proof {
            assert(text@ =~= self@.uri_text());
            if T::reads_back() && A::reads_back() && L::reads_back() && is_simple(self@) {
                lemma_simple_is_readable(self@);
            }
        }
        text
    }
}

} // verus!
