//! Bridge to the libraries behind the contract call requests: URI grammar, identifiers, names,
//! locks, times and strict values.

use crate::text::decimal;
use crate::types::{AuthToken, ContractId};
use amplify::ByteArray;
use baid64::base64::alphabet::Alphabet;
use baid64::base64::engine::{DecodePaddingMode, GeneralPurpose, GeneralPurposeConfig};
use baid64::base64::DecodeError as LockError;
use baid64::base64::Engine;
use baid64::Baid64ParseError;
use baid64::BAID64_ALPHABET;
use chrono::DateTime;
use chrono::ParseError as TimeError;
use chrono::Utc;
use fluent_uri::ParseError as UriError;
use fluent_uri::Uri;
use indexmap::IndexMap;
use strict_encoding::{InvalidRString, TypeName, VariantName};
use strict_types::StrictVal;
use ultrasonic::fe256;
use ultrasonic::AuthToken as UltraToken;
use ultrasonic::ContractId as UltraContractId;
use vstd::prelude::*;

verus! {

/// Failure to read a URI; carried through unopened.
#[verifier::external_type_specification]
#[verifier::external_body]
pub struct ExUriError(UriError);

/// Failure to read an identifier; carried through unopened.
#[verifier::external_type_specification]
#[verifier::external_body]
pub struct ExIdError(Baid64ParseError);

/// Failure to read a name; carried through unopened.
#[verifier::external_type_specification]
#[verifier::external_body]
pub struct ExNameError(InvalidRString);

/// Failure to decode a lock; carried through unopened.
#[verifier::external_type_specification]
#[verifier::external_body]
pub struct ExLockError(LockError);

/// Failure to read a time; carried through unopened.
#[verifier::external_type_specification]
#[verifier::external_body]
pub struct ExTimeError(TimeError);

/// Map which keeps the order of insertion.
#[verifier::external_type_specification]
#[verifier::external_body]
#[verifier::reject_recursive_types(K)]
#[verifier::reject_recursive_types(V)]
#[verifier::reject_recursive_types(S)]
pub struct ExIndexMap<K, V, S>(IndexMap<K, V, S>);

/// Components of a URI.
#[derive(Debug)]
pub struct UriParts {
    pub scheme: String,
    /// Whether there is an authority component, were it even empty.
    pub authority: bool,
    pub path: String,
    pub query: Option<String>,
}

/// Mathematical model of [`UriParts`].
#[verifier::ext_equal]
pub struct UriPartsView {
    pub scheme: Seq<char>,
    pub authority: bool,
    pub path: Seq<char>,
    pub query: Option<Seq<char>>,
}

impl View for UriParts {
    type V = UriPartsView;

    open spec fn view(&self) -> UriPartsView {
        UriPartsView {
            scheme: self.scheme@,
            authority: self.authority,
            path: self.path@,
            query: match self.query {
                Some(query) => Some(query@),
                None => None,
            },
        }
    }
}

/// What `fluent_uri::Uri::parse` reads of a text.
pub uninterp spec fn uri_reading(text: Seq<char>) -> Result<UriPartsView, UriError>;

/// A letter of the Latin alphabet or a decimal digit.
pub open spec fn is_alphanumeric(c: char) -> bool {
    'a' <= c <= 'z' || 'A' <= c <= 'Z' || '0' <= c <= '9'
}

/// A character which stands for itself in the path of a URI.
pub open spec fn is_path_char(c: char) -> bool {
    ||| is_alphanumeric(c)
    ||| c == '-' || c == '.' || c == '_' || c == '~'
    ||| c == '!' || c == '$' || c == '&' || c == '\'' || c == '(' || c == ')' || c == '*' || c == '+'
    ||| c == ',' || c == ';' || c == '=' || c == ':' || c == '@' || c == '/'
}

/// A hexadecimal digit in either case.
pub open spec fn is_hex_digit(c: char) -> bool {
    'a' <= c <= 'f' || 'A' <= c <= 'F' || '0' <= c <= '9'
}

/// A text of path characters and percent-encoded bytes; in a query, with question marks too.
pub open spec fn is_component(text: Seq<char>, query: bool) -> bool
    decreases text.len(),
{
    if text.len() == 0 {
        true
    } else if text[0] == '%' {
        text.len() >= 3 && is_hex_digit(text[1]) && is_hex_digit(text[2]) && is_component(
            text.skip(3),
            query,
        )
    } else {
        (is_path_char(text[0]) || (query && text[0] == '?')) && is_component(text.skip(1), query)
    }
}

/// A letter, then letters, digits and the characters `+`, `-`, `.`.
pub open spec fn is_scheme(text: Seq<char>) -> bool {
    &&& text.len() > 0
    &&& 'a' <= text[0] <= 'z' || 'A' <= text[0] <= 'Z'
    &&& forall|i: int|
        0 <= i < text.len() ==> is_alphanumeric(#[trigger] text[i]) || text[i] == '+' || text[i] == '-'
            || text[i] == '.'
}

/// Components of a URI without an authority, the path of which is relative.
pub open spec fn is_plain_uri(parts: UriPartsView) -> bool {
    &&& is_scheme(parts.scheme)
    &&& !parts.authority
    &&& parts.path.len() > 0 ==> parts.path[0] != '/'
    &&& is_component(parts.path, false)
    &&& parts.query matches Some(query) ==> is_component(query, true)
}

/// The URI with the given components, but an authority.
pub open spec fn plain_uri(parts: UriPartsView) -> Seq<char> {
    parts.scheme + seq![':'] + parts.path + match parts.query {
        Some(query) => seq!['?'] + query,
        None => Seq::empty(),
    }
}

/// `fluent_uri::Uri::parse`, with the components of the URI by its accessors. A URI without an
/// authority, the path of which is relative, is split into its components.
#[verifier::external_body]
pub(crate) fn parse_uri(text: &str) -> (r: Result<UriParts, UriError>)
    ensures
        match r {
            Ok(parts) => uri_reading(text@) == Ok::<UriPartsView, UriError>(parts@),
            Err(e) => uri_reading(text@) == Err::<UriPartsView, UriError>(e),
        },
        match r {
            Ok(read) => forall|parts: UriPartsView| #[trigger]
                is_plain_uri(parts) && text@ == plain_uri(parts) ==> read@ == parts,
            Err(_) => forall|parts: UriPartsView| #[trigger]
                is_plain_uri(parts) ==> text@ != plain_uri(parts),
        },
{
    let uri = Uri::parse(text)?;
    Ok(UriParts {
        scheme: uri.scheme().as_str().to_owned(),
        authority: uri.authority().is_some(),
        path: uri.path().as_str().to_owned(),
        query: uri.query().map(|query| query.as_str().to_owned()),
    })
}

/// What `ultrasonic::ContractId::from_str` reads of a text.
pub uninterp spec fn contract_id_reading(text: Seq<char>) -> Result<ContractId, Baid64ParseError>;

/// `ultrasonic::ContractId::from_str`.
#[verifier::external_body]
pub(crate) fn parse_contract_id(text: &str) -> (r: Result<ContractId, Baid64ParseError>)
    ensures
        r == contract_id_reading(text@),
{
    let id = text.parse::<UltraContractId>()?.to_byte_array();
    let hi = u128::from_be_bytes(id[..16].try_into().unwrap());
    let lo = u128::from_be_bytes(id[16..].try_into().unwrap());
    Ok(ContractId { hi, lo })
}

/// The text of a contract id with the prefix, as `ultrasonic::ContractId` displays it.
pub uninterp spec fn contract_id_text(id: ContractId) -> Seq<char>;

/// The text of a contract id without the prefix, as `ultrasonic::ContractId` displays it with the
/// format `-`.
pub uninterp spec fn contract_id_bare_text(id: ContractId) -> Seq<char>;

/// A character of the Baid64 encoding, or the dash which divides it.
pub open spec fn is_baid64_char(c: char) -> bool {
    is_alphanumeric(c) || c == '_' || c == '~' || c == '-'
}

/// A text of Baid64 characters.
pub open spec fn is_baid64(text: Seq<char>) -> bool {
    forall|i: int| 0 <= i < text.len() ==> is_baid64_char(#[trigger] text[i])
}

/// `ultrasonic::ContractId::fmt`: the bare text, which is one of Baid64 characters, with a prefix. The
/// text is read back.
#[verifier::external_body]
pub(crate) fn write_contract_id(id: ContractId) -> (r: String)
    ensures
        r@ == contract_id_text(id),
        (contract_id_reading(r@) == Ok::<ContractId, Baid64ParseError>(id)),
        r@ == "contract:"@ + contract_id_bare_text(id),
        is_baid64(r@.skip(9)),
{
    let bytes = [id.hi.to_be_bytes(), id.lo.to_be_bytes()].concat();
    let id = UltraContractId::from(<[u8; 32]>::try_from(bytes).unwrap());
    format!("{id}")
}

/// `ultrasonic::ContractId::fmt` with the format which drops the prefix: a text of Baid64
/// characters. The text is read back.
#[verifier::external_body]
pub(crate) fn write_bare_contract_id(id: ContractId) -> (r: String)
    ensures
        r@ == contract_id_bare_text(id),
        (contract_id_reading(r@) == Ok::<ContractId, Baid64ParseError>(id)),
        is_baid64(r@),
{
    let bytes = [id.hi.to_be_bytes(), id.lo.to_be_bytes()].concat();
    let id = UltraContractId::from(<[u8; 32]>::try_from(bytes).unwrap());
    format!("{id:-}")
}

/// What `ultrasonic::AuthToken::from_str` reads of a text.
pub uninterp spec fn auth_token_reading(text: Seq<char>) -> Result<AuthToken, Baid64ParseError>;

/// `ultrasonic::AuthToken::from_str`.
#[verifier::external_body]
pub(crate) fn parse_auth_token(text: &str) -> (r: Result<AuthToken, Baid64ParseError>)
    ensures
        r == auth_token_reading(text@),
{
    let token = text.parse::<UltraToken>()?.to_fe256().to_u256().to_le_bytes();
    let lo = u128::from_le_bytes(token[..16].try_into().unwrap());
    let hi = u128::from_le_bytes(token[16..].try_into().unwrap());
    Ok(AuthToken { hi, lo })
}

/// The text of a token of authority with the prefix, as `ultrasonic::AuthToken` displays it.
pub uninterp spec fn auth_token_text(token: AuthToken) -> Seq<char>;

/// The text of a token of authority without the prefix, as `ultrasonic::AuthToken` displays it with
/// the format `-`.
pub uninterp spec fn auth_token_bare_text(token: AuthToken) -> Seq<char>;

/// `ultrasonic::AuthToken::fmt`: the bare text, which is one of Baid64 characters, with a prefix. The
/// text is read back. It holds 30 bytes: a token which takes more is not displayed.
#[verifier::external_body]
pub(crate) fn write_auth_token(token: AuthToken) -> (r: String)
    requires
        token.hi < 0x1_0000_0000_0000_0000_0000_0000_0000,
    ensures
        r@ == auth_token_text(token),
        (auth_token_reading(r@) == Ok::<AuthToken, Baid64ParseError>(token)),
        r@ == "at:"@ + auth_token_bare_text(token),
        is_baid64(r@.skip(3)),
{
    let bytes = [token.lo.to_le_bytes(), token.hi.to_le_bytes()].concat();
    let token = UltraToken::from(fe256::from(<[u8; 32]>::try_from(bytes).unwrap()));
    format!("{token}")
}

/// `ultrasonic::AuthToken::fmt` with the format which drops the prefix: a text of Baid64 characters.
/// The text is read back. It holds 30 bytes: a token which takes more is not displayed.
#[verifier::external_body]
pub(crate) fn write_bare_auth_token(token: AuthToken) -> (r: String)
    requires
        token.hi < 0x1_0000_0000_0000_0000_0000_0000_0000,
    ensures
        r@ == auth_token_bare_text(token),
        (auth_token_reading(r@) == Ok::<AuthToken, Baid64ParseError>(token)),
        is_baid64(r@),
{
    let bytes = [token.lo.to_le_bytes(), token.hi.to_le_bytes()].concat();
    let token = UltraToken::from(fe256::from(<[u8; 32]>::try_from(bytes).unwrap()));
    format!("{token:-}")
}

/// A character which may stand in a name.
pub open spec fn is_name_char(c: char) -> bool {
    'a' <= c <= 'z' || 'A' <= c <= 'Z' || '0' <= c <= '9' || c == '_'
}

/// Up to 100 letters, digits and underscores.
pub open spec fn is_name_text(text: Seq<char>) -> bool {
    &&& 0 < text.len() <= 100
    &&& forall|i: int| 0 <= i < text.len() ==> is_name_char(#[trigger] text[i])
}

/// A name which starts with a capital letter or an underscore.
pub open spec fn is_type_name(text: Seq<char>) -> bool {
    is_name_text(text) && ('A' <= text[0] <= 'Z' || text[0] == '_')
}

/// A name which starts with a small letter or an underscore.
pub open spec fn is_variant_name(text: Seq<char>) -> bool {
    is_name_text(text) && ('a' <= text[0] <= 'z' || text[0] == '_')
}

/// The error of `strict_encoding::TypeName::from_str` on a text which is no type name.
pub uninterp spec fn type_name_error(text: Seq<char>) -> InvalidRString;

/// `strict_encoding::TypeName::from_str`: accepts exactly the type names.
#[verifier::external_body]
pub(crate) fn parse_type_name(text: &str) -> (r: Result<String, InvalidRString>)
    ensures
        match r {
            Ok(name) => is_type_name(text@) && name@ == text@,
            Err(e) => !is_type_name(text@) && e == type_name_error(text@),
        },
{
    text.parse::<TypeName>().map(String::from)
}

/// The error of `strict_encoding::VariantName::from_str` on a text which is no variant name.
pub uninterp spec fn variant_name_error(text: Seq<char>) -> InvalidRString;

/// `strict_encoding::VariantName::from_str`: accepts exactly the variant names.
#[verifier::external_body]
pub(crate) fn parse_variant_name(text: &str) -> (r: Result<String, InvalidRString>)
    ensures
        match r {
            Ok(name) => is_variant_name(text@) && name@ == text@,
            Err(e) => !is_variant_name(text@) && e == variant_name_error(text@),
        },
{
    text.parse::<VariantName>().map(String::from)
}

/// The value which holds a 64-bit number.
pub uninterp spec fn number_value(n: u64) -> StrictVal;

/// The value which holds a text.
pub uninterp spec fn string_value(text: Seq<char>) -> StrictVal;

/// The text of a value.
pub uninterp spec fn value_text(value: StrictVal) -> Seq<char>;

/// `strict_types::StrictVal::num` on a 64-bit number.
#[verifier::external_body]
pub(crate) fn value_of_number(n: u64) -> (r: StrictVal)
    ensures
        r == number_value(n),
{
    StrictVal::num(n)
}

/// `strict_types::StrictVal::str`.
#[verifier::external_body]
pub(crate) fn value_of_string(text: &str) -> (r: StrictVal)
    ensures
        r == string_value(text@),
{
    StrictVal::str(text)
}

/// The text which `strict_types::StrictVal` displays: of a 64-bit number its decimal digits, and of a
/// text the text in double quotes.
#[verifier::external_body]
pub(crate) fn write_value(value: &StrictVal) -> (r: String)
    ensures
        r@ == value_text(*value),
        forall|n: u64| *value == #[trigger] number_value(n) ==> r@ == decimal(n as nat),
        forall|text: Seq<char>| *value == #[trigger] string_value(text) ==> r@ == seq!['"'] + text
            + seq!['"'],
{
    value.to_string()
}

/// What the base64 engine with the Baid64 alphabet, which accepts no padding, decodes of a text.
pub uninterp spec fn lock_reading(text: Seq<char>) -> Result<Seq<u8>, LockError>;

/// `base64::Engine::decode` with the Baid64 alphabet and padding refused.
#[verifier::external_body]
pub(crate) fn decode_lock(text: &str) -> (r: Result<Vec<u8>, LockError>)
    ensures
        match r {
            Ok(lock) => lock_reading(text@) == Ok::<Seq<u8>, LockError>(lock@),
            Err(e) => lock_reading(text@) == Err::<Seq<u8>, LockError>(e),
        },
{
    let alphabet = Alphabet::new(BAID64_ALPHABET).expect("invalid Baid64 alphabet");
    let config = GeneralPurposeConfig::new().with_decode_padding_mode(
        DecodePaddingMode::RequireNone,
    );
    GeneralPurpose::new(&alphabet, config).decode(text.as_bytes())
}

/// What the base64 engine with the Baid64 alphabet, without padding, encodes bytes to.
pub uninterp spec fn lock_text(lock: Seq<u8>) -> Seq<char>;

/// `base64::Engine::encode` with the Baid64 alphabet and without padding. The decoder reads the
/// bytes back.
#[verifier::external_body]
pub(crate) fn encode_lock(lock: &Vec<u8>) -> (r: String)
    ensures
        r@ == lock_text(lock@),
        (lock_reading(r@) == Ok::<Seq<u8>, LockError>(lock@)),
        is_baid64(r@),
{
    let alphabet = Alphabet::new(BAID64_ALPHABET).expect("invalid Baid64 alphabet");
    let config = GeneralPurposeConfig::new().with_encode_padding(false);
    GeneralPurpose::new(&alphabet, config).encode(lock)
}

/// A moment of time: seconds since the Unix epoch, and nanoseconds. In the last second of a minute
/// the nanoseconds may exceed one second, which stands for a leap second.
#[derive(Copy, Clone, PartialEq, Eq, Structural, Debug)]
pub struct Timestamp {
    pub secs: i64,
    pub nanos: u32,
}

impl Timestamp {
    /// The moment is in the range of the calendar.
    pub open spec fn well_formed(self) -> bool {
        &&& -8334601228800 <= self.secs <= 8210266876799
        &&& self.nanos < 1_000_000_000 || (self.nanos < 2_000_000_000 && self.secs as int % 60 == 59)
    }
}

/// What `chrono::DateTime::parse_from_rfc3339` reads of a text, as a moment of time.
pub uninterp spec fn time_reading(text: Seq<char>) -> Result<Timestamp, TimeError>;

/// `chrono::DateTime::parse_from_rfc3339`, converted to UTC.
#[verifier::external_body]
pub(crate) fn parse_time(text: &str) -> (r: Result<Timestamp, TimeError>)
    ensures
        r == time_reading(text@),
        r matches Ok(time) ==> time.well_formed(),
{
    let time = DateTime::parse_from_rfc3339(text)?.with_timezone(&Utc);
    Ok(Timestamp { secs: time.timestamp(), nanos: time.timestamp_subsec_nanos() })
}

/// The text of a moment of time, as `chrono::DateTime::to_rfc3339` has it.
pub uninterp spec fn time_text(time: Timestamp) -> Seq<char>;

/// A text of digits and the characters `-`, `:`, `T`, `.`, `+`.
pub open spec fn is_time_text(text: Seq<char>) -> bool {
    forall|i: int|
        0 <= i < text.len() ==> '0' <= #[trigger] text[i] <= '9' || text[i] == '-' || text[i] == ':'
            || text[i] == 'T' || text[i] == '.' || text[i] == '+'
}

/// `chrono::DateTime::to_rfc3339` for UTC. In the years from 0 to 9999 the text is read back.
#[verifier::external_body]
pub(crate) fn write_time(time: Timestamp) -> (r: String)
    requires
        time.well_formed(),
    ensures
        r@ == time_text(time),
        is_time_text(r@),
        -62167219200 <= time.secs <= 253402300799 ==> time_reading(r@) == (Ok::<Timestamp, TimeError>(
            time,
        )),
{
    DateTime::from_timestamp(time.secs, time.nanos).expect("moment out of range").to_rfc3339()
}

/// The pairs of a query map, in the order of insertion.
pub uninterp spec fn query_content(map: IndexMap<String, String>) -> Seq<(Seq<char>, Seq<char>)>;

/// The pairs after a value was put under a key: in place of the earlier value, or at the end.
pub open spec fn put(
    pairs: Seq<(Seq<char>, Seq<char>)>,
    key: Seq<char>,
    value: Seq<char>,
) -> Seq<(Seq<char>, Seq<char>)>
    decreases pairs.len(),
{
    if pairs.len() == 0 {
        seq![(key, value)]
    } else if pairs[0].0 == key {
        pairs.update(0, (key, value))
    } else {
        seq![pairs[0]] + put(pairs.skip(1), key, value)
    }
}

/// The value under a key.
pub open spec fn found(pairs: Seq<(Seq<char>, Seq<char>)>, key: Seq<char>) -> Option<Seq<char>>
    decreases pairs.len(),
{
    if pairs.len() == 0 {
        None
    } else if pairs[0].0 == key {
        Some(pairs[0].1)
    } else {
        found(pairs.skip(1), key)
    }
}

/// The pairs without a key.
pub open spec fn without(
    pairs: Seq<(Seq<char>, Seq<char>)>,
    key: Seq<char>,
) -> Seq<(Seq<char>, Seq<char>)>
    decreases pairs.len(),
{
    if pairs.len() == 0 {
        pairs
    } else if pairs[0].0 == key {
        pairs.skip(1)
    } else {
        seq![pairs[0]] + without(pairs.skip(1), key)
    }
}

/// `indexmap::IndexMap::new`: an empty map.
#[verifier::external_body]
pub(crate) fn query_new() -> (r: IndexMap<String, String>)
    ensures
        query_content(r) == Seq::<(Seq<char>, Seq<char>)>::empty(),
{
    IndexMap::new()
}

/// `indexmap::IndexMap::len`: the number of pairs.
#[verifier::external_body]
pub(crate) fn query_len(map: &IndexMap<String, String>) -> (r: usize)
    ensures
        r == query_content(*map).len(),
{
    map.len()
}

/// `indexmap::IndexMap::get_index`: the pair at a position.
#[verifier::external_body]
pub(crate) fn query_pair(map: &IndexMap<String, String>, index: usize) -> (r: (&String, &String))
    requires
        index < query_content(*map).len(),
    ensures
        (r.0@, r.1@) == query_content(*map)[index as int],
{
    map.get_index(index).expect("index out of range")
}

/// `indexmap::IndexMap::get`: the value under a key.
#[verifier::external_body]
pub(crate) fn query_get<'a>(map: &'a IndexMap<String, String>, key: &str) -> (r: Option<&'a String>)
    ensures
        match r {
            Some(value) => found(query_content(*map), key@) == Some(value@),
            None => found(query_content(*map), key@) is None,
        },
{
    map.get(key)
}

/// `indexmap::IndexMap::insert`: an earlier value under the key is replaced in its place; else the
/// pair comes last.
#[verifier::external_body]
pub(crate) fn query_insert(map: &mut IndexMap<String, String>, key: String, value: String)
    ensures
        query_content(*final(map)) == put(query_content(*old(map)), key@, value@),
{
    map.insert(key, value);
}

/// `indexmap::IndexMap::shift_remove`: takes a pair out; the others keep their order.
#[verifier::external_body]
pub(crate) fn query_remove(map: &mut IndexMap<String, String>, key: &str) -> (r: Option<String>)
    ensures
        match r {
            Some(value) => found(query_content(*old(map)), key@) == Some(value@),
            None => found(query_content(*old(map)), key@) is None,
        },
        query_content(*final(map)) == without(query_content(*old(map)), key@),
{
    map.shift_remove(key)
}

} // verus!
