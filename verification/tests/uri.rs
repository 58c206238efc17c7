use indexmap::IndexMap;
use sonic::types::{AuthToken, ContractId};
use sonic::uri::{CallRequest, CallState, Endpoint, ParseError, UriText};
use sonic::uri_bridge::Timestamp;
use strict_types::StrictVal;

#[derive(Debug, PartialEq, Eq)]
struct Layer1(String);

impl UriText for Layer1 {
    type Err = String;

    fn parse_text(text: &str) -> Result<Self, String> {
        match text {
            "bc" | "tb" => Ok(Layer1(text.to_owned())),
            _ => Err(text.to_owned()),
        }
    }

    fn to_text(&self) -> String {
        self.0.clone()
    }

    fn to_bare_text(&self) -> String {
        self.0.clone()
    }
}

type Request = CallRequest<ContractId, AuthToken, Layer1>;

fn contract_id(s: &str) -> ContractId {
    ContractId::parse_text(s).unwrap()
}

fn auth_token(s: &str) -> AuthToken {
    AuthToken::parse_text(s).unwrap()
}

const HEAD: &str = "contract:tb@qKpMlzOe-Imn6ysZ-a8JjG2p-WHWvaFm-BWMiPi3-_LvnfRw";
const AUTH: &str = "at:5WIb5EMY-RCLbO3Wq-hGdddRP4-IeCQzP1y-S5H_UKzd-ViYmlA";

#[test]
fn short() {
    let s = "contract:tb@qKpMlzOe-Imn6ysZ-a8JjG2p-WHWvaFm-BWMiPi3-_LvnfRw/10@at:\
             5WIb5EMY-RCLbO3Wq-hGdddRP4-IeCQzP1y-S5H_UKzd-ViYmlA/";
    let req = Request::from_str(s).unwrap();
    assert_eq!(s, req.to_string());

    assert_eq!(
        req.scope,
        contract_id("contract:qKpMlzOe-Imn6ysZ-a8JjG2p-WHWvaFm-BWMiPi3-_LvnfRw")
    );
    assert_eq!(req.data, Some(StrictVal::num(10u64)));
    assert_eq!(req.auth, auth_token("at:5WIb5EMY-RCLbO3Wq-hGdddRP4-IeCQzP1y-S5H_UKzd-ViYmlA"));
    assert_eq!(req.api, None);
    assert_eq!(req.call, None);
    assert_eq!(req.lock, None);
    assert_eq!(req.expiry, None);
    assert_eq!(req.endpoints, vec![]);
    assert!(req.unknown_query.is_empty());
}

#[test]
fn api() {
    let s = "contract:tb@qKpMlzOe-Imn6ysZ-a8JjG2p-WHWvaFm-BWMiPi3-_LvnfRw/RGB20/10@at:\
             5WIb5EMY-RCLbO3Wq-hGdddRP4-IeCQzP1y-S5H_UKzd-ViYmlA/";
    let req = Request::from_str(s).unwrap();
    assert_eq!(s, req.to_string());

    assert_eq!(
        req.scope,
        contract_id("contract:qKpMlzOe-Imn6ysZ-a8JjG2p-WHWvaFm-BWMiPi3-_LvnfRw")
    );
    assert_eq!(req.data, Some(StrictVal::num(10u64)));
    assert_eq!(req.auth, auth_token("at:5WIb5EMY-RCLbO3Wq-hGdddRP4-IeCQzP1y-S5H_UKzd-ViYmlA"));
    assert_eq!(req.api, Some("RGB20".to_owned()));
    assert_eq!(req.call, None);
    assert_eq!(req.lock, None);
    assert_eq!(req.expiry, None);
    assert_eq!(req.endpoints, vec![]);
    assert!(req.unknown_query.is_empty());
}

#[test]
fn method() {
    let s = "contract:tb@qKpMlzOe-Imn6ysZ-a8JjG2p-WHWvaFm-BWMiPi3-_LvnfRw/RGB20/transfer/10@at:\
             5WIb5EMY-RCLbO3Wq-hGdddRP4-IeCQzP1y-S5H_UKzd-ViYmlA/";
    let req = Request::from_str(s).unwrap();
    assert_eq!(s, req.to_string());

    assert_eq!(
        req.scope,
        contract_id("contract:qKpMlzOe-Imn6ysZ-a8JjG2p-WHWvaFm-BWMiPi3-_LvnfRw")
    );
    assert_eq!(req.data, Some(StrictVal::num(10u64)));
    assert_eq!(req.auth, auth_token("at:5WIb5EMY-RCLbO3Wq-hGdddRP4-IeCQzP1y-S5H_UKzd-ViYmlA"));
    assert_eq!(req.api, Some("RGB20".to_owned()));
    assert_eq!(req.call, Some(CallState::new("transfer".to_owned())));
    assert_eq!(req.lock, None);
    assert_eq!(req.expiry, None);
    assert_eq!(req.endpoints, vec![]);
    assert!(req.unknown_query.is_empty());
}

#[test]
fn state() {
    let s = "contract:tb@qKpMlzOe-Imn6ysZ-a8JjG2p-WHWvaFm-BWMiPi3-_LvnfRw/RGB20/transfer/amount/10@at:\
             5WIb5EMY-RCLbO3Wq-hGdddRP4-IeCQzP1y-S5H_UKzd-ViYmlA/";
    let req = Request::from_str(s).unwrap();
    assert_eq!(s, req.to_string());

    assert_eq!(
        req.scope,
        contract_id("contract:qKpMlzOe-Imn6ysZ-a8JjG2p-WHWvaFm-BWMiPi3-_LvnfRw")
    );
    assert_eq!(req.data, Some(StrictVal::num(10u64)));
    assert_eq!(req.auth, auth_token("at:5WIb5EMY-RCLbO3Wq-hGdddRP4-IeCQzP1y-S5H_UKzd-ViYmlA"));
    assert_eq!(req.api, Some("RGB20".to_owned()));
    assert_eq!(req.call, Some(CallState::with("transfer".to_owned(), "amount".to_owned())));
    assert_eq!(req.lock, None);
    assert_eq!(req.expiry, None);
    assert_eq!(req.endpoints, vec![]);
    assert!(req.unknown_query.is_empty());
}

#[test]
fn lock() {
    let s = "contract:tb@qKpMlzOe-Imn6ysZ-a8JjG2p-WHWvaFm-BWMiPi3-_LvnfRw/RGB20/transfer/amount/10@at:\
             5WIb5EMY-RCLbO3Wq-hGdddRP4-IeCQzP1y-S5H_UKzd-ViYmlA/?lock=A64CDrfmG483";
    let req = Request::from_str(s).unwrap();
    assert_eq!(s, req.to_string());

    assert_eq!(
        req.scope,
        contract_id("contract:qKpMlzOe-Imn6ysZ-a8JjG2p-WHWvaFm-BWMiPi3-_LvnfRw")
    );
    assert_eq!(req.data, Some(StrictVal::num(10u64)));
    assert_eq!(req.auth, auth_token("at:5WIb5EMY-RCLbO3Wq-hGdddRP4-IeCQzP1y-S5H_UKzd-ViYmlA"));
    assert_eq!(req.api, Some("RGB20".to_owned()));
    assert_eq!(req.call, Some(CallState::with("transfer".to_owned(), "amount".to_owned())));
    assert_eq!(req.lock, Some(vec![3, 174, 2, 14, 183, 230, 27, 143, 55]));
    assert_eq!(req.expiry, None);
    assert_eq!(req.endpoints, vec![]);
    assert!(req.unknown_query.is_empty());
}

#[test]
fn expiry() {
    let s = "contract:tb@qKpMlzOe-Imn6ysZ-a8JjG2p-WHWvaFm-BWMiPi3-_LvnfRw/RGB20/transfer/amount/10@at:\
             5WIb5EMY-RCLbO3Wq-hGdddRP4-IeCQzP1y-S5H_UKzd-ViYmlA/?expiry=2021-05-20T08:32:48+00:00";
    let req = Request::from_str(s).unwrap();
    assert_eq!(s, req.to_string());

    assert_eq!(
        req.scope,
        contract_id("contract:qKpMlzOe-Imn6ysZ-a8JjG2p-WHWvaFm-BWMiPi3-_LvnfRw")
    );
    assert_eq!(req.data, Some(StrictVal::num(10u64)));
    assert_eq!(req.auth, auth_token("at:5WIb5EMY-RCLbO3Wq-hGdddRP4-IeCQzP1y-S5H_UKzd-ViYmlA"));
    assert_eq!(req.api, Some("RGB20".to_owned()));
    assert_eq!(req.call, Some(CallState::with("transfer".to_owned(), "amount".to_owned())));
    assert_eq!(req.lock, None);
    assert_eq!(req.expiry, Some(Timestamp { secs: 1621499568, nanos: 0 }));
    assert_eq!(req.endpoints, vec![]);
    assert!(req.unknown_query.is_empty());
}

#[test]
fn endpoints() {
    let s = "contract:tb@qKpMlzOe-Imn6ysZ-a8JjG2p-WHWvaFm-BWMiPi3-_LvnfRw/RGB20/transfer/amount/10@at:\
             5WIb5EMY-RCLbO3Wq-hGdddRP4-IeCQzP1y-S5H_UKzd-ViYmlA/?\
             endpoints=http://127.0.0.1:8080,\
             https+json-rpc://127.0.0.1:8081,\
             wss://127.0.0.1:8081,\
             storm://127.0.0.1:8082,some_bullshit";
    let req = Request::from_str(s).unwrap();
    assert_eq!(s, req.to_string());

    assert_eq!(
        req.scope,
        contract_id("contract:qKpMlzOe-Imn6ysZ-a8JjG2p-WHWvaFm-BWMiPi3-_LvnfRw")
    );
    assert_eq!(req.data, Some(StrictVal::num(10u64)));
    assert_eq!(req.auth, auth_token("at:5WIb5EMY-RCLbO3Wq-hGdddRP4-IeCQzP1y-S5H_UKzd-ViYmlA"));
    assert_eq!(req.api, Some("RGB20".to_owned()));
    assert_eq!(req.call, Some(CallState::with("transfer".to_owned(), "amount".to_owned())));
    assert_eq!(req.lock, None);
    assert_eq!(req.expiry, None);
    assert_eq!(req.endpoints, 
        vec![
            Endpoint::RestHttp("http://127.0.0.1:8080".to_owned()),
            Endpoint::JsonRpc("https+json-rpc://127.0.0.1:8081".to_owned()),
            Endpoint::WebSockets("wss://127.0.0.1:8081".to_owned()),
            Endpoint::Storm("storm://127.0.0.1:8082".to_owned()),
            Endpoint::UnspecifiedMeans("some_bullshit".to_owned())
        ]
    );
    assert!(req.unknown_query.is_empty());

    let req = Request::from_str(
        "contract:tb@qKpMlzOe-Imn6ysZ-a8JjG2p-WHWvaFm-BWMiPi3-_LvnfRw/RGB20/transfer/amount/10@at:\
             5WIb5EMY-RCLbO3Wq-hGdddRP4-IeCQzP1y-S5H_UKzd-ViYmlA/?\
             endpoints=http://127.0.0.1:8080,\
             https+json-rpc://127.0.0.1:8081&\
             endpoints=wss://127.0.0.1:8081,\
             storm://127.0.0.1:8082&endpoints=some_bullshit",
    )
    .unwrap();
    assert_eq!(s, req.to_string());

    assert_eq!(
        req.scope,
        contract_id("contract:qKpMlzOe-Imn6ysZ-a8JjG2p-WHWvaFm-BWMiPi3-_LvnfRw")
    );
    assert_eq!(req.data, Some(StrictVal::num(10u64)));
    assert_eq!(req.auth, auth_token("at:5WIb5EMY-RCLbO3Wq-hGdddRP4-IeCQzP1y-S5H_UKzd-ViYmlA"));
    assert_eq!(req.api, Some("RGB20".to_owned()));
    assert_eq!(req.call, Some(CallState::with("transfer".to_owned(), "amount".to_owned())));
    assert_eq!(req.lock, None);
    assert_eq!(req.expiry, None);
    assert_eq!(
        req.endpoints,
        vec![
            Endpoint::RestHttp("http://127.0.0.1:8080".to_owned()),
            Endpoint::JsonRpc("https+json-rpc://127.0.0.1:8081".to_owned()),
            Endpoint::WebSockets("wss://127.0.0.1:8081".to_owned()),
            Endpoint::Storm("storm://127.0.0.1:8082".to_owned()),
            Endpoint::UnspecifiedMeans("some_bullshit".to_owned())
        ]
    );
    assert!(req.unknown_query.is_empty());
}

#[test]
fn unknown_query() {
    let s = "contract:tb@qKpMlzOe-Imn6ysZ-a8JjG2p-WHWvaFm-BWMiPi3-_LvnfRw/RGB20/transfer/amount/10@at:\
             5WIb5EMY-RCLbO3Wq-hGdddRP4-IeCQzP1y-S5H_UKzd-ViYmlA/?sats=40&bull=shit&other=x";
    let req = Request::from_str(s).unwrap();
    assert_eq!(s, req.to_string());

    assert_eq!(
        req.scope,
        contract_id("contract:qKpMlzOe-Imn6ysZ-a8JjG2p-WHWvaFm-BWMiPi3-_LvnfRw")
    );
    assert_eq!(req.data, Some(StrictVal::num(10u64)));
    assert_eq!(req.auth, auth_token("at:5WIb5EMY-RCLbO3Wq-hGdddRP4-IeCQzP1y-S5H_UKzd-ViYmlA"));
    assert_eq!(req.api, Some("RGB20".to_owned()));
    assert_eq!(req.call, Some(CallState::with("transfer".to_owned(), "amount".to_owned())));
    assert_eq!(req.lock, None);
    assert_eq!(req.expiry, None);
    assert_eq!(req.endpoints, vec![]);
    let pairs = req.unknown_query.into_iter().collect::<Vec<_>>();
    assert_eq!(
        pairs,
        vec![
            ("sats".to_owned(), "40".to_owned()),
            ("bull".to_owned(), "shit".to_owned()),
            ("other".to_owned(), "x".to_owned()),
        ]
    );
}

fn refused(s: &str) -> ParseError<baid64::Baid64ParseError, baid64::Baid64ParseError> {
    Request::from_str(s).unwrap_err()
}

#[test]
fn each_fault_is_reported() {
    assert!(matches!(refused("no uri at all"), ParseError::Uri(_)));
    let bitcoin = refused("bitcoin:tb@x/");
    assert!(matches!(bitcoin, ParseError::SchemeInvalid(s) if s == "bitcoin"));
    assert!(matches!(refused("contract://tb@x/"), ParseError::Authority));
    assert!(matches!(refused("contract:/tb@x/"), ParseError::Authority));
    assert!(matches!(refused("contract:"), ParseError::ScopeMissed));
    assert!(matches!(refused("contract:tb/"), ParseError::NoLayer1));
    assert!(matches!(refused("contract:xy@x/"), ParseError::Layer1));
    assert!(matches!(refused("contract:tb@x/"), ParseError::Scope(_)));
    assert!(matches!(refused(HEAD), ParseError::PathNoAuth));
    assert!(matches!(refused(&format!("{HEAD}/")), ParseError::PathNoAuth));
    assert!(matches!(refused(&format!("{HEAD}/{AUTH}")), ParseError::PathLastNoEmpty));
    assert!(matches!(refused(&format!("{HEAD}/at:x/")), ParseError::AuthInvalid(_)));
    assert!(matches!(refused(&format!("{HEAD}/rgb20/{AUTH}/")), ParseError::ApiInvalid(_)));
    assert!(matches!(refused(&format!("{HEAD}/RGB20/Send/{AUTH}/")), ParseError::MethodInvalid(_)));
    assert!(matches!(
        refused(&format!("{HEAD}/RGB20/send/2x/{AUTH}/")),
        ParseError::StateInvalid(_)
    ));
    assert!(matches!(
        refused(&format!("{HEAD}/{AUTH}/?lock=***")),
        ParseError::LockInvalidEncoding(_)
    ));
    assert!(matches!(
        refused(&format!("{HEAD}/{AUTH}/?expiry=yesterday")),
        ParseError::ExpiryInvalid(_)
    ));
    let flag = refused(&format!("{HEAD}/{AUTH}/?a=b&flag"));
    assert!(matches!(flag, ParseError::QueryParamInvalid(s) if s == "flag"));
}

#[test]
fn lock_length_is_limited() {
    // 4 characters stand for 3 bytes, and 2 characters for one more.
    let longest = format!("{}AA", "A".repeat(4 * 85));
    let req = Request::from_str(&format!("{HEAD}/{AUTH}/?lock={longest}")).unwrap();
    assert_eq!(req.lock, Some(vec![0; 256]));
    let longer = format!("{}AAA", "A".repeat(4 * 85));
    assert!(matches!(
        refused(&format!("{HEAD}/{AUTH}/?lock={longer}")),
        ParseError::LockTooLong
    ));
}

#[test]
fn endpoints_past_the_tenth_are_ignored() {
    let list = (0..12).map(|i| format!("e{i}")).collect::<Vec<_>>().join(",");
    let req = Request::from_str(&format!("{HEAD}/{AUTH}/?endpoints=,{list}")).unwrap();
    let expected =
        (0..10).map(|i| Endpoint::UnspecifiedMeans(format!("e{i}"))).collect::<Vec<_>>();
    assert_eq!(req.endpoints, expected);
}

#[test]
fn request_without_data_and_extra_segments() {
    let req = Request::from_str(&format!("{HEAD}/RGB20/send/owned/ignored/too/{AUTH}/")).unwrap();
    assert_eq!(req.data, None);
    assert_eq!(req.call, Some(CallState::with("send".to_owned(), "owned".to_owned())));
    assert!(!req.has_query());
    assert_eq!(req.to_string(), format!("{HEAD}/RGB20/send/owned/{AUTH}/"));
}

#[test]
fn text_data_is_quoted() {
    let req = Request::from_str(&format!("{HEAD}/+7x@{AUTH}/")).unwrap();
    assert_eq!(req.data, Some(StrictVal::str("+7x")));
    assert_eq!(req.to_string(), format!("{HEAD}/%22+7x%22@{AUTH}/"));
    let req = Request::from_str(&format!("{HEAD}/+7@{AUTH}/")).unwrap();
    assert_eq!(req.data, Some(StrictVal::num(7u64)));
}

#[test]
fn query_is_percent_encoded() {
    let mut req = Request::from_str(&format!("{HEAD}/{AUTH}/")).unwrap();
    let mut map = IndexMap::new();
    map.insert("a b".to_owned(), "x&y=z[\u{e9}]".to_owned());
    req.unknown_query = map;
    assert!(req.has_query());
    let s = req.to_string();
    assert_eq!(s, format!("{HEAD}/{AUTH}/?a%20b=x%26y%3Dz%5B%C3%A9%5D"));
    let back = Request::from_str(&s).unwrap();
    assert_eq!(back.unknown_query.get("a b").unwrap(), "x&y=z[\u{e9}]");

    // Bytes which are not UTF-8 are replaced.
    let lossy = Request::from_str(&format!("{HEAD}/{AUTH}/?k=%FF")).unwrap();
    assert_eq!(lossy.unknown_query.get("k").unwrap(), "\u{fffd}");
}

#[test]
fn identifiers_have_two_texts() {
    let id = contract_id("qKpMlzOe-Imn6ysZ-a8JjG2p-WHWvaFm-BWMiPi3-_LvnfRw");
    assert_eq!(id.to_bare_text(), "qKpMlzOe-Imn6ysZ-a8JjG2p-WHWvaFm-BWMiPi3-_LvnfRw");
    assert_eq!(id.to_text(), "contract:qKpMlzOe-Imn6ysZ-a8JjG2p-WHWvaFm-BWMiPi3-_LvnfRw");
    let token = auth_token(AUTH);
    assert_eq!(token.to_text(), AUTH);
    assert_eq!(format!("at:{}", token.to_bare_text()), AUTH);
}

#[test]
fn expiry_with_fraction_and_offset() {
    let req =
        Request::from_str(&format!("{HEAD}/{AUTH}/?expiry=2021-05-20T10:32:48.25+02:00")).unwrap();
    assert_eq!(req.expiry, Some(Timestamp { secs: 1621499568, nanos: 250_000_000 }));
    assert_eq!(
        req.to_string(),
        format!("{HEAD}/{AUTH}/?expiry=2021-05-20T08:32:48.250+00:00")
    );
}

#[test]
fn requests_are_read_back_from_their_texts() {
    let request = || Request {
        scope: contract_id("contract:qKpMlzOe-Imn6ysZ-a8JjG2p-WHWvaFm-BWMiPi3-_LvnfRw"),
        layer1: Layer1("bc".to_owned()),
        api: Some("RGB20".to_owned()),
        call: Some(CallState::with("transfer".to_owned(), "amount".to_owned())),
        auth: auth_token(AUTH),
        data: Some(StrictVal::num(7u64)),
        lock: None,
        expiry: None,
        endpoints: vec![],
        unknown_query: IndexMap::new(),
    };
    let mut with_pairs = request();
    with_pairs.unknown_query.insert("caf\u{e9} & tea".to_owned(), "a=b?".to_owned());
    with_pairs.unknown_query.insert("other".to_owned(), "[1]".to_owned());
    let mut with_endpoints = request();
    with_endpoints.endpoints =
        vec![Endpoint::parse_text("https://example.com/a b?c"), Endpoint::parse_text("storm://x")];
    let mut with_lock = request();
    with_lock.lock = Some(vec![1, 2, 3]);
    let mut with_expiry = request();
    with_expiry.expiry = Some(Timestamp { secs: 1700000000, nanos: 0 });
    for request in [request(), with_pairs, with_endpoints, with_lock, with_expiry] {
        let read = Request::from_str(&request.to_string()).unwrap();
        assert_eq!(read.scope, request.scope);
        assert_eq!(read.layer1, request.layer1);
        assert_eq!(read.api, request.api);
        assert_eq!(read.call, request.call);
        assert_eq!(read.auth, request.auth);
        assert_eq!(read.data, request.data);
        assert_eq!(read.lock, request.lock);
        assert_eq!(read.expiry, request.expiry);
        assert_eq!(read.endpoints, request.endpoints);
        assert_eq!(read.unknown_query, request.unknown_query);
    }

    // A brace has no place in a URI
    let mut braced = request();
    braced.unknown_query.insert("a".to_owned(), "{}".to_owned());
    assert!(matches!(Request::from_str(&braced.to_string()), Err(ParseError::Uri(_))));
}

#[test]
fn any_value_is_written() {
    let mut req = Request::from_str(&format!("{HEAD}/{AUTH}/")).unwrap();
    assert_eq!(req.data, None);
    req.data = Some(StrictVal::bytes([1u8, 0xAB]));
    assert_eq!(req.to_string(), format!("{HEAD}/0x01ab@{AUTH}/"));
    let read = Request::from_str(&req.to_string()).unwrap();
    assert_eq!(read.data, Some(StrictVal::str("0x01ab")));
    req.data = Some(StrictVal::newtype(5u64));
    assert_eq!(req.to_string(), format!("{HEAD}/5@{AUTH}/"));
}
