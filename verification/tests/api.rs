use argus::calendar::Date;
use argus::enable_banking::{
    api_error, authorization_request, claims, create_jwt, read_balances, read_page, read_reply,
    session_request, truncate, ApiError, ApiErrorKind, Aspsp, CallError, PageRun, Paging,
    TokenError, TransactionQuery,
};

#[test]
fn errors_are_classified() {
    assert_eq!(ApiError::classify(401, "", ""), ApiErrorKind::Unauthorized);
    assert_eq!(ApiError::classify(403, "EXPIRED_SESSION", ""), ApiErrorKind::Unauthorized);
    assert_eq!(ApiError::classify(400, "expired_session", ""), ApiErrorKind::ExpiredSession);
    assert_eq!(ApiError::classify(429, "", "aspsp_rate_limit_exceeded"), ApiErrorKind::RateLimited);
    assert_eq!(
        ApiError::classify(422, "WRONG_TRANSACTIONS_PERIOD", ""),
        ApiErrorKind::WrongTransactionsPeriod
    );
    assert_eq!(ApiError::classify(500, "ASPSP_ERROR", ""), ApiErrorKind::AspspError);
    assert_eq!(ApiError::classify(500, "X", "y"), ApiErrorKind::Other);
    // The code and the body are told apart by a space.
    assert_eq!(ApiError::classify(500, "RATE", "_LIMIT"), ApiErrorKind::Other);
}

#[test]
fn the_places_of_codes_and_messages() {
    let e = ApiError::from_response(400, "{\"error\":{\"code\":\"A\",\"message\":\"m\"},\"code\":\"B\"}");
    assert_eq!((e.code.as_str(), e.message.as_str()), ("A", "m"));
    let e = ApiError::from_response(400, "{\"error_code\":\"B\",\"detail\":\"d\"}");
    assert_eq!((e.code.as_str(), e.message.as_str()), ("B", "d"));
    let e = ApiError::from_response(400, "{\"error\":\"C\",\"message\":\"m\"}");
    assert_eq!((e.code.as_str(), e.message.as_str()), ("C", "m"));
    // The first place that holds anything decides, though it is no text.
    let e = ApiError::from_response(400, "{\"error_code\":5,\"code\":\"D\"}");
    assert_eq!(e.code, "UNKNOWN");
    let e = ApiError::from_response(502, "bad gateway");
    assert_eq!(e.code, "UNKNOWN");
    assert_eq!(e.message, "bad gateway");
    assert_eq!(e.text(), "Enable Banking 502 UNKNOWN: bad gateway");
    assert_eq!(ApiError::from_response(500, &"é".repeat(600)).message.chars().count(), 500);
}

#[test]
fn replies() {
    assert!(read_reply(200, "{\"a\":1}").is_ok());
    match read_reply(204, "nope") {
        Err(CallError::Unparseable(m, reason)) => {
            assert_eq!(m, "unparseable success body: nope");
            // What serde_json itself says of the text.
            let said = serde_json::from_str::<serde_json::Value>("nope").unwrap_err();
            assert_eq!(reason, said.to_string());
            assert_eq!(reason, "expected ident at line 1 column 2");
        }
        _ => panic!("read"),
    }
    let error = match read_reply(404, "{\"code\":\"X\"}") {
        Err(e) => e,
        Ok(_) => panic!("read"),
    };
    assert_eq!(api_error(&error).unwrap().code, "X");
    assert!(api_error(&CallError::Other("x".into())).is_none());
    assert_eq!(truncate("héllo", 2), "hé");
    assert_eq!(truncate("hé", 2), "hé");
}

#[test]
fn a_token_lives_an_hour() {
    let c = claims(1_000_000);
    assert_eq!(c.iat, 999_940);
    assert_eq!(c.exp, 1_003_600);
    assert_eq!(c.iss, "enablebanking.com");
    assert_eq!(c.aud, "api.enablebanking.com");
}

/// A key pair made for these tests and used nowhere else.
const TEST_KEY: &str = "\
MIIEpAIBAAKCAQEAq4jYE0F97hVu5WG9/fxKtIy46/ZQubkgBwDavC0GCkL/YpwP\n\
8J6Q4Qi+pO+yFQ0KjshJQcaAqmJpAfpIkpwsWCkt2lF2zAsio6NauYgDVzzEjceH\n\
k5Gh2OrGJzcX9JSSUeZaWMcNH5eJKB5zi1AOB8w03jWxoyYoSgDcQyphm8U7OmAH\n\
iO+kM7exMArFMlipA4CdVeMUqOMUjwLAJz2NCmiIiR2vx4cruxQg9WNJJ1cj7h8+\n\
RAY3/cvF7FvdSJTssM6SmDFCX+5ekVhGyQuJBuJ0qKeC6/lMMqhsCiTJRGLZgZlj\n\
sodrWbQ+r690ZHsYODsc82qI344g0sowzC1aJwIDAQABAoIBAES7bHkqwN7pT6ox\n\
5AMlWHnH+UDzTZ1dhGvJ99t23vi1p8dHaUus/bht3JYSRXUR6K0Vq+TjOSMMk67r\n\
LrEwSsR4m5rjEYro21ReXDgDO/N0sf1tefGzZPqZ+BQ2iy7BaW/PsVvpRmTmP1sH\n\
+JxV04lkVbrEIQ2SeIpOlfODw+C6Gu7zBHNVML6YUtvADFYXgJsb9TkA8fq2f3tW\n\
rTQe0294RkJ1YDcLihbXTThtAE3g0L5GFnmr6BLiHJoFWHzN48BD5tzzEIoNt0Y8\n\
f8tuo2EeM6hK24UW8xOiK5ACY9vCWDU3GfkOwwOO7DP2GcKncOA0Nrf8o0mZj7bX\n\
6GBkoKECgYEA1WklFO5FXKv3hhtA5N5tiSDFqr4XQfySwfzEFEtZxTTJMt5PKCdC\n\
ZkWWeA9XTSJxwAgUitsEZeIJtzXC3E2fS6RqA8sSVzCO6rRQqwxOkq9zzUv1Fgm8\n\
kWNPUr1/nox2By5JzjkW/9wcwACgK7EqQgvAocm9yYhRbakf2b7lj3UCgYEAzcRN\n\
07KNiiKgh4luqrpv4AajjC7/EmTK+nbjdR9Fs1cCcTW1lgzLDtLemZONKqrsqBvx\n\
nrTUGhq5DgKUTM3RyZ7wKs+FB/2/6Za5e3NJlrCi+h+bV6HVPHslekwAklhn2Z8p\n\
iHLXhWZBC8cE2wpDHXWfL4Lco9PlEObpAxfqi6sCgYEAvl2Ycl9JCC1uEvZkoMO4\n\
ucW+DVybqoT+9IPg9KlyXnODthiQS6UZmdkhK9+jZG8BQOb0TBiqh6dmO0N9mr6z\n\
BeqXluKibZwnID3QZ4QG4toXVl4XNZ1h097ed1QKbwekkSs9MvPCDGHwU2U7ez4C\n\
EAAjyS4IWal72XIvszCR3bECgYEAup4lL7CqqfOJwCMm2XTJblbXEZa2A8qiRNJ6\n\
rIi2QFbTgjWCARqNN16MQKEP0PjANh9R3eyGyT4fQ9OXCKlKcR/TFiCruHmtCn+G\n\
ra37uc1toofz7WB68qWFcgtoIVJIrZiqpHPzf6sjpzjS8I24HQnGW+LFlVfiUpf6\n\
ELIqKI0CgYBZP4QDUMRymw7uLT+0rXvi2bK6685+P/DE/TVjWj9a0ZeEn/fwXy3G\n\
DzFoMTUq3wCJfkQxaqptHn3OsK635RmFQxklZ48tiRRBr9dJDnvJTPcrprfhuySl\n\
AI6//wuOkaZ4y9VYusuqMlmjk/PU6816PDRMndUXZ0llp06/6tGoYQ==";

const TEST_PUBLIC_KEY: &str = "\
MIIBCgKCAQEAq4jYE0F97hVu5WG9/fxKtIy46/ZQubkgBwDavC0GCkL/YpwP8J6Q\n\
4Qi+pO+yFQ0KjshJQcaAqmJpAfpIkpwsWCkt2lF2zAsio6NauYgDVzzEjceHk5Gh\n\
2OrGJzcX9JSSUeZaWMcNH5eJKB5zi1AOB8w03jWxoyYoSgDcQyphm8U7OmAHiO+k\n\
M7exMArFMlipA4CdVeMUqOMUjwLAJz2NCmiIiR2vx4cruxQg9WNJJ1cj7h8+RAY3\n\
/cvF7FvdSJTssM6SmDFCX+5ekVhGyQuJBuJ0qKeC6/lMMqhsCiTJRGLZgZljsodr\n\
WbQ+r690ZHsYODsc82qI344g0sowzC1aJwIDAQAB";

fn pem(kind: &str, body: &str) -> String {
    format!("-----BEGIN RSA {kind} KEY-----\n{body}\n-----END RSA {kind} KEY-----\n")
}

#[test]
fn a_token_is_signed_under_the_application() {
    let key = pem("PRIVATE", TEST_KEY);
    let token = create_jwt("app-1", key.as_bytes(), 1_000_000).unwrap();

    let mut validation = jsonwebtoken::Validation::new(jsonwebtoken::Algorithm::RS256);
    validation.validate_exp = false;
    validation.set_audience(&["api.enablebanking.com"]);
    validation.set_issuer(&["enablebanking.com"]);
    let public = pem("PUBLIC", TEST_PUBLIC_KEY);
    let read = jsonwebtoken::decode::<serde_json::Value>(
        &token,
        &jsonwebtoken::DecodingKey::from_rsa_pem(public.as_bytes()).unwrap(),
        &validation,
    )
    .unwrap();
    assert_eq!(read.header.alg, jsonwebtoken::Algorithm::RS256);
    assert_eq!(read.header.kid, Some("app-1".to_string()));
    assert_eq!(read.claims["iss"], "enablebanking.com");
    assert_eq!(read.claims["aud"], "api.enablebanking.com");
    assert_eq!(read.claims["iat"], 999_940);
    assert_eq!(read.claims["exp"], 1_003_600);
    assert_eq!(read.claims.as_object().unwrap().len(), 4);

    // The same second gives the same token; another id or second does not.
    assert_eq!(create_jwt("app-1", key.as_bytes(), 1_000_000).unwrap(), token);
    assert_ne!(create_jwt("app-2", key.as_bytes(), 1_000_000).unwrap(), token);
    assert_ne!(create_jwt("app-1", key.as_bytes(), 1_000_001).unwrap(), token);
}

#[test]
fn keys_that_sign_nothing() {
    match create_jwt("app-1", b"no key", 1_000_000) {
        Err(TokenError::BadKey(reason)) => assert_eq!(reason, "InvalidKeyFormat"),
        other => panic!("{other:?}"),
    }
    // A public key can be read, but nothing can be signed with it.
    match create_jwt("app-1", pem("PUBLIC", TEST_PUBLIC_KEY).as_bytes(), 1_000_000) {
        Err(TokenError::Signing(reason)) => assert!(reason.starts_with("RSA key invalid: ")),
        other => panic!("{other:?}"),
    }
}

fn bank(limit: Option<i64>) -> Aspsp {
    Aspsp {
        name: "B".into(),
        country: "GB".into(),
        psu_types: vec![],
        maximum_consent_validity: limit,
        beta: false,
    }
}

#[test]
fn consents_undercut_the_limit() {
    assert_eq!(bank(Some(15_552_000)).consent_seconds(), 15_551_940);
    assert_eq!(bank(None).consent_seconds(), 7_775_940);
    assert_eq!(bank(Some(5)).consent_seconds(), 3540);
    assert_eq!(bank(Some(5)).max_valid_until(100), Some(3640));
    assert_eq!(bank(Some(i64::MAX)).max_valid_until(100), None);
}

#[test]
fn continuing_keeps_the_query() {
    let query = TransactionQuery {
        date_from: Some(Date { year: 2026, month: 3, day: 1 }),
        date_to: None,
        strategy: Some("default"),
    };
    let first = query.params(None);
    assert_eq!(
        first,
        vec![("date_from", "2026-03-01".to_string()), ("strategy", "default".to_string())]
    );
    let mut next = query.params(Some("K"));
    assert_eq!(next.pop(), Some(("continuation_key", "K".to_string())));
    assert_eq!(next, first);
    assert!(TransactionQuery::default().params(None).is_empty());
    let both = TransactionQuery { date_from: None, date_to: query.date_from, strategy: None };
    assert_eq!(both.params(None), vec![("date_to", "2026-03-01".to_string())]);
}

#[test]
fn pages() {
    let page = read_page(&serde_json::from_str(
        "{\"transactions\":[{\"status\":\"BOOK\"},7],\"continuation_key\":\"K\"}",
    ).unwrap());
    assert_eq!(page.transactions.len(), 2);
    assert_eq!(page.transactions[0].status, Some("BOOK".into()));
    assert_eq!(page.transactions[1].status, None);
    assert_eq!(page.continuation_key, Some("K".into()));
    let empty = read_page(&serde_json::from_str("{\"continuation_key\":\"\"}").unwrap());
    assert!(empty.transactions.is_empty());
    assert_eq!(empty.continuation_key, None);
    let balances = read_balances(&serde_json::from_str(
        "{\"balances\":[{\"balance_type\":\"CLBD\"}]}",
    ).unwrap());
    assert_eq!(balances[0].balance_type, Some("CLBD".into()));
    assert!(read_balances(&serde_json::from_str("{\"balances\":1}").unwrap()).is_empty());
}

#[test]
fn a_history_is_truncated_only_at_the_cap() {
    let mut p = Paging::start();
    assert_eq!(p.after_page(true, 2), None);
    assert_eq!(p.after_page(true, 2), Some(PageRun { pages: 2, truncated: true }));
    let mut p = Paging::start();
    assert_eq!(p.after_page(true, 2), None);
    assert_eq!(p.after_page(false, 2), Some(PageRun { pages: 2, truncated: false }));
    let mut p = Paging::start();
    assert_eq!(p.after_page(true, 0), Some(PageRun { pages: 1, truncated: true }));
}

#[test]
fn what_is_asked_of_the_bank() {
    let bank = Aspsp {
        name: "Mock \"ASPSP\"".into(),
        country: "GB".into(),
        psu_types: vec![],
        maximum_consent_validity: None,
        beta: false,
    };
    let body = authorization_request(&bank, "http://localhost:8080/callback", "s", "2026", "personal");
    let expected: serde_json::Value = serde_json::from_str(
        "{\"access\":{\"balances\":true,\"transactions\":true,\"valid_until\":\"2026\"},\
         \"aspsp\":{\"name\":\"Mock \\\"ASPSP\\\"\",\"country\":\"GB\"},\"state\":\"s\",\
         \"redirect_url\":\"http://localhost:8080/callback\",\"psu_type\":\"personal\"}",
    )
    .unwrap();
    assert_eq!(body, expected);
    assert_eq!(session_request("c1").to_string(), "{\"code\":\"c1\"}");
}

#[test]
fn kinds_are_found_in_any_letters() {
    assert_eq!(ApiError::classify(400, "expired_session", ""), ApiErrorKind::ExpiredSession);
    assert_eq!(ApiError::classify(400, "x", "Aspsp_Rate_Limit_Exceeded"), ApiErrorKind::RateLimited);
    assert_eq!(ApiError::classify(400, "é", "aspsp_error"), ApiErrorKind::AspspError);
}
