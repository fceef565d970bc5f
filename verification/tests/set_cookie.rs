use cookieparse::date::CookieDate;
use cookieparse::error::CookieParseError;
use cookieparse::setcookie::{
    parse_setcookies_from_str, Cookie, CookieName, CookieValue, SameSiteValue,
};

fn base(name: &str, value: &str) -> Cookie {
    Cookie {
        name: CookieName(name.to_string()),
        value: CookieValue(value.to_string()),
        domain: None,
        expires: None,
        http_only: false,
        max_age: None,
        partitioned: false,
        path: None,
        same_site: None,
        secure: false,
    }
}

#[test]
fn test_setcookie_bytes() {
    let sample = "cookie-name=cookie-value; Domain=domain-value; Secure; HttpOnly";
    let cookie = parse_setcookies_from_str(sample).unwrap();
    let expected_cookie = Cookie {
        name: CookieName("cookie-name".to_string()),
        value: CookieValue("cookie-value".to_string()),
        domain: Some("domain-value".to_string()),
        expires: None,
        http_only: true,
        max_age: None,
        partitioned: false,
        path: None,
        same_site: None,
        secure: true,
    };
    assert_eq!(cookie, expected_cookie);
}

#[test]
fn empty_input_is_malformed() {
    assert_eq!(
        parse_setcookies_from_str("").unwrap_err(),
        CookieParseError::Malformed
    );
}

#[test]
fn empty_name_is_invalid() {
    assert_eq!(
        parse_setcookies_from_str("=value").unwrap_err(),
        CookieParseError::InvalidName
    );
}

#[test]
fn empty_value_is_accepted() {
    let cookie = parse_setcookies_from_str("name=").unwrap();
    assert_eq!(cookie, base("name", ""));
}

#[test]
fn name_with_separator_byte_is_invalid() {
    assert_eq!(
        parse_setcookies_from_str("na@me=v").unwrap_err(),
        CookieParseError::InvalidName
    );
    assert_eq!(
        parse_setcookies_from_str("na\u{1}me=v").unwrap_err(),
        CookieParseError::InvalidName
    );
}

#[test]
fn value_with_space_is_invalid() {
    assert_eq!(
        parse_setcookies_from_str("n=a b").unwrap_err(),
        CookieParseError::InvalidValue
    );
}

#[test]
fn quoted_value_is_stripped() {
    let cookie = parse_setcookies_from_str("n=\"quoted-val\"").unwrap();
    assert_eq!(cookie, base("n", "quoted-val"));
}

#[test]
fn unbalanced_quote_is_invalid() {
    assert_eq!(
        parse_setcookies_from_str("n=\"abc").unwrap_err(),
        CookieParseError::InvalidValue
    );
}

#[test]
fn quoted_value_cannot_hold_a_semicolon() {
    assert_eq!(
        parse_setcookies_from_str("name=\"a; b\"").unwrap_err(),
        CookieParseError::InvalidValue
    );
}

#[test]
fn secure_matches_in_any_case() {
    for input in ["n=v; secure", "n=v; SECURE", "n=v; Secure", "n=v; sEcUrE"] {
        let cookie = parse_setcookies_from_str(input).unwrap();
        assert!(cookie.secure, "{input} must set the flag");
    }
}

#[test]
fn http_only_and_partitioned_match_in_any_case() {
    let cookie = parse_setcookies_from_str("n=v; HTTPONLY; partitioned").unwrap();
    assert!(cookie.http_only);
    assert!(cookie.partitioned);
}

#[test]
fn flag_ignores_an_attached_value() {
    let cookie = parse_setcookies_from_str("n=v; Secure; Secure=false").unwrap();
    assert!(cookie.secure);
}

#[test]
fn duplicate_valued_attribute_keeps_the_last() {
    let cookie = parse_setcookies_from_str("n=v; Max-Age=10; Max-Age=20").unwrap();
    assert_eq!(cookie.max_age, Some(20));
    let cookie = parse_setcookies_from_str("n=v; Domain=a; Domain=b").unwrap();
    assert_eq!(cookie.domain, Some("b".to_string()));
}

#[test]
fn unrecognized_attribute_is_ignored() {
    let with_foo = parse_setcookies_from_str("n=v; Foo=bar").unwrap();
    let plain = parse_setcookies_from_str("n=v").unwrap();
    assert_eq!(with_foo, plain);
    let bare = parse_setcookies_from_str("n=v; Foo").unwrap();
    assert_eq!(bare, plain);
}

#[test]
fn path_is_stored_verbatim() {
    let cookie = parse_setcookies_from_str("n=v; Path=/docs/Web").unwrap();
    assert_eq!(cookie.path, Some("/docs/Web".to_string()));
}

#[test]
fn max_age_parses_signed_values() {
    assert_eq!(
        parse_setcookies_from_str("n=v; Max-Age=3600").unwrap().max_age,
        Some(3600)
    );
    assert_eq!(
        parse_setcookies_from_str("n=v; Max-Age=-5").unwrap().max_age,
        Some(-5)
    );
    assert_eq!(
        parse_setcookies_from_str("n=v; Max-Age=+7").unwrap().max_age,
        Some(7)
    );
    assert_eq!(
        parse_setcookies_from_str("n=v; Max-Age=2147483647").unwrap().max_age,
        Some(2147483647)
    );
    assert_eq!(
        parse_setcookies_from_str("n=v; Max-Age=-2147483648").unwrap().max_age,
        Some(-2147483648)
    );
}

#[test]
fn max_age_rejects_what_does_not_fit() {
    for input in [
        "n=v; Max-Age=abc",
        "n=v; Max-Age=",
        "n=v; Max-Age",
        "n=v; Max-Age=2147483648",
        "n=v; Max-Age=-2147483649",
        "n=v; Max-Age=99999999999999999999",
        "n=v; Max-Age=1.5",
    ] {
        assert_eq!(
            parse_setcookies_from_str(input).unwrap_err(),
            CookieParseError::InvalidMaxAge,
            "{input}"
        );
    }
}

#[test]
fn same_site_matches_in_any_case() {
    assert_eq!(
        parse_setcookies_from_str("n=v; SameSite=Strict").unwrap().same_site,
        Some(SameSiteValue::Strict)
    );
    assert_eq!(
        parse_setcookies_from_str("n=v; samesite=LAX").unwrap().same_site,
        Some(SameSiteValue::Lax)
    );
    assert_eq!(
        parse_setcookies_from_str("n=v; SAMESITE=none").unwrap().same_site,
        Some(SameSiteValue::NoneValue)
    );
}

#[test]
fn same_site_rejects_other_tokens() {
    assert_eq!(
        parse_setcookies_from_str("n=v; SameSite=Sideways").unwrap_err(),
        CookieParseError::InvalidSameSite
    );
    assert_eq!(
        parse_setcookies_from_str("n=v; SameSite=").unwrap_err(),
        CookieParseError::InvalidSameSite
    );
}

#[test]
fn expires_captures_the_date_fields() {
    let cookie =
        parse_setcookies_from_str("n=v; Expires=Sun, 06 Nov 1994 08:49:37 GMT").unwrap();
    let date = cookie.expires.unwrap();
    assert_eq!(
        date,
        CookieDate {
            day_name: "Sun".to_string(),
            day: 6,
            month: "Nov".to_string(),
            year: 1994,
            minute: 49,
            second: 37,
        }
    );
}

#[test]
fn expires_performs_no_range_check() {
    let cookie =
        parse_setcookies_from_str("n=v; Expires=Fri, 99 Dec 2099 23:59:99 GMT").unwrap();
    let date = cookie.expires.unwrap();
    assert_eq!(date.day, 99);
    assert_eq!(date.second, 99);
}

#[test]
fn bad_dates_are_invalid() {
    for input in [
        "n=v; Expires=Sun 06 Nov 1994 08:49:37 GMT",
        "n=v; Expires=Xyz, 06 Nov 1994 08:49:37 GMT",
        "n=v; Expires=Sun, 06 Foo 1994 08:49:37 GMT",
        "n=v; Expires=Sun, 06 Nov 1994 08:49:37",
        "n=v; Expires=Sun, 06 Nov 1994 08:49:37 PST",
        "n=v; Expires=Sun, 06 Nov 1994 08:49 GMT",
        "n=v; Expires=Sun, Nov 1994 08:49:37 GMT",
        "n=v; Expires=",
    ] {
        assert_eq!(
            parse_setcookies_from_str(input).unwrap_err(),
            CookieParseError::InvalidDate,
            "{input}"
        );
    }
}

#[test]
fn first_invalid_token_wins() {
    assert_eq!(
        parse_setcookies_from_str("n=v; Max-Age=abc; SameSite=Sideways").unwrap_err(),
        CookieParseError::InvalidMaxAge
    );
    assert_eq!(
        parse_setcookies_from_str("n=v; SameSite=Sideways; Max-Age=abc").unwrap_err(),
        CookieParseError::InvalidSameSite
    );
}

#[test]
fn set_cookie_parse_is_deterministic() {
    let input = "a=b; Path=/; Secure; Max-Age=1; SameSite=Lax";
    let c1 = parse_setcookies_from_str(input).unwrap();
    let c2 = parse_setcookies_from_str(input).unwrap();
    assert_eq!(c1, c2);
}

#[test]
fn full_record_round() {
    let input = "id=a3fWa; Domain=example.com; Path=/; Secure; HttpOnly; Partitioned; \
                 Max-Age=2592000; SameSite=Strict";
    let cookie = parse_setcookies_from_str(input).unwrap();
    assert_eq!(cookie.name, CookieName("id".to_string()));
    assert_eq!(cookie.value, CookieValue("a3fWa".to_string()));
    assert_eq!(cookie.domain, Some("example.com".to_string()));
    assert_eq!(cookie.path, Some("/".to_string()));
    assert!(cookie.secure);
    assert!(cookie.http_only);
    assert!(cookie.partitioned);
    assert_eq!(cookie.max_age, Some(2592000));
    assert_eq!(cookie.same_site, Some(SameSiteValue::Strict));
    assert!(cookie.expires.is_none());
}
