use cookieparse::cookie::{parse_cookies_from_bytes, parse_cookies_from_str, CookieMap};
use cookieparse::error::CookieParseError;

#[test]
fn test_cookie_bytes() {
    let samples = "potato=watermelon; name2=value2; _name3=value3";
    let sample_map = parse_cookies_from_bytes(samples.as_bytes()).unwrap();
    assert_eq!(
        sample_map.get("potato".as_bytes()).unwrap().as_slice(),
        "watermelon".as_bytes()
    );
    assert_eq!(
        sample_map.get("name2".as_bytes()).unwrap().as_slice(),
        "value2".as_bytes()
    );
    assert_eq!(
        sample_map.get("_name3".as_bytes()).unwrap().as_slice(),
        "value3".as_bytes()
    );
}

#[test]
fn test_cookie_str() {
    let samples = "potato=watermelon; name2=value2; _name3=value3";
    let sample_map = parse_cookies_from_str(samples).unwrap();
    assert_eq!(sample_map.get("potato").unwrap().as_str(), "watermelon");
    assert_eq!(sample_map.get("name2").unwrap().as_str(), "value2");
    assert_eq!(sample_map.get("_name3").unwrap().as_str(), "value3");
}

#[test]
fn test_cookie() {
    let samples = "potato=watermelon; name2=value2; _name3=value3";
    let _sample_map = CookieMap::parse_from_bytes(samples.as_bytes()).unwrap();
}

#[test]
fn two_pairs_give_two_entries() {
    let map = parse_cookies_from_str("name1=value1; name2=value2").unwrap();
    assert_eq!(map.len(), 2);
    assert_eq!(map.get("name1").unwrap().as_str(), "value1");
    assert_eq!(map.get("name2").unwrap().as_str(), "value2");
}

#[test]
fn empty_input_is_an_empty_map() {
    let map = parse_cookies_from_bytes(b"").unwrap();
    assert_eq!(map.len(), 0);
    assert!(map.get(b"anything").is_none());

    let smap = parse_cookies_from_str("").unwrap();
    assert_eq!(smap.len(), 0);
}

#[test]
fn pair_without_equals_is_malformed() {
    assert_eq!(
        parse_cookies_from_bytes(b"justtext").unwrap_err(),
        CookieParseError::Malformed
    );
    assert_eq!(
        parse_cookies_from_bytes(b"a=b; c").unwrap_err(),
        CookieParseError::Malformed
    );
    assert_eq!(
        parse_cookies_from_str("a=b; ").unwrap_err(),
        CookieParseError::Malformed
    );
}

#[test]
fn empty_key_passes_the_list_path() {
    // the list path applies no name validation
    let map = parse_cookies_from_bytes(b"=value").unwrap();
    assert_eq!(map.get(b"").unwrap().as_slice(), b"value");
}

#[test]
fn empty_value_is_kept() {
    let map = parse_cookies_from_str("a=").unwrap();
    assert_eq!(map.get("a").unwrap().as_str(), "");
}

#[test]
fn value_may_contain_equals() {
    let map = parse_cookies_from_str("a=b=c").unwrap();
    assert_eq!(map.get("a").unwrap().as_str(), "b=c");
}

#[test]
fn duplicate_key_keeps_last_but_counts_both() {
    let map = parse_cookies_from_bytes(b"a=1; a=2").unwrap();
    assert_eq!(map.len(), 2);
    assert_eq!(map.get(b"a").unwrap().as_slice(), b"2");
}

#[test]
fn list_parse_is_deterministic() {
    let input = b"a=1; b=2";
    let m1 = parse_cookies_from_bytes(input).unwrap();
    let m2 = parse_cookies_from_bytes(input).unwrap();
    assert_eq!(m1.len(), m2.len());
    assert_eq!(m1.get(b"a").unwrap(), m2.get(b"a").unwrap());
    assert_eq!(m1.get(b"b").unwrap(), m2.get(b"b").unwrap());
}

#[test]
fn error_messages_name_the_failure() {
    assert_eq!(
        CookieParseError::Malformed.message().as_str(),
        "header value does not split into name=value pairs"
    );
    assert_eq!(
        CookieParseError::InvalidDate.message().as_str(),
        "attribute value is not an HTTP-date"
    );
}

#[test]
fn high_bytes_pass_the_list_path() {
    let map = parse_cookies_from_bytes(b"k=\xc3\xa9\xff").unwrap();
    assert_eq!(map.get(b"k").unwrap().as_slice(), b"\xc3\xa9\xff");
}
