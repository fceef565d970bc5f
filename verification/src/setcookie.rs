//! The `Set-Cookie` header parser. The leading segment up to the first
//! `"; "` separator must be a `name=value` pair whose name and value pass
//! fixed character classes; the remaining `"; "`-separated tokens are
//! attributes, matched case-insensitively against the fixed vocabulary
//! `Domain`, `Expires`, `HttpOnly`, `Max-Age`, `Partitioned`, `Path`,
//! `SameSite`, `Secure`. Unrecognized attributes are ignored; a later
//! occurrence of an attribute overwrites an earlier one (last wins); the
//! first invalid token aborts the parse with its specific error.

use vstd::prelude::*;
use vstd::string::{StrSliceExecFns, StringExecFns};
use crate::cookie::{find_char, find_sep_from_str, str_eq};
use crate::date::{date_model, parse_cookie_date, CookieDate, SpecCookieDate};
use crate::error::CookieParseError;
use crate::scan::{
    all_digits, dec_val, find_index, find_sep, lemma_find_index, lemma_find_sep, lower_char,
    scan_decimal, seq_eq_ci,
};

verus! {

/// A character allowed in a cookie name: not a control character, not
/// `0x7f`, not a space or tab, and not separator punctuation.
pub open spec fn name_char_ok(c: char) -> bool {
    &&& c as u32 > 0x20
    &&& c as u32 != 0x7f
    &&& !(c == '(' || c == ')' || c == '<' || c == '>' || c == '@' || c == ',' || c == ';'
        || c == ':' || c == '\\' || c == '"' || c == '/' || c == '[' || c == ']' || c == '?'
        || c == '=' || c == '{' || c == '}')
}

/// A character allowed in a cookie value: not a control character, not
/// `0x7f`, and not space, double quote, comma, semicolon, or backslash.
pub open spec fn value_char_ok(c: char) -> bool {
    &&& c as u32 > 0x20
    &&& c as u32 != 0x7f
    &&& !(c == '"' || c == ',' || c == ';' || c == '\\')
}

/// A valid cookie name: non-empty, every character in the name class.
pub open spec fn name_seq_ok(s: Seq<char>) -> bool {
    &&& s.len() > 0
    &&& forall|i: int| 0 <= i < s.len() ==> name_char_ok(#[trigger] s[i])
}

/// A valid cookie value body: every character in the value class; an empty
/// value is allowed.
pub open spec fn value_seq_ok(s: Seq<char>) -> bool {
    forall|i: int| 0 <= i < s.len() ==> value_char_ok(#[trigger] s[i])
}

/// What a raw cookie value denotes: if it opens with a double quote it must
/// close with one and the interior must pass the value class (so a quoted
/// value can never hold a semicolon or a nested quote); otherwise the whole
/// raw text must pass the value class. `None` means `InvalidValue`.
pub open spec fn value_model(raw: Seq<char>) -> Option<Seq<char>> {
    if raw.len() > 0 && raw[0] == '"' {
        if raw.len() >= 2 && raw.last() == '"' && value_seq_ok(raw.subrange(1, raw.len() - 1)) {
            Some(raw.subrange(1, raw.len() - 1))
        } else {
            None
        }
    } else if value_seq_ok(raw) {
        Some(raw)
    } else {
        None
    }
}

/// Whether a `SameSite` cookie may be sent with cross-site requests.
#[derive(Debug, Clone, Copy, PartialEq, Eq, Structural)]
pub enum SameSiteValue {
    /// Sent on same-site requests only.
    Strict,
    /// Also sent when navigating to the origin site.
    Lax,
    /// Sent on cross-site requests as well.
    NoneValue,
}

/// The fields a `Set-Cookie` header denotes.
pub ghost struct SpecCookie {
    /// The validated cookie name.
    pub name: Seq<char>,
    /// The cookie value, quote delimiters stripped.
    pub value: Seq<char>,
    /// The `Domain` attribute value, verbatim.
    pub domain: Option<Seq<char>>,
    /// The `Expires` attribute value, as an HTTP-date capture.
    pub expires: Option<SpecCookieDate>,
    /// Whether an `HttpOnly` attribute is present.
    pub http_only: bool,
    /// The `Max-Age` attribute value, a signed 32-bit second count.
    pub max_age: Option<i32>,
    /// Whether a `Partitioned` attribute is present.
    pub partitioned: bool,
    /// The `Path` attribute value, verbatim, not normalized.
    pub path: Option<Seq<char>>,
    /// The `SameSite` attribute value.
    pub same_site: Option<SameSiteValue>,
    /// Whether a `Secure` attribute is present.
    pub secure: bool,
}

/// A validated, non-empty cookie name.
#[derive(Debug)]
pub struct CookieName(pub String);

impl View for CookieName {
    type V = Seq<char>;

    open spec fn view(&self) -> Seq<char> {
        self.0@
    }
}

impl CookieName {
    /// The name this type promises: non-empty and inside the name class.
    pub open spec fn wf(&self) -> bool {
        name_seq_ok(self@)
    }
}

/// A cookie value with quote delimiters already stripped.
#[derive(Debug)]
pub struct CookieValue(pub String);

impl View for CookieValue {
    type V = Seq<char>;

    open spec fn view(&self) -> Seq<char> {
        self.0@
    }
}

impl CookieValue {
    /// The value this type promises: every character inside the value class.
    pub open spec fn wf(&self) -> bool {
        value_seq_ok(self@)
    }
}

/// A parsed `Set-Cookie` header: one `name=value` pair and its attributes.
/// Flags default to `false` and optional attributes to `None`; an attribute
/// written twice keeps its last occurrence.
#[derive(Debug)]
pub struct Cookie {
    /// The cookie's name.
    pub name: CookieName,
    /// The cookie's value, quote delimiters stripped.
    pub value: CookieValue,
    /// The host the cookie is sent to.
    pub domain: Option<String>,
    /// The cookie's maximum lifetime, as an HTTP-date.
    pub expires: Option<CookieDate>,
    /// Forbids script access to the cookie.
    pub http_only: bool,
    /// Seconds until the cookie expires.
    pub max_age: Option<i32>,
    /// Asks for partitioned storage.
    pub partitioned: bool,
    /// The request path the cookie is scoped to, not normalized.
    pub path: Option<String>,
    /// Cross-site request policy.
    pub same_site: Option<SameSiteValue>,
    /// Restricts the cookie to `https` requests.
    pub secure: bool,
}

/// View of an optional owned string as an optional character sequence.
pub open spec fn opt_str_view(o: &Option<String>) -> Option<Seq<char>> {
    match o {
        Some(s) => Some(s@),
        None => None,
    }
}

/// View of an optional date as an optional date capture.
pub open spec fn opt_date_view(o: &Option<CookieDate>) -> Option<SpecCookieDate> {
    match o {
        Some(d) => Some(d@),
        None => None,
    }
}

impl View for Cookie {
    type V = SpecCookie;

    open spec fn view(&self) -> SpecCookie {
        SpecCookie {
            name: self.name@,
            value: self.value@,
            domain: opt_str_view(&self.domain),
            expires: opt_date_view(&self.expires),
            http_only: self.http_only,
            max_age: self.max_age,
            partitioned: self.partitioned,
            path: opt_str_view(&self.path),
            same_site: self.same_site,
            secure: self.secure,
        }
    }
}

impl Cookie {
    /// What every parsed cookie satisfies: a valid name and value.
    pub open spec fn wf(&self) -> bool {
        &&& self.name.wf()
        &&& self.value.wf()
    }
}

impl PartialEq for CookieName {
    fn eq(&self, other: &CookieName) -> (r: bool) {
        str_eq(self.0.as_str(), other.0.as_str())
    }
}

impl vstd::std_specs::cmp::PartialEqSpecImpl for CookieName {
    open spec fn obeys_eq_spec() -> bool {
        true
    }

    open spec fn eq_spec(&self, other: &CookieName) -> bool {
        self@ == other@
    }
}

impl PartialEq for CookieValue {
    fn eq(&self, other: &CookieValue) -> (r: bool) {
        str_eq(self.0.as_str(), other.0.as_str())
    }
}

impl vstd::std_specs::cmp::PartialEqSpecImpl for CookieValue {
    open spec fn obeys_eq_spec() -> bool {
        true
    }

    open spec fn eq_spec(&self, other: &CookieValue) -> bool {
        self@ == other@
    }
}

/// Whether two optional strings hold the same text.
fn opt_string_eq(a: &Option<String>, b: &Option<String>) -> (r: bool)
    ensures
        r == (opt_str_view(a) == opt_str_view(b)),
{
    match (a, b) {
        (None, None) => true,
        (Some(x), Some(y)) => str_eq(x.as_str(), y.as_str()),
        _ => false,
    }
}

/// Whether two optional dates hold the same capture.
fn opt_date_eq(a: &Option<CookieDate>, b: &Option<CookieDate>) -> (r: bool)
    ensures
        r == (opt_date_view(a) == opt_date_view(b)),
{
    match (a, b) {
        (None, None) => true,
        (Some(x), Some(y)) => x == y,
        _ => false,
    }
}

/// Whether two optional signed counts are equal.
fn opt_i32_eq(a: &Option<i32>, b: &Option<i32>) -> (r: bool)
    ensures
        r == (a == b),
{
    match (a, b) {
        (None, None) => true,
        (Some(x), Some(y)) => x == y,
        _ => false,
    }
}

/// Whether two optional cross-site policies are equal.
fn opt_site_eq(a: &Option<SameSiteValue>, b: &Option<SameSiteValue>) -> (r: bool)
    ensures
        r == (a == b),
{
    match (a, b) {
        (None, None) => true,
        (Some(x), Some(y)) => x == y,
        _ => false,
    }
}

impl PartialEq for Cookie {
    fn eq(&self, other: &Cookie) -> (r: bool) {
        self.name == other.name && self.value == other.value && opt_string_eq(
            &self.domain,
            &other.domain,
        ) && opt_date_eq(&self.expires, &other.expires) && self.http_only == other.http_only
            && opt_i32_eq(&self.max_age, &other.max_age) && self.partitioned == other.partitioned
            && opt_string_eq(&self.path, &other.path) && opt_site_eq(
            &self.same_site,
            &other.same_site,
        ) && self.secure == other.secure
    }
}

impl vstd::std_specs::cmp::PartialEqSpecImpl for Cookie {
    open spec fn obeys_eq_spec() -> bool {
        true
    }

    open spec fn eq_spec(&self, other: &Cookie) -> bool {
        self@ == other@
    }
}

/// The name part of an attribute token: everything before the first `=`,
/// or the whole token when it has none.
pub open spec fn attr_name(t: Seq<char>) -> Seq<char> {
    let j = find_index(t, '=');
    if j < 0 {
        t
    } else {
        t.take(j)
    }
}

/// The value part of an attribute token: everything after the first `=`,
/// or empty when it has none.
pub open spec fn attr_value(t: Seq<char>) -> Seq<char> {
    let j = find_index(t, '=');
    if j < 0 {
        Seq::empty()
    } else {
        t.skip(j + 1)
    }
}

/// Whether an attribute name, compared up to ASCII case, is in the fixed
/// vocabulary.
pub open spec fn known_attr(aname: Seq<char>) -> bool {
    ||| seq_eq_ci(aname, "secure"@)
    ||| seq_eq_ci(aname, "httponly"@)
    ||| seq_eq_ci(aname, "partitioned"@)
    ||| seq_eq_ci(aname, "domain"@)
    ||| seq_eq_ci(aname, "path"@)
    ||| seq_eq_ci(aname, "max-age"@)
    ||| seq_eq_ci(aname, "samesite"@)
    ||| seq_eq_ci(aname, "expires"@)
}

/// What one attribute token does to the record under construction.
/// Flag attributes only require presence and ignore any attached value;
/// an unrecognized attribute name leaves the record unchanged.
pub open spec fn apply_attr(m: SpecCookie, t: Seq<char>) -> Result<SpecCookie, CookieParseError> {
    let aname = attr_name(t);
    let aval = attr_value(t);
    if seq_eq_ci(aname, "secure"@) {
        Ok(SpecCookie { secure: true, ..m })
    } else if seq_eq_ci(aname, "httponly"@) {
        Ok(SpecCookie { http_only: true, ..m })
    } else if seq_eq_ci(aname, "partitioned"@) {
        Ok(SpecCookie { partitioned: true, ..m })
    } else if seq_eq_ci(aname, "domain"@) {
        Ok(SpecCookie { domain: Some(aval), ..m })
    } else if seq_eq_ci(aname, "path"@) {
        Ok(SpecCookie { path: Some(aval), ..m })
    } else if seq_eq_ci(aname, "max-age"@) {
        match parse_i32_model(aval) {
            None => Err(CookieParseError::InvalidMaxAge),
            Some(v) => Ok(SpecCookie { max_age: Some(v), ..m }),
        }
    } else if seq_eq_ci(aname, "samesite"@) {
        if seq_eq_ci(aval, "strict"@) {
            Ok(SpecCookie { same_site: Some(SameSiteValue::Strict), ..m })
        } else if seq_eq_ci(aval, "lax"@) {
            Ok(SpecCookie { same_site: Some(SameSiteValue::Lax), ..m })
        } else if seq_eq_ci(aval, "none"@) {
            Ok(SpecCookie { same_site: Some(SameSiteValue::NoneValue), ..m })
        } else {
            Err(CookieParseError::InvalidSameSite)
        }
    } else if seq_eq_ci(aname, "expires"@) {
        match date_model(aval) {
            None => Err(CookieParseError::InvalidDate),
            Some(d) => Ok(SpecCookie { expires: Some(d), ..m }),
        }
    } else {
        Ok(m)
    }
}

/// Applies the `"; "`-separated attribute tokens of `s` to `m` in order,
/// stopping at the first invalid token.
pub open spec fn attrs_model(m: SpecCookie, s: Seq<char>) -> Result<SpecCookie, CookieParseError>
    decreases s.len(),
{
    let i = find_sep(s, ';', ' ');
    if i < 0 {
        apply_attr(m, s)
    } else if i + 2 <= s.len() {
        match apply_attr(m, s.take(i)) {
            Err(e) => Err(e),
            Ok(m2) => attrs_model(m2, s.skip(i + 2)),
        }
    } else {
        Err(CookieParseError::Malformed)
    }
}

/// A signed decimal integer that fits in 32 bits: an optional `-` or `+`
/// sign, then a non-empty digit run. `None` means `InvalidMaxAge`.
pub open spec fn parse_i32_model(s: Seq<char>) -> Option<i32> {
    let neg = s.len() > 0 && s[0] == '-';
    let signed = s.len() > 0 && (s[0] == '-' || s[0] == '+');
    let ds = if signed { s.drop_first() } else { s };
    if ds.len() == 0 || !all_digits(ds) {
        None
    } else {
        let v = if neg {
            -dec_val(ds)
        } else {
            dec_val(ds)
        };
        if -0x8000_0000 <= v && v <= 0x7fff_ffff {
            Some(v as i32)
        } else {
            None
        }
    }
}

/// What the leading segment denotes: a `name=value` pair — `Malformed`
/// without `=`, `InvalidName` or `InvalidValue` when a class check fails —
/// assembled into a record whose flags are false and whose optional
/// attributes are absent.
pub open spec fn head_model(head: Seq<char>) -> Result<SpecCookie, CookieParseError> {
    let j = find_index(head, '=');
    if j < 0 {
        Err(CookieParseError::Malformed)
    } else if !name_seq_ok(head.take(j)) {
        Err(CookieParseError::InvalidName)
    } else {
        match value_model(head.skip(j + 1)) {
            None => Err(CookieParseError::InvalidValue),
            Some(value) => Ok(
                SpecCookie {
                    name: head.take(j),
                    value,
                    domain: None,
                    expires: None,
                    http_only: false,
                    max_age: None,
                    partitioned: false,
                    path: None,
                    same_site: None,
                    secure: false,
                },
            ),
        }
    }
}

/// The whole `Set-Cookie` grammar: the segment before the first `"; "` (or
/// the whole input) is the `name=value` pair, and what follows the
/// separator is attribute tokens, applied in order.
pub open spec fn set_cookie_model(s: Seq<char>) -> Result<SpecCookie, CookieParseError> {
    let h = find_sep(s, ';', ' ');
    let head = if h < 0 {
        s
    } else {
        s.take(h)
    };
    match head_model(head) {
        Err(e) => Err(e),
        Ok(m0) => if h < 0 {
            Ok(m0)
        } else {
            attrs_model(m0, s.skip(h + 2))
        },
    }
}

/// A parse result seen at the specification level.
pub open spec fn cookie_result_view(r: Result<Cookie, CookieParseError>) -> Result<
    SpecCookie,
    CookieParseError,
> {
    match r {
        Ok(c) => Ok(c@),
        Err(e) => Err(e),
    }
}

/// ASCII lower-casing of one character.
fn lower(c: char) -> (r: char)
    ensures
        r == lower_char(c),
{
    if 'A' <= c && c <= 'Z' {
        (((c as u32) + 0x20) as u8) as char
    } else {
        c
    }
}

/// Whether two strings are equal up to ASCII case.
fn eq_ci(a: &str, b: &str) -> (r: bool)
    ensures
        r == seq_eq_ci(a@, b@),
{
    let na = a.unicode_len();
    let nb = b.unicode_len();
    if na != nb {
        return false;
    }
    let mut i: usize = 0;
    while i < na
        invariant
            i <= na,
            na == a@.len() == b@.len(),
            forall|k: int| 0 <= k < i ==> lower_char(a@[k]) == lower_char(b@[k]),
        decreases na - i,
    {
        if lower(a.get_char(i)) != lower(b.get_char(i)) {
            return false;
        }
        i += 1;
    }
    true
}

/// Whether every character of `s[lo..hi)` is in the name class.
fn check_name_chars(s: &str, lo: usize, hi: usize) -> (r: bool)
    requires
        lo <= hi <= s@.len(),
    ensures
        r == (forall|k: int| lo <= k < hi ==> name_char_ok(#[trigger] s@[k])),
{
    let mut i: usize = lo;
    while i < hi
        invariant
            lo <= i <= hi <= s@.len(),
            forall|k: int| lo <= k < i ==> name_char_ok(#[trigger] s@[k]),
        decreases hi - i,
    {
        let c = s.get_char(i);
        let u = c as u32;
        if !(u > 0x20 && u != 0x7f && !(c == '(' || c == ')' || c == '<' || c == '>' || c == '@'
            || c == ',' || c == ';' || c == ':' || c == '\\' || c == '"' || c == '/' || c == '['
            || c == ']' || c == '?' || c == '=' || c == '{' || c == '}')) {
            return false;
        }
        i += 1;
    }
    true
}

/// Whether every character of `s[lo..hi)` is in the value class.
fn check_value_chars(s: &str, lo: usize, hi: usize) -> (r: bool)
    requires
        lo <= hi <= s@.len(),
    ensures
        r == (forall|k: int| lo <= k < hi ==> value_char_ok(#[trigger] s@[k])),
{
    let mut i: usize = lo;
    while i < hi
        invariant
            lo <= i <= hi <= s@.len(),
            forall|k: int| lo <= k < i ==> value_char_ok(#[trigger] s@[k]),
        decreases hi - i,
    {
        let c = s.get_char(i);
        let u = c as u32;
        if !(u > 0x20 && u != 0x7f && !(c == '"' || c == ',' || c == ';' || c == '\\')) {
            return false;
        }
        i += 1;
    }
    true
}

/// Parses the signed decimal value of a `Max-Age` attribute.
fn parse_max_age(s: &str) -> (r: Option<i32>)
    ensures
        r == parse_i32_model(s@),
{
    let n = s.unicode_len();
    if n == 0 {
        return None;
    }
    let c0 = s.get_char(0);
    let neg = c0 == '-';
    let start: usize = if c0 == '-' || c0 == '+' {
        1
    } else {
        0
    };
    let ghost ds = if start == 1 {
        s@.drop_first()
    } else {
        s@
    };
    proof {
        assert(ds =~= s@.subrange(start as int, n as int));
    }
    match scan_decimal(s, start, n, 0x8000_0000u64) {
        None => None,
        Some(v) => {
            if neg {
                Some((-(v as i64)) as i32)
            } else {
                if v <= 0x7fff_ffffu64 {
                    Some(v as i32)
                } else {
                    None
                }
            }
        },
    }
}

/// Attribute names match up to ASCII case: any spelling of `secure` — and
/// any attached `=value`, which a flag attribute ignores — sets the flag
/// and changes nothing else.
pub proof fn lemma_secure_any_case(m: SpecCookie, t: Seq<char>)
    requires
        seq_eq_ci(attr_name(t), "secure"@),
    ensures
        apply_attr(m, t) == Ok::<SpecCookie, CookieParseError>(SpecCookie { secure: true, ..m }),
{
}

/// An attribute whose name is outside the vocabulary is ignored: the record
/// passes through unchanged.
pub proof fn lemma_unknown_attr_ignored(m: SpecCookie, t: Seq<char>)
    requires
        !known_attr(attr_name(t)),
    ensures
        apply_attr(m, t) == Ok::<SpecCookie, CookieParseError>(m),
{
}

/// Parsing a `Set-Cookie` header has no hidden state: any two results that
/// satisfy the parser's contract on the same input are equal.
pub proof fn lemma_set_cookie_deterministic(
    input: Seq<char>,
    r1: Result<Cookie, CookieParseError>,
    r2: Result<Cookie, CookieParseError>,
)
    requires
        cookie_result_view(r1) == set_cookie_model(input),
        cookie_result_view(r2) == set_cookie_model(input),
    ensures
        match (r1, r2) {
            (Ok(c1), Ok(c2)) => c1@ == c2@,
            (Err(e1), Err(e2)) => e1 == e2,
            _ => false,
        },
{
}

/// A suffix cut again at `hi` is the segment between the two cuts.
proof fn lemma_skip_take(s: Seq<char>, lo: int, hi: int)
    requires
        0 <= lo <= hi <= s.len(),
    ensures
        s.skip(lo).take(hi - lo) == s.subrange(lo, hi),
{
    assert(s.skip(lo).take(hi - lo) =~= s.subrange(lo, hi));
}

/// Skipping twice is skipping to the later cut.
proof fn lemma_skip_skip(s: Seq<char>, lo: int, mid: int)
    requires
        0 <= lo <= mid <= s.len(),
    ensures
        s.skip(lo).skip(mid - lo) == s.skip(mid),
{
    assert(s.skip(lo).skip(mid - lo) =~= s.skip(mid));
}

/// Parses the leading segment `input[0..h)` as the `name=value` pair.
fn parse_head(input: &str, h: usize) -> (r: Result<Cookie, CookieParseError>)
    requires
        h <= input@.len(),
    ensures
        ({
            let head = input@.subrange(0, h as int);
            match r {
                Ok(c) => head_model(head) == Ok::<SpecCookie, CookieParseError>(c@) && c.wf(),
                Err(e) => head_model(head) == Err::<SpecCookie, CookieParseError>(e),
            }
        }),
{
    let ghost s = input@;
    let ghost head = s.subrange(0, h as int);
    let j = match find_char(input, 0, h, '=') {
        Some(j) => j,
        None => {
            return Err(CookieParseError::Malformed);
        },
    };
    let ghost nm = head.take(j as int);
    proof {
        assert(nm =~= s.subrange(0, j as int));
        assert(forall|k: int| 0 <= k < nm.len() ==> nm[k] == s[k]);
    }
    if j == 0 || !check_name_chars(input, 0, j) {
        return Err(CookieParseError::InvalidName);
    }
    proof {
        assert(name_seq_ok(nm));
    }
    let ghost raw = head.skip(j as int + 1);
    proof {
        assert(raw =~= s.subrange(j as int + 1, h as int));
        assert(forall|k: int| 0 <= k < raw.len() ==> raw[k] == s[j + 1 + k]);
    }
    let quoted = j + 1 < h && input.get_char(j + 1) == '"';
    proof {
        if raw.len() > 0 {
            assert(raw[0] == s[j as int + 1]);
        }
        assert(quoted == (raw.len() > 0 && raw[0] == '"'));
    }
    let (vlo, vhi): (usize, usize) = if quoted {
        if h - (j + 1) >= 2 && input.get_char(h - 1) == '"' {
            (j + 2, h - 1)
        } else {
            proof {
                if raw.len() >= 2 {
                    assert(raw.last() == s[h as int - 1]);
                }
                assert(value_model(raw) is None);
                assert(head_model(head) == Err::<SpecCookie, CookieParseError>(
                    CookieParseError::InvalidValue,
                ));
            }
            return Err(CookieParseError::InvalidValue);
        }
    } else {
        (j + 1, h)
    };
    let ghost body = s.subrange(vlo as int, vhi as int);
    proof {
        if quoted {
            assert(raw.last() == s[h as int - 1]);
            assert(raw.subrange(1, raw.len() as int - 1) =~= body);
        } else {
            assert(raw =~= body);
        }
    }
    if !check_value_chars(input, vlo, vhi) {
        proof {
            assert(!value_seq_ok(body)) by {
                if value_seq_ok(body) {
                    assert forall|k: int| vlo <= k < vhi implies value_char_ok(s[k]) by {
                        assert(body[k - vlo] == s[k]);
                        assert(value_char_ok(body[k - vlo]));
                    }
                }
            }
            assert(value_model(raw) is None);
        }
        return Err(CookieParseError::InvalidValue);
    }
    let c = Cookie {
        name: CookieName(String::from_str(input.substring_char(0, j))),
        value: CookieValue(String::from_str(input.substring_char(vlo, vhi))),
        domain: None,
        expires: None,
        http_only: false,
        max_age: None,
        partitioned: false,
        path: None,
        same_site: None,
        secure: false,
    };
    proof {
        assert(value_model(raw) == Some(body));
    }
    Ok(c)
}

/// Applies the attribute token `input[pos..t_end)` to the record under
/// construction, leaving the name and value untouched.
fn process_token(cookie: &mut Cookie, input: &str, pos: usize, t_end: usize) -> (r: Result<
    (),
    CookieParseError,
>)
    requires
        pos <= t_end <= input@.len(),
    ensures
        ({
            let tok = input@.subrange(pos as int, t_end as int);
            match r {
                Ok(_) => apply_attr(old(cookie)@, tok) == Ok::<SpecCookie, CookieParseError>(
                    final(cookie)@,
                ),
                Err(e) => apply_attr(old(cookie)@, tok) == Err::<SpecCookie, CookieParseError>(e),
            }
        }),
        final(cookie).name == old(cookie).name,
        final(cookie).value == old(cookie).value,
{
    let ghost s = input@;
    let ghost tok = s.subrange(pos as int, t_end as int);
    let je = find_char(input, pos, t_end, '=');
    let aend: usize = match je {
        Some(x) => x,
        None => t_end,
    };
    let vstart: usize = match je {
        Some(x) => x + 1,
        None => t_end,
    };
    proof {
        lemma_find_index(tok, '=');
        if je is Some {
            assert(tok.take(aend - pos as int) =~= s.subrange(pos as int, aend as int));
            assert(tok.skip(aend - pos as int + 1) =~= s.subrange(vstart as int, t_end as int));
        } else {
            assert(attr_name(tok) == tok);
            assert(tok =~= s.subrange(pos as int, aend as int));
            assert(attr_value(tok) =~= s.subrange(vstart as int, t_end as int));
        }
        assert(attr_name(tok) == s.subrange(pos as int, aend as int));
        assert(attr_value(tok) == s.subrange(vstart as int, t_end as int));
    }
    let an = input.substring_char(pos, aend);
    if eq_ci(an, "secure") {
        cookie.secure = true;
    } else if eq_ci(an, "httponly") {
        cookie.http_only = true;
    } else if eq_ci(an, "partitioned") {
        cookie.partitioned = true;
    } else if eq_ci(an, "domain") {
        cookie.domain = Some(String::from_str(input.substring_char(vstart, t_end)));
    } else if eq_ci(an, "path") {
        cookie.path = Some(String::from_str(input.substring_char(vstart, t_end)));
    } else if eq_ci(an, "max-age") {
        let av = input.substring_char(vstart, t_end);
        match parse_max_age(av) {
            None => {
                return Err(CookieParseError::InvalidMaxAge);
            },
            Some(v) => {
                cookie.max_age = Some(v);
            },
        }
    } else if eq_ci(an, "samesite") {
        let av = input.substring_char(vstart, t_end);
        if eq_ci(av, "strict") {
            cookie.same_site = Some(SameSiteValue::Strict);
        } else if eq_ci(av, "lax") {
            cookie.same_site = Some(SameSiteValue::Lax);
        } else if eq_ci(av, "none") {
            cookie.same_site = Some(SameSiteValue::NoneValue);
        } else {
            return Err(CookieParseError::InvalidSameSite);
        }
    } else if eq_ci(an, "expires") {
        let av = input.substring_char(vstart, t_end);
        match parse_cookie_date(av) {
            None => {
                return Err(CookieParseError::InvalidDate);
            },
            Some(d) => {
                cookie.expires = Some(d);
            },
        }
    }
    Ok(())
}

/// Parses a `Set-Cookie` header value given as text.
///
/// Returns the assembled record exactly when [`set_cookie_model`] accepts
/// the input, and the model's specific error otherwise; the result's name
/// and value are always well formed. Parsing is fail-fast: no partial
/// record is ever returned.
pub fn parse_setcookies_from_str(input: &str) -> (r: Result<Cookie, CookieParseError>)
    ensures
        cookie_result_view(r) == set_cookie_model(input@),
        r matches Ok(c) ==> c.wf(),
{
    let ghost s = input@;
    let n = input.unicode_len();
    let h_opt = find_sep_from_str(input, n, 0, ';', ' ');
    let h: usize = match h_opt {
        Some(i) => i,
        None => n,
    };
    proof {
        assert(s.skip(0) =~= s);
        if h_opt is Some {
            assert(s.take(h as int) =~= s.subrange(0, h as int));
        } else {
            assert(s =~= s.subrange(0, h as int));
        }
    }
    let mut cookie = match parse_head(input, h) {
        Ok(c) => c,
        Err(e) => {
            return Err(e);
        },
    };
    let mut pos: usize = 0;
    match h_opt {
        None => {
            return Ok(cookie);
        },
        Some(i) => {
            pos = i + 2;
        },
    }
    proof {
        assert(set_cookie_model(s) == attrs_model(cookie@, s.skip(pos as int)));
    }
    loop
        invariant
            pos <= n,
            n == s.len(),
            s == input@,
            cookie.wf(),
            set_cookie_model(s) == attrs_model(cookie@, s.skip(pos as int)),
        decreases n - pos,
    {
        let ghost u = s.skip(pos as int);
        let sep = find_sep_from_str(input, n, pos, ';', ' ');
        let t_end: usize = match sep {
            Some(i) => i,
            None => n,
        };
        let ghost tok = s.subrange(pos as int, t_end as int);
        proof {
            lemma_find_sep(u, ';', ' ');
            lemma_skip_take(s, pos as int, t_end as int);
            if sep is None {
                assert(u =~= tok);
            }
        }
        match process_token(&mut cookie, input, pos, t_end) {
            Err(e) => {
                return Err(e);
            },
            Ok(_) => {},
        }
        match sep {
            None => {
                return Ok(cookie);
            },
            Some(i) => {
                proof {
                    lemma_skip_skip(s, pos as int, i as int + 2);
                }
                pos = i + 2;
            },
        }
    }
}

} // verus!
