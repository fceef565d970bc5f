//! The HTTP-date parser backing the `Expires` attribute. It recognizes
//! exactly `<day-name>, <day> <month> <year> <hour>:<minute>:<second> GMT`
//! and captures the fields syntactically: no calendar validity, range, or
//! time-zone meaning is checked beyond the literal `GMT` suffix.

use vstd::prelude::*;
use vstd::string::{StrSliceExecFns, StringExecFns};
use crate::scan::{all_digits, dec_val, is_digit, scan_decimal};

verus! {

/// The fields an HTTP-date denotes: a purely syntactic capture.
pub ghost struct SpecCookieDate {
    /// The three-letter day name, as written.
    pub day_name: Seq<char>,
    /// The day-of-month digit run's value.
    pub day: int,
    /// The three-letter month name, as written.
    pub month: Seq<char>,
    /// The year digit run's value, with no century inference.
    pub year: int,
    /// The minute digit run's value.
    pub minute: int,
    /// The second digit run's value.
    pub second: int,
}

/// A parsed HTTP-date, the value of an `Expires` attribute.
///
/// The hour field is validated as a digit run by the grammar but not
/// retained. No range checking is applied: `day: 99` parses.
#[derive(Debug)]
pub struct CookieDate {
    /// The three-letter day name, as written (e.g. `Sun`).
    pub day_name: String,
    /// The day-of-month value.
    pub day: u32,
    /// The three-letter month name, as written (e.g. `Jan`).
    pub month: String,
    /// The year value, with no century inference.
    pub year: u32,
    /// The minute value.
    pub minute: u32,
    /// The second value.
    pub second: u32,
}

impl View for CookieDate {
    type V = SpecCookieDate;

    open spec fn view(&self) -> SpecCookieDate {
        SpecCookieDate {
            day_name: self.day_name@,
            day: self.day as int,
            month: self.month@,
            year: self.year as int,
            minute: self.minute as int,
            second: self.second as int,
        }
    }
}

impl PartialEq for CookieDate {
    fn eq(&self, other: &CookieDate) -> (r: bool) {
        crate::cookie::str_eq(self.day_name.as_str(), other.day_name.as_str()) && self.day
            == other.day && crate::cookie::str_eq(self.month.as_str(), other.month.as_str())
            && self.year == other.year && self.minute == other.minute && self.second
            == other.second
    }
}

impl vstd::std_specs::cmp::PartialEqSpecImpl for CookieDate {
    open spec fn obeys_eq_spec() -> bool {
        true
    }

    open spec fn eq_spec(&self, other: &CookieDate) -> bool {
        self@ == other@
    }
}

/// One of the seven fixed day names, case-sensitively.
pub open spec fn is_day_name(s: Seq<char>) -> bool {
    ||| s == seq!['S', 'u', 'n']
    ||| s == seq!['M', 'o', 'n']
    ||| s == seq!['T', 'u', 'e']
    ||| s == seq!['W', 'e', 'd']
    ||| s == seq!['T', 'h', 'u']
    ||| s == seq!['F', 'r', 'i']
    ||| s == seq!['S', 'a', 't']
}

/// One of the twelve fixed month names, case-sensitively.
pub open spec fn is_month(s: Seq<char>) -> bool {
    ||| s == seq!['J', 'a', 'n']
    ||| s == seq!['F', 'e', 'b']
    ||| s == seq!['M', 'a', 'r']
    ||| s == seq!['A', 'p', 'r']
    ||| s == seq!['M', 'a', 'y']
    ||| s == seq!['J', 'u', 'n']
    ||| s == seq!['J', 'u', 'l']
    ||| s == seq!['A', 'u', 'g']
    ||| s == seq!['S', 'e', 'p']
    ||| s == seq!['O', 'c', 't']
    ||| s == seq!['N', 'o', 'v']
    ||| s == seq!['D', 'e', 'c']
}

/// First position at or after `from` that does not hold an ASCII digit, or
/// the length of `s` when digits run to the end.
pub open spec fn digit_run_end(s: Seq<char>, from: int) -> int
    decreases s.len() - from,
{
    if from >= s.len() {
        s.len() as int
    } else if !is_digit(s[from]) {
        from
    } else {
        digit_run_end(s, from + 1)
    }
}

/// What `digit_run_end` returns: everything from `from` up to it is a
/// digit, and it either ends the sequence or names a non-digit.
pub proof fn lemma_digit_run_end(s: Seq<char>, from: int)
    requires
        0 <= from <= s.len(),
    ensures
        ({
            let e = digit_run_end(s, from);
            &&& from <= e <= s.len()
            &&& forall|k: int| from <= k < e ==> is_digit(#[trigger] s[k])
            &&& e < s.len() ==> !is_digit(s[e])
        }),
    decreases s.len() - from,
{
    if from < s.len() && is_digit(s[from]) {
        lemma_digit_run_end(s, from + 1);
    }
}

/// The largest value a captured date field may hold; longer digit runs are
/// rejected as a machine limit.
pub open spec fn field_bound() -> int {
    0xffff_ffff
}

/// The HTTP-date grammar over characters. `None` means the input is not a
/// date: a separator mismatch, a wrong or missing field, a bad day or month
/// name, a missing `GMT` suffix, or a captured field beyond `field_bound()`.
pub open spec fn date_model(s: Seq<char>) -> Option<SpecCookieDate> {
    if s.len() < 5 {
        None
    } else if !is_day_name(s.subrange(0, 3)) {
        None
    } else if s[3] != ',' || s[4] != ' ' {
        None
    } else {
        let d_end = digit_run_end(s, 5);
        if d_end == 5 || d_end >= s.len() || s[d_end] != ' ' {
            None
        } else {
            let m0 = d_end + 1;
            if m0 + 4 > s.len() {
                None
            } else if !is_month(s.subrange(m0, m0 + 3)) {
                None
            } else if s[m0 + 3] != ' ' {
                None
            } else {
                let y0 = m0 + 4;
                let y_end = digit_run_end(s, y0);
                if y_end == y0 || y_end >= s.len() || s[y_end] != ' ' {
                    None
                } else {
                    let h0 = y_end + 1;
                    let h_end = digit_run_end(s, h0);
                    if h_end == h0 || h_end >= s.len() || s[h_end] != ':' {
                        None
                    } else {
                        let mi0 = h_end + 1;
                        let mi_end = digit_run_end(s, mi0);
                        if mi_end == mi0 || mi_end >= s.len() || s[mi_end] != ':' {
                            None
                        } else {
                            let se0 = mi_end + 1;
                            let se_end = digit_run_end(s, se0);
                            if se_end == se0 {
                                None
                            } else if se_end + 4 != s.len() || s.subrange(se_end, s.len() as int)
                                != seq![' ', 'G', 'M', 'T'] {
                                None
                            } else {
                                let day = dec_val(s.subrange(5, d_end));
                                let year = dec_val(s.subrange(y0, y_end));
                                let minute = dec_val(s.subrange(mi0, mi_end));
                                let second = dec_val(s.subrange(se0, se_end));
                                if day > field_bound() || year > field_bound() || minute
                                    > field_bound() || second > field_bound() {
                                    None
                                } else {
                                    Some(SpecCookieDate {
                                        day_name: s.subrange(0, 3),
                                        day,
                                        month: s.subrange(m0, m0 + 3),
                                        year,
                                        minute,
                                        second,
                                    })
                                }
                            }
                        }
                    }
                }
            }
        }
    }
}

/// Whether `s[at..at + 3)` is exactly the three given characters.
fn match3(s: &str, n: usize, at: usize, a: char, b: char, c: char) -> (r: bool)
    requires
        n == s@.len(),
        at + 3 <= n,
    ensures
        r == (s@.subrange(at as int, at as int + 3) == seq![a, b, c]),
{
    let ghost u = s@.subrange(at as int, at as int + 3);
    let r = s.get_char(at) == a && s.get_char(at + 1) == b && s.get_char(at + 2) == c;
    proof {
        assert(u[0] == s@[at as int] && u[1] == s@[at as int + 1] && u[2] == s@[at as int + 2]);
        if r {
            assert(u =~= seq![a, b, c]);
        } else {
            assert(u != seq![a, b, c]) by {
                if u == seq![a, b, c] {
                    assert(u[0] == a && u[1] == b && u[2] == c);
                }
            }
        }
    }
    r
}

/// Whether `s[0..3)` is one of the seven day names.
fn check_day_name(s: &str, n: usize) -> (r: bool)
    requires
        n == s@.len(),
        3 <= n,
    ensures
        r == is_day_name(s@.subrange(0, 3)),
{
    match3(s, n, 0, 'S', 'u', 'n') || match3(s, n, 0, 'M', 'o', 'n') || match3(
        s,
        n,
        0,
        'T',
        'u',
        'e',
    ) || match3(s, n, 0, 'W', 'e', 'd') || match3(s, n, 0, 'T', 'h', 'u') || match3(
        s,
        n,
        0,
        'F',
        'r',
        'i',
    ) || match3(s, n, 0, 'S', 'a', 't')
}

/// Whether `s[at..at + 3)` is one of the twelve month names.
fn check_month(s: &str, n: usize, at: usize) -> (r: bool)
    requires
        n == s@.len(),
        at + 3 <= n,
    ensures
        r == is_month(s@.subrange(at as int, at as int + 3)),
{
    match3(s, n, at, 'J', 'a', 'n') || match3(s, n, at, 'F', 'e', 'b') || match3(
        s,
        n,
        at,
        'M',
        'a',
        'r',
    ) || match3(s, n, at, 'A', 'p', 'r') || match3(s, n, at, 'M', 'a', 'y') || match3(
        s,
        n,
        at,
        'J',
        'u',
        'n',
    ) || match3(s, n, at, 'J', 'u', 'l') || match3(s, n, at, 'A', 'u', 'g') || match3(
        s,
        n,
        at,
        'S',
        'e',
        'p',
    ) || match3(s, n, at, 'O', 'c', 't') || match3(s, n, at, 'N', 'o', 'v') || match3(
        s,
        n,
        at,
        'D',
        'e',
        'c',
    )
}

/// First position at or after `from` that is not an ASCII digit.
fn digit_run(s: &str, n: usize, from: usize) -> (e: usize)
    requires
        n == s@.len(),
        from <= n,
    ensures
        e == digit_run_end(s@, from as int),
        from <= e <= n,
{
    proof {
        lemma_digit_run_end(s@, from as int);
    }
    let mut i: usize = from;
    while i < n
        invariant
            from <= i <= n,
            n == s@.len(),
            forall|k: int| from <= k < i ==> is_digit(#[trigger] s@[k]),
        decreases n - i,
    {
        let c = s.get_char(i);
        if c < '0' || c > '9' {
            proof {
                assert(!is_digit(s@[i as int]));
                lemma_digit_run_end(s@, from as int);
                let e = digit_run_end(s@, from as int);
                if e < i {
                    assert(!is_digit(s@[e]));
                } else if e > i {
                    assert(is_digit(s@[i as int]));
                }
            }
            return i;
        }
        i += 1;
    }
    proof {
        lemma_digit_run_end(s@, from as int);
        let e = digit_run_end(s@, from as int);
        if e < n {
            assert(!is_digit(s@[e]));
        }
    }
    n
}

/// The run starting at `from` is all digits.
proof fn lemma_run_digits(s: Seq<char>, from: int)
    requires
        0 <= from <= s.len(),
    ensures
        all_digits(s.subrange(from, digit_run_end(s, from))),
{
    lemma_digit_run_end(s, from);
    let e = digit_run_end(s, from);
    let run = s.subrange(from, e);
    assert(forall|k: int| 0 <= k < run.len() ==> run[k] == s[from + k]);
}

/// Parses an HTTP-date. Returns the captured record exactly when the input
/// matches [`date_model`], and `None` otherwise.
pub fn parse_cookie_date(s: &str) -> (r: Option<CookieDate>)
    ensures
        match r {
            Some(d) => date_model(s@) == Some(d@),
            None => date_model(s@) is None,
        },
{
    let n = s.unicode_len();
    if n < 5 {
        return None;
    }
    if !check_day_name(s, n) {
        return None;
    }
    if s.get_char(3) != ',' || s.get_char(4) != ' ' {
        return None;
    }
    let d_end = digit_run(s, n, 5);
    if d_end == 5 || d_end >= n || s.get_char(d_end) != ' ' {
        return None;
    }
    let m0 = d_end + 1;
    if n - m0 < 4 {
        return None;
    }
    if !check_month(s, n, m0) {
        return None;
    }
    if s.get_char(m0 + 3) != ' ' {
        return None;
    }
    let y0 = m0 + 4;
    let y_end = digit_run(s, n, y0);
    if y_end == y0 || y_end >= n || s.get_char(y_end) != ' ' {
        return None;
    }
    let h0 = y_end + 1;
    let h_end = digit_run(s, n, h0);
    if h_end == h0 || h_end >= n || s.get_char(h_end) != ':' {
        return None;
    }
    let mi0 = h_end + 1;
    let mi_end = digit_run(s, n, mi0);
    if mi_end == mi0 || mi_end >= n || s.get_char(mi_end) != ':' {
        return None;
    }
    let se0 = mi_end + 1;
    let se_end = digit_run(s, n, se0);
    if se_end == se0 {
        return None;
    }
    let ghost tail = s@.subrange(se_end as int, n as int);
    if n - se_end != 4 {
        proof {
            assert(date_model(s@) is None);
        }
        return None;
    }
    if !(s.get_char(se_end) == ' ' && s.get_char(se_end + 1) == 'G' && s.get_char(se_end + 2)
        == 'M' && s.get_char(se_end + 3) == 'T') {
        proof {
            assert(tail[0] == s@[se_end as int]);
            assert(tail[1] == s@[se_end as int + 1]);
            assert(tail[2] == s@[se_end as int + 2]);
            assert(tail[3] == s@[se_end as int + 3]);
            assert(tail != seq![' ', 'G', 'M', 'T']) by {
                if tail == seq![' ', 'G', 'M', 'T'] {
                    assert(tail[0] == ' ' && tail[1] == 'G' && tail[2] == 'M' && tail[3] == 'T');
                }
            }
        }
        return None;
    }
    proof {
        assert(tail =~= seq![' ', 'G', 'M', 'T']);
    }
    proof {
        lemma_run_digits(s@, 5);
        lemma_run_digits(s@, y0 as int);
        lemma_run_digits(s@, mi0 as int);
        lemma_run_digits(s@, se0 as int);
    }
    let day_v = match scan_decimal(s, 5, d_end, 0xffff_ffffu64) {
        Some(v) => v,
        None => {
            return None;
        },
    };
    let year_v = match scan_decimal(s, y0, y_end, 0xffff_ffffu64) {
        Some(v) => v,
        None => {
            return None;
        },
    };
    let minute_v = match scan_decimal(s, mi0, mi_end, 0xffff_ffffu64) {
        Some(v) => v,
        None => {
            return None;
        },
    };
    let second_v = match scan_decimal(s, se0, se_end, 0xffff_ffffu64) {
        Some(v) => v,
        None => {
            return None;
        },
    };
    let d = CookieDate {
        day_name: String::from_str(s.substring_char(0, 3)),
        day: day_v as u32,
        month: String::from_str(s.substring_char(m0, m0 + 3)),
        year: year_v as u32,
        minute: minute_v as u32,
        second: second_v as u32,
    };
    Some(d)
}

} // verus!
