//! Specification-level scanning primitives shared by both parsers:
//! first occurrence of an element or of the two-element separator,
//! ASCII case folding, and decimal digit runs.

use vstd::prelude::*;
use vstd::string::StrSliceExecFns;

verus! {

/// Index of the first occurrence of `x` in `s`, or `-1` if `x` is absent.
pub open spec fn find_index<T>(s: Seq<T>, x: T) -> int
    decreases s.len(),
{
    if s.len() == 0 {
        -1
    } else if s[0] == x {
        0
    } else {
        let r = find_index(s.drop_first(), x);
        if r < 0 {
            -1
        } else {
            r + 1
        }
    }
}

/// What `find_index` returns: the position it names holds `x`, and no
/// earlier position does; `-1` means no position holds `x`.
pub proof fn lemma_find_index<T>(s: Seq<T>, x: T)
    ensures
        find_index(s, x) >= 0 ==> {
            &&& find_index(s, x) < s.len()
            &&& s[find_index(s, x)] == x
            &&& forall|k: int| 0 <= k < find_index(s, x) ==> s[k] != x
        },
        find_index(s, x) < 0 ==> forall|k: int| 0 <= k < s.len() ==> s[k] != x,
    decreases s.len(),
{
    if s.len() > 0 && s[0] != x {
        let t = s.drop_first();
        lemma_find_index(t, x);
        let r = find_index(t, x);
        if r >= 0 {
            assert(s[r + 1] == t[r]);
            assert forall|k: int| 0 <= k < find_index(s, x) implies s[k] != x by {
                if k > 0 {
                    assert(s[k] == t[k - 1]);
                }
            }
        } else {
            assert forall|k: int| 0 <= k < s.len() implies s[k] != x by {
                if k > 0 {
                    assert(s[k] == t[k - 1]);
                }
            }
        }
    }
}

/// Index of the first position where `a` immediately followed by `b`
/// occurs in `s`, or `-1` if the two-element separator is absent.
pub open spec fn find_sep<T>(s: Seq<T>, a: T, b: T) -> int
    decreases s.len(),
{
    if s.len() < 2 {
        -1
    } else if s[0] == a && s[1] == b {
        0
    } else {
        let r = find_sep(s.drop_first(), a, b);
        if r < 0 {
            -1
        } else {
            r + 1
        }
    }
}

/// What `find_sep` returns: the position it names starts the separator,
/// and no earlier position does; `-1` means the separator never occurs.
pub proof fn lemma_find_sep<T>(s: Seq<T>, a: T, b: T)
    ensures
        find_sep(s, a, b) >= 0 ==> {
            &&& find_sep(s, a, b) + 1 < s.len()
            &&& s[find_sep(s, a, b)] == a
            &&& s[find_sep(s, a, b) + 1] == b
            &&& forall|k: int| 0 <= k < find_sep(s, a, b) ==> !(#[trigger] s[k] == a && s[k + 1] == b)
        },
        find_sep(s, a, b) < 0 ==> forall|k: int|
            0 <= k && k + 1 < s.len() ==> !(#[trigger] s[k] == a && s[k + 1] == b),
    decreases s.len(),
{
    if s.len() >= 2 && !(s[0] == a && s[1] == b) {
        let t = s.drop_first();
        lemma_find_sep(t, a, b);
        assert(forall|k: int| 0 <= k < t.len() ==> #[trigger] t[k] == s[k + 1]);
        let r = find_sep(t, a, b);
        if r >= 0 {
            assert forall|k: int| 0 <= k < find_sep(s, a, b) implies !(#[trigger] s[k] == a
                && s[k + 1] == b) by {
                if k > 0 {
                    assert(s[k] == t[k - 1]);
                    assert(s[k + 1] == t[k]);
                    assert(!(t[k - 1] == a && t[k] == b));
                }
            }
        } else {
            assert forall|k: int| 0 <= k && k + 1 < s.len() implies !(#[trigger] s[k] == a
                && s[k + 1] == b) by {
                if k > 0 {
                    assert(s[k] == t[k - 1]);
                    assert(s[k + 1] == t[k]);
                    assert(!(t[k - 1] == a && t[k] == b));
                }
            }
        }
    }
}

/// ASCII lower-casing of one character; anything outside `A`..`Z` is kept.
pub open spec fn lower_char(c: char) -> char {
    if 'A' <= c && c <= 'Z' {
        ((c as u8) + 0x20) as char
    } else {
        c
    }
}

/// Character sequences equal up to ASCII case.
pub open spec fn seq_eq_ci(a: Seq<char>, b: Seq<char>) -> bool {
    &&& a.len() == b.len()
    &&& forall|i: int| 0 <= i < a.len() ==> lower_char(a[i]) == lower_char(b[i])
}

/// An ASCII decimal digit.
pub open spec fn is_digit(c: char) -> bool {
    '0' <= c && c <= '9'
}

/// Every character of `s` is an ASCII decimal digit.
pub open spec fn all_digits(s: Seq<char>) -> bool {
    forall|i: int| 0 <= i < s.len() ==> is_digit(s[i])
}

/// The non-negative integer denoted by the digit run `s`, most significant
/// digit first.
pub open spec fn dec_val(s: Seq<char>) -> int
    decreases s.len(),
{
    if s.len() == 0 {
        0
    } else {
        dec_val(s.drop_last()) * 10 + (s.last() as int - '0' as int)
    }
}

/// A run of digits denotes a non-negative integer.
pub proof fn lemma_dec_val_nonneg(s: Seq<char>)
    requires
        all_digits(s),
    ensures
        dec_val(s) >= 0,
    decreases s.len(),
{
    if s.len() > 0 {
        assert(all_digits(s.drop_last()));
        lemma_dec_val_nonneg(s.drop_last());
    }
}

/// Extending a digit run never shrinks its value: the value of a prefix is
/// a lower bound for the value of the whole run.
pub proof fn lemma_dec_val_prefix(s: Seq<char>, k: int)
    requires
        all_digits(s),
        0 <= k <= s.len(),
    ensures
        dec_val(s.take(k)) <= dec_val(s),
    decreases s.len() - k,
{
    if k < s.len() {
        lemma_dec_val_prefix(s, k + 1);
        let t = s.take(k + 1);
        assert(t.drop_last() =~= s.take(k));
        assert(all_digits(s.take(k)));
        lemma_dec_val_nonneg(s.take(k));
        assert(dec_val(t) == dec_val(s.take(k)) * 10 + (t.last() as int - '0' as int));
        assert(t.last() == s[k]);
        assert(dec_val(s.take(k)) <= dec_val(s.take(k)) * 10) by {
            lemma_dec_val_nonneg(s.take(k));
        }
    } else {
        assert(s.take(k) =~= s);
    }
}

/// Scans the digit run `s[lo..hi)` (character indices) and returns its
/// value, or `None` when the run is empty, holds a non-digit, or denotes a
/// value above `bound`.
pub(crate) fn scan_decimal(s: &str, lo: usize, hi: usize, bound: u64) -> (r: Option<u64>)
    requires
        lo <= hi <= s@.len(),
        bound <= 0xffff_ffffu64,
    ensures
        ({
            let d = s@.subrange(lo as int, hi as int);
            match r {
                Some(v) => {
                    &&& d.len() > 0
                    &&& all_digits(d)
                    &&& dec_val(d) == v
                    &&& v <= bound
                },
                None => d.len() == 0 || !all_digits(d) || dec_val(d) > bound,
            }
        }),
{
    let ghost d = s@.subrange(lo as int, hi as int);
    if lo == hi {
        return None;
    }
    let mut acc: u64 = 0;
    let mut i: usize = lo;
    while i < hi
        invariant
            lo <= i <= hi <= s@.len(),
            d == s@.subrange(lo as int, hi as int),
            all_digits(d.take(i - lo as int)),
            acc == dec_val(d.take(i - lo as int)),
            acc <= bound,
            bound <= 0xffff_ffffu64,
        decreases hi - i,
    {
        let c = s.get_char(i);
        proof {
            assert(d[i - lo as int] == s@[i as int]);
        }
        if c < '0' || c > '9' {
            proof {
                assert(!is_digit(d[i - lo as int]));
            }
            return None;
        }
        let dv: u64 = ((c as u32) - ('0' as u32)) as u64;
        let ghost prev = d.take(i - lo as int);
        proof {
            let cur = d.take(i - lo as int + 1);
            assert(cur.drop_last() =~= prev);
            assert(cur.last() == d[i - lo as int]);
            assert(dec_val(cur) == dec_val(prev) * 10 + (c as int - '0' as int));
        }
        acc = acc * 10 + dv;
        i += 1;
        if acc > bound {
            proof {
                if all_digits(d) {
                    lemma_dec_val_prefix(d, i - lo as int);
                }
            }
            return None;
        }
    }
    proof {
        assert(d.take(hi - lo as int) =~= d);
    }
    Some(acc)
}

} // verus!
