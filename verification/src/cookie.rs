//! The `Cookie` header parser: splits a header value into a flat
//! name-to-value map. Cookies are octets, so the primary entry point works
//! on bytes; a text entry point covers inputs already known to be text.
//! This path applies no byte-class validation to names or values.

use vstd::prelude::*;
use vstd::slice::{slice_subrange, slice_to_vec};
use vstd::string::{StrSliceExecFns, StringExecFns};
use vstd::utf8::encode_utf8_decode_utf8;
use crate::error::CookieParseError;
use crate::pairs::{split_pair, pairs_model, list_model, join_pairs, pairs_clean,
    lemma_list_round_trip};
use crate::scan::{find_index, find_sep, lemma_find_index, lemma_find_sep};

verus! {

/// View of owned byte-pair entries as sequences of byte sequences.
pub open spec fn byte_entries_view(entries: Seq<(Vec<u8>, Vec<u8>)>) -> Seq<(Seq<u8>, Seq<u8>)> {
    Seq::new(entries.len(), |i: int| (entries[i].0@, entries[i].1@))
}

/// View of owned text-pair entries as sequences of character sequences.
pub open spec fn str_entries_view(entries: Seq<(String, String)>) -> Seq<(Seq<char>, Seq<char>)> {
    Seq::new(entries.len(), |i: int| (entries[i].0@, entries[i].1@))
}

/// The mapping a list of entries denotes: a later entry with the same key
/// overwrites an earlier one (last wins).
pub open spec fn map_of<T>(entries: Seq<(Seq<T>, Seq<T>)>) -> Map<Seq<T>, Seq<T>>
    decreases entries.len(),
{
    if entries.len() == 0 {
        Map::empty()
    } else {
        map_of(entries.drop_last()).insert(entries.last().0, entries.last().1)
    }
}

/// If `entries[j]` holds `key` and no later entry does, the map returns
/// that entry's value.
proof fn lemma_map_of_found<T>(entries: Seq<(Seq<T>, Seq<T>)>, key: Seq<T>, j: int)
    requires
        0 <= j < entries.len(),
        entries[j].0 == key,
        forall|l: int| j < l < entries.len() ==> (#[trigger] entries[l]).0 != key,
    ensures
        map_of(entries).contains_key(key),
        map_of(entries)[key] == entries[j].1,
    decreases entries.len(),
{
    if j + 1 == entries.len() {
    } else {
        let front = entries.drop_last();
        assert(forall|l: int| j < l < front.len() ==> (#[trigger] front[l]).0 != key);
        lemma_map_of_found(front, key, j);
        assert(entries.last().0 != key);
    }
}

/// If no entry holds `key`, the map has no entry for it.
proof fn lemma_map_of_absent<T>(entries: Seq<(Seq<T>, Seq<T>)>, key: Seq<T>)
    requires
        forall|l: int| 0 <= l < entries.len() ==> (#[trigger] entries[l]).0 != key,
    ensures
        !map_of(entries).contains_key(key),
    decreases entries.len(),
{
    if entries.len() > 0 {
        lemma_map_of_absent(entries.drop_last(), key);
    }
}

/// What parsing a `Cookie` header over octets returns: the entries the list
/// grammar gives, in input order, or `Malformed` exactly when the grammar
/// rejects the input.
pub open spec fn bytes_parse_post(input: Seq<u8>, r: Result<CookieMap, CookieParseError>) -> bool {
    match r {
        Ok(m) => list_model(input, 0x3du8, 0x3bu8, 0x20u8) == Some(m@),
        Err(e) => {
            &&& e == CookieParseError::Malformed
            &&& list_model(input, 0x3du8, 0x3bu8, 0x20u8) is None
        },
    }
}

/// What parsing a `Cookie` header over text returns, in the same way.
pub open spec fn str_parse_post(input: Seq<char>, r: Result<StrCookieMap, CookieParseError>) -> bool {
    match r {
        Ok(m) => list_model(input, '=', ';', ' ') == Some(m@),
        Err(e) => {
            &&& e == CookieParseError::Malformed
            &&& list_model(input, '=', ';', ' ') is None
        },
    }
}

/// Assembling a header from octet pairs whose keys and values contain
/// neither `=` nor `;` and parsing it back yields exactly those pairs.
pub proof fn lemma_cookie_bytes_round_trip(ps: Seq<(Seq<u8>, Seq<u8>)>)
    requires
        pairs_clean(ps, 0x3du8, 0x3bu8),
    ensures
        list_model(join_pairs(ps, 0x3du8, 0x3bu8, 0x20u8), 0x3du8, 0x3bu8, 0x20u8) == Some(ps),
{
    lemma_list_round_trip(ps, 0x3du8, 0x3bu8, 0x20u8);
}

/// Assembling a header from text pairs whose keys and values contain
/// neither `=` nor `;` and parsing it back yields exactly those pairs.
pub proof fn lemma_cookie_str_round_trip(ps: Seq<(Seq<char>, Seq<char>)>)
    requires
        pairs_clean(ps, '=', ';'),
    ensures
        list_model(join_pairs(ps, '=', ';', ' '), '=', ';', ' ') == Some(ps),
{
    lemma_list_round_trip(ps, '=', ';', ' ');
}

/// Parsing octets has no hidden state: any two results that satisfy the
/// parser's contract on the same input are equal, entry for entry.
pub proof fn lemma_parse_bytes_deterministic(
    input: Seq<u8>,
    r1: Result<CookieMap, CookieParseError>,
    r2: Result<CookieMap, CookieParseError>,
)
    requires
        bytes_parse_post(input, r1),
        bytes_parse_post(input, r2),
    ensures
        match (r1, r2) {
            (Ok(m1), Ok(m2)) => m1@ == m2@,
            (Err(e1), Err(e2)) => e1 == e2,
            _ => false,
        },
{
}

/// Parsing text has no hidden state, in the same way.
pub proof fn lemma_parse_str_deterministic(
    input: Seq<char>,
    r1: Result<StrCookieMap, CookieParseError>,
    r2: Result<StrCookieMap, CookieParseError>,
)
    requires
        str_parse_post(input, r1),
        str_parse_post(input, r2),
    ensures
        match (r1, r2) {
            (Ok(m1), Ok(m2)) => m1@ == m2@,
            (Err(e1), Err(e2)) => e1 == e2,
            _ => false,
        },
{
}

/// Two byte slices hold the same bytes.
fn bytes_eq(x: &[u8], y: &[u8]) -> (r: bool)
    ensures
        r == (x@ == y@),
{
    if x.len() != y.len() {
        return false;
    }
    let n = x.len();
    let mut i: usize = 0;
    while i < n
        invariant
            n == x@.len() == y@.len(),
            i <= n,
            forall|k: int| 0 <= k < i ==> x@[k] == y@[k],
        decreases n - i,
    {
        if x[i] != y[i] {
            return false;
        }
        i += 1;
    }
    proof {
        assert(x@ =~= y@);
    }
    true
}

/// A parsed `Cookie` header over octets: the `name=value` entries in input
/// order. Despite what you may believe, cookies are octets, not characters.
#[derive(Debug)]
pub struct CookieMap {
    /// The parsed pairs, in input order, duplicates kept.
    pub entries: Vec<(Vec<u8>, Vec<u8>)>,
}

impl View for CookieMap {
    type V = Seq<(Seq<u8>, Seq<u8>)>;

    open spec fn view(&self) -> Seq<(Seq<u8>, Seq<u8>)> {
        byte_entries_view(self.entries@)
    }
}

impl CookieMap {
    /// The mapping this list of entries denotes, last occurrence winning.
    pub open spec fn as_map(&self) -> Map<Seq<u8>, Seq<u8>> {
        map_of(self@)
    }

    /// Parses a `Cookie` header value; same as [`parse_cookies_from_bytes`].
    pub fn parse_from_bytes(input: &[u8]) -> (r: Result<CookieMap, CookieParseError>)
        ensures
            bytes_parse_post(input@, r),
    {
        parse_cookies_from_bytes(input)
    }

    /// Number of entries parsed, duplicate keys counted.
    pub fn len(&self) -> (n: usize)
        ensures
            n == self@.len(),
    {
        self.entries.len()
    }

    /// The value of the last entry whose key is `key`, or `None` when no
    /// entry has that key.
    pub fn get(&self, key: &[u8]) -> (r: Option<&Vec<u8>>)
        ensures
            match r {
                Some(v) => self.as_map().contains_key(key@) && v@ == self.as_map()[key@],
                None => !self.as_map().contains_key(key@),
            },
    {
        let n = self.entries.len();
        let mut i: usize = n;
        while i > 0
            invariant
                i <= n,
                n == self.entries@.len(),
                forall|l: int| i <= l < n ==> (#[trigger] self@[l]).0 != key@,
            decreases i,
    {
            i -= 1;
            if bytes_eq(self.entries[i].0.as_slice(), key) {
                proof {
                    lemma_map_of_found(self@, key@, i as int);
                }
                return Some(&self.entries[i].1);
            }
        }
        proof {
            lemma_map_of_absent(self@, key@);
        }
        None
    }
}

/// First position `i` at or after `from` where `s[i] == a` is immediately
/// followed by `s[i + 1] == b`, tied to `find_sep` on the suffix.
fn find_sep_from(s: &[u8], from: usize, a: u8, b: u8) -> (r: Option<usize>)
    requires
        from <= s@.len(),
    ensures
        match r {
            Some(i) => {
                &&& from <= i
                &&& i + 1 < s@.len()
                &&& find_sep(s@.skip(from as int), a, b) == i - from
            },
            None => find_sep(s@.skip(from as int), a, b) < 0,
        },
{
    let ghost u = s@.skip(from as int);
    proof {
        lemma_find_sep(u, a, b);
        assert(forall|k: int| 0 <= k < u.len() ==> u[k] == s@[from + k]);
    }
    let n = s.len();
    let mut i: usize = from;
    while i < n && i + 1 < n
        invariant
            from <= i <= n,
            n == s@.len(),
            u == s@.skip(from as int),
            forall|k: int| 0 <= k && k + from < i && k + 1 < u.len()
                ==> !(#[trigger] u[k] == a && u[k + 1] == b),
        decreases n - i,
    {
        if s[i] == a && s[i + 1] == b {
            proof {
                assert(u[i - from] == a && u[i - from + 1] == b);
                lemma_find_sep(u, a, b);
            }
            return Some(i);
        }
        proof {
            assert(u[i - from] == s@[i as int]);
            assert(i + 1 < n ==> u[i - from + 1] == s@[i + 1]);
        }
        i += 1;
    }
    proof {
        lemma_find_sep(u, a, b);
    }
    None
}

/// First position of `x` in `s[from..to)`, tied to `find_index` on that
/// segment.
fn find_byte(s: &[u8], from: usize, to: usize, x: u8) -> (r: Option<usize>)
    requires
        from <= to <= s@.len(),
    ensures
        match r {
            Some(j) => {
                &&& from <= j < to
                &&& find_index(s@.subrange(from as int, to as int), x) == j - from
            },
            None => find_index(s@.subrange(from as int, to as int), x) < 0,
        },
{
    let ghost u = s@.subrange(from as int, to as int);
    proof {
        lemma_find_index(u, x);
        assert(forall|k: int| 0 <= k < u.len() ==> u[k] == s@[from + k]);
    }
    let mut i: usize = from;
    while i < to
        invariant
            from <= i <= to,
            to <= s@.len(),
            u == s@.subrange(from as int, to as int),
            forall|k: int| 0 <= k && k + from < i ==> #[trigger] u[k] != x,
        decreases to - i,
    {
        if s[i] == x {
            proof {
                assert(u[i - from] == x);
                lemma_find_index(u, x);
            }
            return Some(i);
        }
        proof {
            assert(u[i - from] == s@[i as int]);
        }
        i += 1;
    }
    proof {
        lemma_find_index(u, x);
    }
    None
}

/// Parses a `Cookie` header value given as octets.
///
/// The input splits on the two-byte separator `"; "` into pairs and each
/// pair at its first `=` into name and value; an empty input is an empty
/// map. A pair without `=` makes the whole parse fail `Malformed`; no
/// partial result is returned.
pub fn parse_cookies_from_bytes(input: &[u8]) -> (r: Result<CookieMap, CookieParseError>)
    ensures
        bytes_parse_post(input@, r),
{
    let n = input.len();
    let mut entries: Vec<(Vec<u8>, Vec<u8>)> = Vec::new();
    if n == 0 {
        let m = CookieMap { entries };
        proof {
            assert(m@ =~= Seq::<(Seq<u8>, Seq<u8>)>::empty());
        }
        return Ok(m);
    }
    let ghost s = input@;
    proof {
        assert(s.skip(0) =~= s);
        if let Some(r) = pairs_model(s, 0x3du8, 0x3bu8, 0x20u8) {
            assert(byte_entries_view(entries@) + r =~= r);
        }
    }
    let mut pos: usize = 0;
    loop
        invariant
            pos <= n,
            n == s.len(),
            s == input@,
            n > 0,
            pairs_model(s, 0x3du8, 0x3bu8, 0x20u8) == match pairs_model(s.skip(pos as int), 0x3du8, 0x3bu8, 0x20u8) {
                None => None::<Seq<(Seq<u8>, Seq<u8>)>>,
                Some(rest) => Some(byte_entries_view(entries@) + rest),
            },
        decreases n - pos,
    {
        let ghost u = s.skip(pos as int);
        let sep = find_sep_from(input, pos, 0x3bu8, 0x20u8);
        let piece_end: usize = match sep {
            Some(i) => i,
            None => n,
        };
        proof {
            lemma_find_sep(u, 0x3bu8, 0x20u8);
            assert(u.take(piece_end - pos as int) =~= s.subrange(pos as int, piece_end as int));
            if sep is None {
                assert(u =~= s.subrange(pos as int, n as int));
            }
        }
        let eq = find_byte(input, pos, piece_end, 0x3du8);
        match eq {
            None => {
                return Err(CookieParseError::Malformed);
            },
            Some(j) => {
                let key = slice_to_vec(slice_subrange(input, pos, j));
                let val = slice_to_vec(slice_subrange(input, j + 1, piece_end));
                let ghost piece = s.subrange(pos as int, piece_end as int);
                proof {
                    lemma_find_index(piece, 0x3du8);
                    assert(piece.take(j - pos as int) =~= s.subrange(pos as int, j as int));
                    assert(piece.skip(j - pos as int + 1) =~= s.subrange(
                        j as int + 1,
                        piece_end as int,
                    ));
                    assert(split_pair(piece, 0x3du8) == Some((key@, val@)));
                }
                let ghost old_entries = entries@;
                entries.push((key, val));
                proof {
                    assert(byte_entries_view(entries@) =~= byte_entries_view(old_entries)
                        + seq![(key@, val@)]);
                }
                match sep {
                    None => {
                        proof {
                            assert(pairs_model(u, 0x3du8, 0x3bu8, 0x20u8) == Some(seq![(key@, val@)]));
                            assert(byte_entries_view(old_entries) + seq![(key@, val@)]
                                =~= byte_entries_view(entries@));
                        }
                        let m = CookieMap { entries };
                        return Ok(m);
                    },
                    Some(i) => {
                        proof {
                            assert(u.skip(i - pos as int + 2) =~= s.skip(i as int + 2));
                            assert(pairs_model(u, 0x3du8, 0x3bu8, 0x20u8) == match pairs_model(
                                s.skip(i as int + 2),
                                0x3du8,
                                0x3bu8,
                                0x20u8,
                            ) {
                                None => None::<Seq<(Seq<u8>, Seq<u8>)>>,
                                Some(rest) => Some(seq![(key@, val@)] + rest),
                            });
                            assert(forall|rest: Seq<(Seq<u8>, Seq<u8>)>|
                                byte_entries_view(old_entries) + (seq![(key@, val@)] + rest)
                                    =~= byte_entries_view(entries@) + rest);
                        }
                        pos = i + 2;
                    },
                }
            },
        }
    }
}

/// Two string slices hold the same characters. Relies on UTF-8 encoding
/// being injective: equal encodings decode to equal character sequences.
pub(crate) fn str_eq(x: &str, y: &str) -> (r: bool)
    ensures
        r == (x@ == y@),
{
    let r = bytes_eq(x.as_bytes(), y.as_bytes());
    proof {
        encode_utf8_decode_utf8(x@);
        encode_utf8_decode_utf8(y@);
    }
    r
}

/// A parsed `Cookie` header over text: the `name=value` entries in input
/// order.
#[derive(Debug)]
pub struct StrCookieMap {
    /// The parsed pairs, in input order, duplicates kept.
    pub entries: Vec<(String, String)>,
}

impl View for StrCookieMap {
    type V = Seq<(Seq<char>, Seq<char>)>;

    open spec fn view(&self) -> Seq<(Seq<char>, Seq<char>)> {
        str_entries_view(self.entries@)
    }
}

impl StrCookieMap {
    /// The mapping this list of entries denotes, last occurrence winning.
    pub open spec fn as_map(&self) -> Map<Seq<char>, Seq<char>> {
        map_of(self@)
    }

    /// Number of entries parsed, duplicate keys counted.
    pub fn len(&self) -> (n: usize)
        ensures
            n == self@.len(),
    {
        self.entries.len()
    }

    /// The value of the last entry whose key is `key`, or `None` when no
    /// entry has that key.
    pub fn get(&self, key: &str) -> (r: Option<&String>)
        ensures
            match r {
                Some(v) => self.as_map().contains_key(key@) && v@ == self.as_map()[key@],
                None => !self.as_map().contains_key(key@),
            },
    {
        let n = self.entries.len();
        let mut i: usize = n;
        while i > 0
            invariant
                i <= n,
                n == self.entries@.len(),
                forall|l: int| i <= l < n ==> (#[trigger] self@[l]).0 != key@,
            decreases i,
        {
            i -= 1;
            if str_eq(self.entries[i].0.as_str(), key) {
                proof {
                    lemma_map_of_found(self@, key@, i as int);
                }
                return Some(&self.entries[i].1);
            }
        }
        proof {
            lemma_map_of_absent(self@, key@);
        }
        None
    }
}

/// First position `i` at or after `from` where character `a` is immediately
/// followed by character `b`, tied to `find_sep` on the suffix. `n` is the
/// character length of `s`.
pub(crate) fn find_sep_from_str(s: &str, n: usize, from: usize, a: char, b: char) -> (r: Option<usize>)
    requires
        n == s@.len(),
        from <= n,
    ensures
        match r {
            Some(i) => {
                &&& from <= i
                &&& i + 1 < s@.len()
                &&& find_sep(s@.skip(from as int), a, b) == i - from
            },
            None => find_sep(s@.skip(from as int), a, b) < 0,
        },
{
    let ghost u = s@.skip(from as int);
    proof {
        lemma_find_sep(u, a, b);
        assert(forall|k: int| 0 <= k < u.len() ==> u[k] == s@[from + k]);
    }
    let mut i: usize = from;
    while i < n && i + 1 < n
        invariant
            from <= i <= n,
            n == s@.len(),
            u == s@.skip(from as int),
            forall|k: int| 0 <= k && k + from < i && k + 1 < u.len()
                ==> !(#[trigger] u[k] == a && u[k + 1] == b),
        decreases n - i,
    {
        if s.get_char(i) == a && s.get_char(i + 1) == b {
            proof {
                assert(u[i - from] == a && u[i - from + 1] == b);
                lemma_find_sep(u, a, b);
            }
            return Some(i);
        }
        proof {
            assert(u[i - from] == s@[i as int]);
            assert(i + 1 < n ==> u[i - from + 1] == s@[i + 1]);
        }
        i += 1;
    }
    proof {
        lemma_find_sep(u, a, b);
    }
    None
}

/// First position of `x` in `s[from..to)` (character indices), tied to
/// `find_index` on that segment.
pub(crate) fn find_char(s: &str, from: usize, to: usize, x: char) -> (r: Option<usize>)
    requires
        from <= to <= s@.len(),
    ensures
        match r {
            Some(j) => {
                &&& from <= j < to
                &&& find_index(s@.subrange(from as int, to as int), x) == j - from
            },
            None => find_index(s@.subrange(from as int, to as int), x) < 0,
        },
{
    let ghost u = s@.subrange(from as int, to as int);
    proof {
        lemma_find_index(u, x);
        assert(forall|k: int| 0 <= k < u.len() ==> u[k] == s@[from + k]);
    }
    let mut i: usize = from;
    while i < to
        invariant
            from <= i <= to,
            to <= s@.len(),
            u == s@.subrange(from as int, to as int),
            forall|k: int| 0 <= k && k + from < i ==> #[trigger] u[k] != x,
        decreases to - i,
    {
        if s.get_char(i) == x {
            proof {
                assert(u[i - from] == x);
                lemma_find_index(u, x);
            }
            return Some(i);
        }
        proof {
            assert(u[i - from] == s@[i as int]);
        }
        i += 1;
    }
    proof {
        lemma_find_index(u, x);
    }
    None
}

/// Parses a `Cookie` header value given as text; the grammar is the same as
/// for [`parse_cookies_from_bytes`], over characters instead of octets.
pub fn parse_cookies_from_str(input: &str) -> (r: Result<StrCookieMap, CookieParseError>)
    ensures
        str_parse_post(input@, r),
{
    let n = input.unicode_len();
    let mut entries: Vec<(String, String)> = Vec::new();
    if n == 0 {
        let m = StrCookieMap { entries };
        proof {
            assert(m@ =~= Seq::<(Seq<char>, Seq<char>)>::empty());
        }
        return Ok(m);
    }
    let ghost s = input@;
    proof {
        assert(s.skip(0) =~= s);
        if let Some(r) = pairs_model(s, '=', ';', ' ') {
            assert(str_entries_view(entries@) + r =~= r);
        }
    }
    let mut pos: usize = 0;
    loop
        invariant
            pos <= n,
            n == s.len(),
            s == input@,
            n > 0,
            pairs_model(s, '=', ';', ' ') == match pairs_model(s.skip(pos as int), '=', ';', ' ') {
                None => None::<Seq<(Seq<char>, Seq<char>)>>,
                Some(rest) => Some(str_entries_view(entries@) + rest),
            },
        decreases n - pos,
    {
        let ghost u = s.skip(pos as int);
        let sep = find_sep_from_str(input, n, pos, ';', ' ');
        let piece_end: usize = match sep {
            Some(i) => i,
            None => n,
        };
        proof {
            lemma_find_sep(u, ';', ' ');
            assert(u.take(piece_end - pos as int) =~= s.subrange(pos as int, piece_end as int));
            if sep is None {
                assert(u =~= s.subrange(pos as int, n as int));
            }
        }
        let eq = find_char(input, pos, piece_end, '=');
        match eq {
            None => {
                return Err(CookieParseError::Malformed);
            },
            Some(j) => {
                let key = String::from_str(input.substring_char(pos, j));
                let val = String::from_str(input.substring_char(j + 1, piece_end));
                let ghost piece = s.subrange(pos as int, piece_end as int);
                proof {
                    lemma_find_index(piece, '=');
                    assert(piece.take(j - pos as int) =~= s.subrange(pos as int, j as int));
                    assert(piece.skip(j - pos as int + 1) =~= s.subrange(
                        j as int + 1,
                        piece_end as int,
                    ));
                    assert(split_pair(piece, '=') == Some((key@, val@)));
                }
                let ghost old_entries = entries@;
                entries.push((key, val));
                proof {
                    assert(str_entries_view(entries@) =~= str_entries_view(old_entries)
                        + seq![(key@, val@)]);
                }
                match sep {
                    None => {
                        proof {
                            assert(pairs_model(u, '=', ';', ' ') == Some(seq![(key@, val@)]));
                            assert(str_entries_view(old_entries) + seq![(key@, val@)]
                                =~= str_entries_view(entries@));
                        }
                        let m = StrCookieMap { entries };
                        return Ok(m);
                    },
                    Some(i) => {
                        proof {
                            assert(u.skip(i - pos as int + 2) =~= s.skip(i as int + 2));
                            assert(pairs_model(u, '=', ';', ' ') == match pairs_model(
                                s.skip(i as int + 2),
                                '=',
                                ';',
                                ' ',
                            ) {
                                None => None::<Seq<(Seq<char>, Seq<char>)>>,
                                Some(rest) => Some(seq![(key@, val@)] + rest),
                            });
                            assert(forall|rest: Seq<(Seq<char>, Seq<char>)>|
                                str_entries_view(old_entries) + (seq![(key@, val@)] + rest)
                                    =~= str_entries_view(entries@) + rest);
                        }
                        pos = i + 2;
                    },
                }
            },
        }
    }
}

} // verus!
