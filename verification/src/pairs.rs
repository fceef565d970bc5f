//! Specification of the `Cookie` header list grammar, shared by the octet
//! and the text entry points: the input splits on the two-element separator
//! (`;` followed by a space) into pairs, and each pair splits at its first
//! `=` into a key and a value.

use vstd::prelude::*;
use crate::scan::{find_index, find_sep, lemma_find_index, lemma_find_sep};

verus! {

/// Splits one pair at its first `eq` into key and value, or `None` when the
/// pair holds no `eq`.
pub open spec fn split_pair<T>(s: Seq<T>, eq: T) -> Option<(Seq<T>, Seq<T>)> {
    let j = find_index(s, eq);
    if j < 0 {
        None
    } else {
        Some((s.take(j), s.skip(j + 1)))
    }
}

/// The pairs of a non-empty list: the segment before the first separator is
/// one pair, and the rest is parsed recursively. `None` when any segment
/// holds no `eq`.
pub open spec fn pairs_model<T>(s: Seq<T>, eq: T, a: T, b: T) -> Option<Seq<(Seq<T>, Seq<T>)>>
    decreases s.len(),
{
    let i = find_sep(s, a, b);
    if i < 0 {
        match split_pair(s, eq) {
            None => None,
            Some(p) => Some(seq![p]),
        }
    } else if i + 2 <= s.len() {
        match split_pair(s.take(i), eq) {
            None => None,
            Some(p) => match pairs_model(s.skip(i + 2), eq, a, b) {
                None => None,
                Some(r) => Some(seq![p] + r),
            },
        }
    } else {
        None
    }
}

/// The whole list: empty input is an empty list of pairs; anything else
/// must parse into pairs.
pub open spec fn list_model<T>(s: Seq<T>, eq: T, a: T, b: T) -> Option<Seq<(Seq<T>, Seq<T>)>> {
    if s.len() == 0 {
        Some(Seq::empty())
    } else {
        pairs_model(s, eq, a, b)
    }
}

/// The serialization the list grammar inverts: pairs joined as
/// `key eq value`, separated by `a b`.
pub open spec fn join_pairs<T>(ps: Seq<(Seq<T>, Seq<T>)>, eq: T, a: T, b: T) -> Seq<T>
    decreases ps.len(),
{
    if ps.len() == 0 {
        Seq::empty()
    } else if ps.len() == 1 {
        ps[0].0 + seq![eq] + ps[0].1
    } else {
        ps[0].0 + seq![eq] + ps[0].1 + seq![a, b] + join_pairs(ps.drop_first(), eq, a, b)
    }
}

/// No key or value of `ps` contains the pair delimiter `eq` or the
/// separator head `a`.
pub open spec fn pairs_clean<T>(ps: Seq<(Seq<T>, Seq<T>)>, eq: T, a: T) -> bool {
    forall|i: int| 0 <= i < ps.len() ==> {
        &&& forall|k: int| 0 <= k < (#[trigger] ps[i]).0.len() ==> ps[i].0[k] != eq && ps[i].0[k] != a
        &&& forall|k: int| 0 <= k < ps[i].1.len() ==> ps[i].1[k] != eq && ps[i].1[k] != a
    }
}

/// Round trip of the list grammar: a list of pairs whose keys and values
/// contain neither the `eq` delimiter nor the separator head `a`, joined
/// with `key eq value` and separated by `a b`, parses back to exactly those
/// pairs, in order.
pub proof fn lemma_list_round_trip<T>(ps: Seq<(Seq<T>, Seq<T>)>, eq: T, a: T, b: T)
    requires
        eq != a,
        pairs_clean(ps, eq, a),
    ensures
        list_model(join_pairs(ps, eq, a, b), eq, a, b) == Some(ps),
    decreases ps.len(),
{
    let s = join_pairs(ps, eq, a, b);
    if ps.len() == 0 {
        assert(s.len() == 0);
        assert(Seq::<(Seq<T>, Seq<T>)>::empty() =~= ps);
    } else {
        let k = ps[0].0;
        let v = ps[0].1;
        let head = k + seq![eq] + v;
        lemma_find_index(s, eq);
        lemma_find_sep(s, a, b);
        if ps.len() == 1 {
            assert(s =~= head);
            // no separator: every position holding `a` would lie in k, v, or on eq
            assert(find_sep(s, a, b) < 0) by {
                lemma_find_sep(s, a, b);
                let i = find_sep(s, a, b);
                if i >= 0 {
                    assert(s[i] == a);
                    if i < k.len() {
                        assert(s[i] == k[i]);
                    } else if i == k.len() {
                        assert(s[i] == eq);
                    } else {
                        assert(s[i] == v[i - k.len() - 1]);
                    }
                }
            }
            assert(find_index(s, eq) == k.len()) by {
                lemma_find_index(s, eq);
                let j = find_index(s, eq);
                assert(s[k.len() as int] == eq);
                if j < 0 {
                } else {
                    if j < k.len() {
                        assert(s[j] == k[j]);
                    } else if j > k.len() {
                        assert(s[k.len() as int] != eq);
                    }
                }
            }
            assert(s.take(k.len() as int) =~= k);
            assert(s.skip(k.len() as int + 1) =~= v);
            assert(seq![(k, v)] =~= ps);
        } else {
            let rest = join_pairs(ps.drop_first(), eq, a, b);
            assert(s =~= head + seq![a, b] + rest);
            let m = head.len() as int;
            // the first separator is exactly the one written after the head
            assert(find_sep(s, a, b) == m) by {
                lemma_find_sep(s, a, b);
                let i = find_sep(s, a, b);
                assert(s[m] == a && s[m + 1] == b);
                if i < 0 {
                } else if i < m {
                    if i < k.len() {
                        assert(s[i] == k[i]);
                    } else if i == k.len() {
                        assert(s[i] == eq);
                    } else {
                        assert(s[i] == v[i - k.len() - 1]);
                    }
                    assert(s[i] != a);
                } else if i > m {
                    assert(!(s[m] == a && s[m + 1] == b));
                }
            }
            assert(s.take(m) =~= head);
            assert(find_index(head, eq) == k.len()) by {
                lemma_find_index(head, eq);
                let j = find_index(head, eq);
                assert(head[k.len() as int] == eq);
                if j < 0 {
                } else {
                    if j < k.len() {
                        assert(head[j] == k[j]);
                    } else if j > k.len() {
                        assert(head[k.len() as int] != eq);
                    }
                }
            }
            assert(head.take(k.len() as int) =~= k);
            assert(head.skip(k.len() as int + 1) =~= v);
            assert(s.skip(m + 2) =~= rest);
            assert(pairs_clean(ps.drop_first(), eq, a)) by {
                assert(forall|i: int| 0 <= i < ps.drop_first().len()
                    ==> #[trigger] ps.drop_first()[i] == ps[i + 1]);
            }
            lemma_list_round_trip(ps.drop_first(), eq, a, b);
            assert(rest.len() > 0) by {
                if ps.drop_first().len() == 1 {
                } else {
                }
            }
            assert(pairs_model(rest, eq, a, b) == Some(ps.drop_first()));
            assert(seq![(k, v)] + ps.drop_first() =~= ps);
        }
    }
}

} // verus!
