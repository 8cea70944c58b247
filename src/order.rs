//! Stable ordering of records by an optional timestamp.
use crate::text::{compare_text, lemma_stamp_irreflexive, lemma_stamp_transitive, stamp_before};
use std::cmp::Ordering;
use vstd::prelude::*;

verus! {

pub open spec fn stamp_view(s: Option<String>) -> Option<Seq<char>> {
    match s {
        Some(t) => Some(t@),
        None => None,
    }
}

pub open spec fn stamps_view(v: Seq<Option<String>>) -> Seq<Option<Seq<char>>> {
    Seq::new(v.len(), |i: int| stamp_view(v[i]))
}

/// Record `i` comes before record `j`: by timestamp (oldest first, or newest
/// first), and by position where the timestamps are equal.
pub open spec fn precedes(stamps: Seq<Option<Seq<char>>>, newest_first: bool, i: int, j: int) -> bool {
    if stamps[i] == stamps[j] {
        i < j
    } else if newest_first {
        stamp_before(stamps[j], stamps[i])
    } else {
        stamp_before(stamps[i], stamps[j])
    }
}

/// Position `j` occurs in `order`.
pub open spec fn lists(order: Seq<usize>, j: int) -> bool {
    exists|p: int| 0 <= p < order.len() && order[p] as int == j
}

/// `order` lists every position of `stamps` once, in the order of `precedes`.
pub open spec fn is_stamp_order(stamps: Seq<Option<Seq<char>>>, newest_first: bool, order: Seq<usize>) -> bool {
    &&& order.len() == stamps.len()
    &&& order.no_duplicates()
    &&& forall|p: int| 0 <= p < order.len() ==> order[p] < stamps.len()
    &&& forall|j: int| 0 <= j < stamps.len() ==> #[trigger] lists(order, j)
    &&& forall|p: int, q: int|
        0 <= p < q < order.len() ==> precedes(stamps, newest_first, #[trigger] order[p] as int, #[trigger] order[q] as int)
}

pub proof fn lemma_precedes_asymmetric(s: Seq<Option<Seq<char>>>, nf: bool, a: int, b: int)
    requires
        0 <= a < s.len(),
        0 <= b < s.len(),
        precedes(s, nf, a, b),
    ensures
        !precedes(s, nf, b, a),
{
    if precedes(s, nf, b, a) {
        lemma_precedes_transitive(s, nf, a, b, a);
    }
}

pub proof fn lemma_precedes_transitive(s: Seq<Option<Seq<char>>>, nf: bool, a: int, b: int, c: int)
    requires
        0 <= a < s.len(),
        0 <= b < s.len(),
        0 <= c < s.len(),
        precedes(s, nf, a, b),
        precedes(s, nf, b, c),
    ensures
        precedes(s, nf, a, c),
{
    if s[a] != s[b] && s[b] != s[c] {
        if nf {
            lemma_stamp_transitive(s[c], s[b], s[a]);
            if s[a] == s[c] {
                lemma_stamp_irreflexive(s[a]);
            }
        } else {
            lemma_stamp_transitive(s[a], s[b], s[c]);
            if s[a] == s[c] {
                lemma_stamp_irreflexive(s[a]);
            }
        }
    }
}

fn compare_stamps(a: &Option<String>, b: &Option<String>) -> (r: Ordering)
    ensures
        (r == Ordering::Less) == stamp_before(stamp_view(*a), stamp_view(*b)),
        (r == Ordering::Greater) == stamp_before(stamp_view(*b), stamp_view(*a)),
        (r == Ordering::Equal) == (stamp_view(*a) == stamp_view(*b)),
{
    match (a, b) {
        (None, None) => Ordering::Equal,
        (None, Some(_)) => Ordering::Less,
        (Some(_), None) => Ordering::Greater,
        (Some(x), Some(y)) => compare_text(x.as_str(), y.as_str()),
    }
}

fn goes_before(stamps: &Vec<Option<String>>, newest_first: bool, i: usize, j: usize) -> (r: bool)
    requires
        i < stamps@.len(),
        j < stamps@.len(),
        i != j,
    ensures
        r == precedes(stamps_view(stamps@), newest_first, i as int, j as int),
        !r ==> precedes(stamps_view(stamps@), newest_first, j as int, i as int),
{
    let ghost s = stamps_view(stamps@);
    assert(s[i as int] == stamp_view(stamps@[i as int]));
    assert(s[j as int] == stamp_view(stamps@[j as int]));
    match compare_stamps(&stamps[i], &stamps[j]) {
        Ordering::Equal => i < j,
        Ordering::Less => !newest_first,
        Ordering::Greater => newest_first,
    }
}

/// The positions of `stamps` in timestamp order (oldest first unless
/// `newest_first`), equal timestamps keeping their input order.
pub fn stamp_order(stamps: &Vec<Option<String>>, newest_first: bool) -> (r: Vec<usize>)
    ensures
        is_stamp_order(stamps_view(stamps@), newest_first, r@),
{
    let ghost s = stamps_view(stamps@);
    let n = stamps.len();
    let mut order: Vec<usize> = Vec::new();
    let mut i: usize = 0;
    while i < n
        invariant
            i <= n,
            n == stamps@.len(),
            s == stamps_view(stamps@),
            order@.len() == i,
            order@.no_duplicates(),
            forall|p: int| 0 <= p < order@.len() ==> order@[p] < i,
            forall|j: int| 0 <= j < i ==> #[trigger] lists(order@, j),
            forall|p: int, q: int|
                0 <= p < q < order@.len() ==> precedes(s, newest_first, #[trigger] order@[p] as int, #[trigger] order@[q] as int),
        decreases n - i,
    {
        let mut k: usize = i;
        while k > 0 && goes_before(stamps, newest_first, i, order[k - 1])
            invariant
                k <= i,
                i < n,
                n == stamps@.len(),
                s == stamps_view(stamps@),
                order@.len() == i,
                forall|p: int| 0 <= p < order@.len() ==> order@[p] < i,
                forall|q: int| k <= q < i ==> precedes(s, newest_first, i as int, #[trigger] order@[q] as int),
            decreases k,
        {
            k = k - 1;
        }
        proof {
            if k > 0 {
                let last = order@[k - 1] as int;
                assert(precedes(s, newest_first, last, i as int));
                assert forall|p: int| 0 <= p < k - 1 implies precedes(s, newest_first, #[trigger] order@[p] as int, i as int) by {
                    lemma_precedes_transitive(s, newest_first, order@[p] as int, last, i as int);
                }
            }
        }
        let ghost old_order = order@;
        order.insert(k, i);
        proof {
            let o = order@;
            assert forall|j: int| 0 <= j < i + 1 implies #[trigger] lists(o, j) by {
                if j == i {
                    assert(o[k as int] == i);
                } else {
                    assert(lists(old_order, j));
                    let p = choose|p: int| 0 <= p < old_order.len() && old_order[p] as int == j;
                    if p < k {
                        assert(o[p] == old_order[p]);
                    } else {
                        assert(o[p + 1] == old_order[p]);
                    }
                }
            }
            assert forall|p: int| 0 <= p < o.len() implies o[p] < i + 1 by {
                if p > k {
                    assert(o[p] == old_order[p - 1]);
                } else if p < k {
                    assert(o[p] == old_order[p]);
                }
            }
            assert forall|p: int, q: int| 0 <= p < q < o.len() implies precedes(s, newest_first, #[trigger] o[p] as int, #[trigger] o[q] as int) by {
                if p < k && q < k {
                    assert(o[p] == old_order[p] && o[q] == old_order[q]);
                } else if p < k && q == k {
                    assert(o[p] == old_order[p]);
                    if p < k - 1 {
                        assert(precedes(s, newest_first, old_order[p] as int, i as int));
                    }
                } else if p < k {
                    assert(o[p] == old_order[p] && o[q] == old_order[q - 1]);
                } else if p == k {
                    assert(o[q] == old_order[q - 1]);
                } else {
                    assert(o[p] == old_order[p - 1] && o[q] == old_order[q - 1]);
                }
            }
            assert forall|p: int, q: int| 0 <= p < o.len() && 0 <= q < o.len() && p != q implies o[p] != o[q] by {
                if p != k && q != k {
                    let pp = if p < k { p } else { p - 1 };
                    let qq = if q < k { q } else { q - 1 };
                    assert(o[p] == old_order[pp] && o[q] == old_order[qq]);
                } else if p == k {
                    let qq = if q < k { q } else { q - 1 };
                    assert(o[q] == old_order[qq]);
                } else {
                    let pp = if p < k { p } else { p - 1 };
                    assert(o[p] == old_order[pp]);
                }
            }
        }
        i = i + 1;
    }
    order
}

} // verus!
