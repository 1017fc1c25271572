//! Ordered intersection of sorted id lists (posting lists).

use crate::time_series::TimeSeriesId;
use vstd::prelude::*;

verus! {

/// The ids are in strictly ascending order (sorted and duplicate-free).
pub open spec fn strictly_sorted_ids(s: Seq<u64>) -> bool {
    forall|i: int, j: int| 0 <= i < j < s.len() ==> s[i] < s[j]
}

/// Intersect two strictly ascending id lists with a two-pointer merge.
/// The result is again strictly ascending and holds exactly the ids present
/// in both inputs.
pub fn order_intersect_ids(a: &Vec<TimeSeriesId>, b: &Vec<TimeSeriesId>) -> (r: Vec<TimeSeriesId>)
    requires
        strictly_sorted_ids(a@),
        strictly_sorted_ids(b@),
    ensures
        strictly_sorted_ids(r@),
        forall|x: u64| r@.contains(x) <==> (a@.contains(x) && b@.contains(x)),
{
    broadcast use vstd::seq_lib::group_seq_properties;

    let n = a.len();
    let m = b.len();
    let mut res: Vec<u64> = Vec::new();
    let mut i: usize = 0;
    let mut j: usize = 0;
    while i < n && j < m
        invariant
            i <= n,
            j <= m,
            n == a@.len(),
            m == b@.len(),
            strictly_sorted_ids(a@),
            strictly_sorted_ids(b@),
            strictly_sorted_ids(res@),
            forall|x: u64|
                res@.contains(x) <==> (a@.take(i as int).contains(x) && b@.take(
                    j as int,
                ).contains(x)),
            forall|k: int| 0 <= k < i && j < m ==> a@[k] < b@[j as int],
            forall|k: int| 0 <= k < j && i < n ==> b@[k] < a@[i as int],
            res@.len() > 0 && i < n ==> res@.last() < a@[i as int],
            res@.len() > 0 && j < m ==> res@.last() < b@[j as int],
        decreases n - i + m - j,
    {
        let ghost prev = res@;
        if a[i] == b[j] {
            res.push(a[i]);
            proof {
                let v = a@[i as int];
                assert(a@.take(i + 1) =~= a@.take(i as int).push(v));
                assert(b@.take(j + 1) =~= b@.take(j as int).push(v));
                assert(res@ == prev.push(v));
                assert forall|x: u64|
                    res@.contains(x) <==> (a@.take(i + 1).contains(x) && b@.take(
                        j + 1,
                    ).contains(x)) by {
                    lemma_contains_push(prev, v, x);
                    lemma_contains_push(a@.take(i as int), v, x);
                    lemma_contains_push(b@.take(j as int), v, x);
                }
            }
            i = i + 1;
            j = j + 1;
        } else if a[i] > b[j] {
            proof {
                let v = b@[j as int];
                assert(b@.take(j + 1) =~= b@.take(j as int).push(v));
                assert(!a@.take(i as int).contains(v)) by {
                    if a@.take(i as int).contains(v) {
                        let k = choose|k: int| 0 <= k < i && a@.take(i as int)[k] == v;
                        assert(a@[k] == v);
                        assert(a@[k] < b@[j as int]);
                    }
                }
                assert forall|x: u64|
                    res@.contains(x) <==> (a@.take(i as int).contains(x) && b@.take(
                        j + 1,
                    ).contains(x)) by {
                    lemma_contains_push(b@.take(j as int), v, x);
                }
            }
            j = j + 1;
        } else {
            proof {
                let v = a@[i as int];
                assert(a@.take(i + 1) =~= a@.take(i as int).push(v));
                assert(!b@.take(j as int).contains(v)) by {
                    if b@.take(j as int).contains(v) {
                        let k = choose|k: int| 0 <= k < j && b@.take(j as int)[k] == v;
                        assert(b@[k] == v);
                        assert(b@[k] < a@[i as int]);
                    }
                }
                assert forall|x: u64|
                    res@.contains(x) <==> (a@.take(i + 1).contains(x) && b@.take(
                        j as int,
                    ).contains(x)) by {
                    lemma_contains_push(a@.take(i as int), v, x);
                }
            }
            i = i + 1;
        }
    }
    proof {
        assert forall|x: u64| res@.contains(x) <==> (a@.contains(x) && b@.contains(x)) by {
            assert(a@.take(n as int) =~= a@);
            assert(b@.take(m as int) =~= b@);
            if a@.contains(x) && b@.contains(x) {
                let ka = choose|k: int| 0 <= k < a@.len() && a@[k] == x;
                let kb = choose|k: int| 0 <= k < b@.len() && b@[k] == x;
                if i == n {
                    assert(ka < i);
                    if kb >= j {
                        assert(j < m);
                        assert(b@[j as int] <= b@[kb]) by {
                            if j < kb {
                                assert(b@[j as int] < b@[kb]);
                            }
                        }
                        assert(a@[ka] < b@[j as int]);
                        assert(false);
                    }
                    assert(b@.take(j as int).contains(x)) by {
                        assert(b@.take(j as int)[kb] == x);
                    }
                    assert(a@.take(i as int).contains(x)) by {
                        assert(a@.take(i as int)[ka] == x);
                    }
                } else {
                    assert(kb < j);
                    if ka >= i {
                        assert(i < n);
                        assert(a@[i as int] <= a@[ka]) by {
                            if i < ka {
                                assert(a@[i as int] < a@[ka]);
                            }
                        }
                        assert(b@[kb] < a@[i as int]);
                        assert(false);
                    }
                    assert(b@.take(j as int).contains(x)) by {
                        assert(b@.take(j as int)[kb] == x);
                    }
                    assert(a@.take(i as int).contains(x)) by {
                        assert(a@.take(i as int)[ka] == x);
                    }
                }
            } else {
                if res@.contains(x) {
                    assert(a@.take(i as int).contains(x));
                    assert(b@.take(j as int).contains(x));
                    let ka = choose|k: int| 0 <= k < i && a@.take(i as int)[k] == x;
                    let kb = choose|k: int| 0 <= k < j && b@.take(j as int)[k] == x;
                    assert(a@[ka] == x);
                    assert(b@[kb] == x);
                    assert(a@.contains(x));
                    assert(b@.contains(x));
                }
            }
        }
    }
    res
}

/// The list is in strictly ascending order.
pub fn is_strictly_sorted(v: &Vec<TimeSeriesId>) -> (r: bool)
    ensures
        r == strictly_sorted_ids(v@),
{
    let n = v.len();
    let mut i: usize = 1;
    if n == 0 {
        return true;
    }
    while i < n
        invariant
            1 <= i <= n,
            n == v@.len(),
            forall|p: int, q: int| 0 <= p < q < i ==> v@[p] < v@[q],
        decreases n - i,
    {
        if v[i - 1] >= v[i] {
            return false;
        }
        proof {
            assert forall|p: int, q: int| 0 <= p < q < i + 1 implies v@[p] < v@[q] by {
                if q == i && p < i - 1 {
                    assert(v@[p] < v@[i - 1]);
                }
            }
        }
        i = i + 1;
    }
    true
}

/// Capability of intersecting with another value of the same ordered kind.
pub trait OrderIntersect: Sized {
    fn order_intersect(&self, other: &Self) -> Self;
}

impl OrderIntersect for Vec<TimeSeriesId> {
    /// Two-pointer intersection of posting lists. The inputs are expected in
    /// strictly ascending order; anything else yields an empty result.
    fn order_intersect(&self, other: &Self) -> Self {
        if is_strictly_sorted(self) && is_strictly_sorted(other) {
            order_intersect_ids(self, other)
        } else {
            Vec::new()
        }
    }
}

/// Membership in a pushed sequence: the pushed element, or an old member.
proof fn lemma_contains_push(s: Seq<u64>, v: u64, x: u64)
    ensures
        s.push(v).contains(x) <==> (s.contains(x) || x == v),
{
    if s.contains(x) {
        let k = choose|k: int| 0 <= k < s.len() && s[k] == x;
        assert(s.push(v)[k] == x);
    }
    if x == v {
        assert(s.push(v)[s.len() as int] == x);
    }
    if s.push(v).contains(x) {
        let k = choose|k: int| 0 <= k < s.push(v).len() && s.push(v)[k] == x;
        if k < s.len() {
            assert(s[k] == x);
        }
    }
}

} // verus!
