//! Sorting of picosecond samples and of thread-count lists.

use vstd::prelude::*;
use vstd::relations::{sorted_by, total_ordering};
use vstd::seq_lib::{lemma_multiset_commutative, lemma_sorted_unique};

verus! {

broadcast use vstd::seq_lib::group_to_multiset_ensures;

/// The ascending order on `u128`.
pub open spec fn le_u128() -> spec_fn(u128, u128) -> bool {
    |a: u128, b: u128| a <= b
}

/// `s` in ascending order.
pub open spec fn sorted_seq(s: Seq<u128>) -> Seq<u128> {
    s.sort_by(le_u128())
}

/// Whether `s` is in ascending order.
pub open spec fn is_sorted(s: Seq<u128>) -> bool {
    forall|i: int, j: int| 0 <= i <= j < s.len() ==> s[i] <= s[j]
}

/// The ascending order on `u128` is a total order.
pub proof fn lemma_le_u128_total()
    ensures
        total_ordering(le_u128()),
{
}

/// The ascending arrangement of `s` is sorted and holds exactly the
/// elements of `s`, and it is the only sequence that does both.
pub proof fn lemma_sorted_seq(s: Seq<u128>, t: Seq<u128>)
    ensures
        is_sorted(sorted_seq(s)),
        sorted_seq(s).to_multiset() == s.to_multiset(),
        sorted_seq(s).len() == s.len(),
        is_sorted(t) && t.to_multiset() == s.to_multiset() ==> t == sorted_seq(s),
{
    lemma_le_u128_total();
    s.lemma_sort_by_ensures(le_u128());
    let r = sorted_seq(s);
    assert(is_sorted(r)) by {
        assert forall|i: int, j: int| 0 <= i <= j < r.len() implies r[i] <= r[j] by {
            if i < j {
                assert(le_u128()(r[i], r[j]));
            }
        }
    }
    assert(r.len() == r.to_multiset().len());
    if is_sorted(t) && t.to_multiset() == s.to_multiset() {
        assert(sorted_by(t, le_u128())) by {
            assert forall|i: int, j: int| 0 <= i < j < t.len() implies #[trigger] le_u128()(t[i], t[j]) by {
            }
        }
        lemma_sorted_unique(t, r, le_u128());
    }
}

/// Merges two sorted vectors into one sorted vector holding the elements
/// of both.
fn merge(a: &Vec<u128>, b: &Vec<u128>) -> (r: Vec<u128>)
    requires
        is_sorted(a@),
        is_sorted(b@),
        a.len() + b.len() <= usize::MAX,
    ensures
        is_sorted(r@),
        r@.to_multiset() == a@.to_multiset().add(b@.to_multiset()),
        r.len() == a.len() + b.len(),
{
    let mut r: Vec<u128> = Vec::with_capacity(a.len() + b.len());
    let mut i: usize = 0;
    let mut j: usize = 0;
    while i < a.len() || j < b.len()
        invariant
            i <= a.len(),
            j <= b.len(),
            a.len() + b.len() <= usize::MAX,
            r.len() == i + j,
            is_sorted(a@),
            is_sorted(b@),
            is_sorted(r@),
            r@.to_multiset() == a@.subrange(0, i as int).to_multiset().add(
                b@.subrange(0, j as int).to_multiset(),
            ),
            forall|k: int| 0 <= k < r.len() ==> (i < a.len() ==> r@[k] <= a@[i as int]),
            forall|k: int| 0 <= k < r.len() ==> (j < b.len() ==> r@[k] <= b@[j as int]),
        decreases a.len() + b.len() - i - j,
    {
        let take_a: bool = if j >= b.len() {
            true
        } else if i >= a.len() {
            false
        } else {
            a[i] <= b[j]
        };
        if take_a {
            let x: u128 = a[i];
            r.push(x);
            proof {
                assert(a@.subrange(0, i + 1) =~= a@.subrange(0, i as int).push(x));
            }
            i = i + 1;
        } else {
            let x: u128 = b[j];
            r.push(x);
            proof {
                assert(b@.subrange(0, j + 1) =~= b@.subrange(0, j as int).push(x));
            }
            j = j + 1;
        }
    }
    proof {
        assert(a@.subrange(0, a.len() as int) =~= a@);
        assert(b@.subrange(0, b.len() as int) =~= b@);
    }
    r
}

/// Sorts the elements of `v` at indices `lo..hi`.
fn merge_sort_range(v: &[u128], lo: usize, hi: usize) -> (r: Vec<u128>)
    requires
        lo <= hi <= v@.len(),
    ensures
        is_sorted(r@),
        r@.to_multiset() == v@.subrange(lo as int, hi as int).to_multiset(),
        r.len() == hi - lo,
    decreases hi - lo,
{
    if hi - lo <= 1 {
        let mut r: Vec<u128> = Vec::new();
        if hi - lo == 1 {
            r.push(v[lo]);
        }
        proof {
            assert(r@ =~= v@.subrange(lo as int, hi as int));
        }
        r
    } else {
        let mid: usize = lo + (hi - lo) / 2;
        let left: Vec<u128> = merge_sort_range(v, lo, mid);
        let right: Vec<u128> = merge_sort_range(v, mid, hi);
        let r: Vec<u128> = merge(&left, &right);
        proof {
            assert(v@.subrange(lo as int, hi as int) =~= v@.subrange(lo as int, mid as int) + v@.subrange(
                mid as int,
                hi as int,
            ));
            lemma_multiset_commutative(
                v@.subrange(lo as int, mid as int),
                v@.subrange(mid as int, hi as int),
            );
        }
        r
    }
}

/// The elements of `v` in ascending order.
pub fn sort_u128(v: &[u128]) -> (r: Vec<u128>)
    ensures
        r@ == sorted_seq(v@),
{
    let r: Vec<u128> = merge_sort_range(v, 0, v.len());
    proof {
        assert(v@.subrange(0, v@.len() as int) =~= v@);
        lemma_sorted_seq(v@, r@);
    }
    r
}

/// Whether `s` is strictly increasing.
pub open spec fn strictly_increasing(s: Seq<u32>) -> bool {
    forall|i: int, j: int| 0 <= i < j < s.len() ==> s[i] < s[j]
}

/// Inserts `x` into the strictly increasing `v` unless it is already there.
fn insert_unique(v: &mut Vec<u32>, x: u32)
    requires
        strictly_increasing(old(v)@),
    ensures
        strictly_increasing(final(v)@),
        forall|y: u32| final(v)@.contains(y) <==> (old(v)@.contains(y) || y == x),
        final(v)@.len() <= old(v)@.len() + 1,
{
    let mut i: usize = 0;
    while i < v.len() && v[i] < x
        invariant
            i <= v.len(),
            forall|k: int| 0 <= k < i ==> v@[k] < x,
        decreases v.len() - i,
    {
        i = i + 1;
    }
    if i < v.len() && v[i] == x {
        return;
    }
    let ghost before = v@;
    v.insert(i, x);
    proof {
        assert(v@ =~= before.subrange(0, i as int).push(x) + before.subrange(i as int, before.len() as int));
        assert forall|y: u32| v@.contains(y) <==> (before.contains(y) || y == x) by {
            if v@.contains(y) {
                let k = choose|k: int| 0 <= k < v@.len() && v@[k] == y;
                if k < i {
                    assert(before[k] == y);
                } else if k > i {
                    assert(before[k - 1] == y);
                }
            }
            if before.contains(y) {
                let k = choose|k: int| 0 <= k < before.len() && before[k] == y;
                if k < i {
                    assert(v@[k] == y);
                } else {
                    assert(v@[k + 1] == y);
                }
            }
            if y == x {
                assert(v@[i as int] == x);
            }
        }
    }
}

/// The distinct elements of `values` in ascending order.
pub fn sort_dedup_u32(values: &[u32]) -> (r: Vec<u32>)
    ensures
        strictly_increasing(r@),
        forall|y: u32| r@.contains(y) <==> values@.contains(y),
        r.len() <= values.len(),
{
    let mut r: Vec<u32> = Vec::new();
    let mut i: usize = 0;
    while i < values.len()
        invariant
            i <= values.len(),
            strictly_increasing(r@),
            forall|y: u32| r@.contains(y) <==> values@.subrange(0, i as int).contains(y),
            r.len() <= i,
        decreases values.len() - i,
    {
        let ghost sub = values@.subrange(0, i as int);
        let ghost old_r = r@;
        let x: u32 = values[i];
        insert_unique(&mut r, x);
        proof {
            assert(values@.subrange(0, i + 1) =~= sub.push(values@[i as int]));
            assert forall|y: u32| r@.contains(y) <==> values@.subrange(0, i + 1).contains(y) by {
                let s1 = values@.subrange(0, i + 1);
                assert(old_r.contains(y) <==> sub.contains(y));
                if r@.contains(y) {
                    if old_r.contains(y) {
                        let k = choose|k: int| 0 <= k < sub.len() && sub[k] == y;
                        assert(s1[k] == y);
                    } else {
                        assert(y == x);
                        assert(s1[i as int] == y);
                    }
                }
                if s1.contains(y) {
                    let k = choose|k: int| 0 <= k < s1.len() && s1[k] == y;
                    if k < i {
                        assert(sub[k] == y);
                    } else {
                        assert(y == x);
                    }
                }
            }
        }
        i = i + 1;
    }
    proof {
        assert(values@.subrange(0, values.len() as int) =~= values@);
    }
    r
}

} // verus!
