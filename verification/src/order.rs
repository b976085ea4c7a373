//! Stable ordering by decreasing key.
//!
//! The analyses list their results by decreasing count or size, keeping the
//! earlier of two entries with equal keys first (what a stable sort by the
//! reversed key gives). Positions are ordered by `ranks_before`, a strict
//! total order on distinct positions, so the sorted order is unique.

use vstd::prelude::*;

verus! {

broadcast use vstd::seq_lib::group_to_multiset_ensures;

/// Position `i` comes before position `j`: a larger key first, and among
/// equal keys the earlier position.
pub open spec fn ranks_before(keys: Seq<usize>, i: int, j: int) -> bool {
    keys[i] > keys[j] || (keys[i] == keys[j] && i < j)
}

/// `ranks_before`, or the same position.
pub open spec fn ranks_before_eq(keys: Seq<usize>, i: int, j: int) -> bool {
    keys[i] > keys[j] || (keys[i] == keys[j] && i <= j)
}

/// `s` lists positions in `ranks_before_eq` order.
pub open spec fn ranked(keys: Seq<usize>, s: Seq<usize>) -> bool {
    forall|a: int, b: int|
        0 <= a < b < s.len() ==> ranks_before_eq(keys, #[trigger] s[a] as int, #[trigger] s[b] as int)
}

/// `order` lists each position of `keys` once, ordered by `ranks_before`.
pub open spec fn is_rank_order(keys: Seq<usize>, order: Seq<usize>) -> bool {
    &&& order.len() == keys.len()
    &&& forall|k: int| 0 <= k < order.len() ==> #[trigger] order[k] < keys.len()
    &&& forall|a: int, b: int|
        0 <= a < b < order.len() ==> ranks_before(keys, #[trigger] order[a] as int, #[trigger] order[b] as int)
    &&& forall|i: int| 0 <= i < keys.len() ==> #[trigger] order.contains(i as usize)
}

fn comes_first(keys: &Vec<usize>, i: usize, j: usize) -> (r: bool)
    requires
        i < keys.len(),
        j < keys.len(),
    ensures
        r == ranks_before_eq(keys@, i as int, j as int),
{
    keys[i] > keys[j] || (keys[i] == keys[j] && i <= j)
}

fn merge(keys: &Vec<usize>, l: &Vec<usize>, r: &Vec<usize>) -> (out: Vec<usize>)
    requires
        forall|k: int| 0 <= k < l.len() ==> #[trigger] l@[k] < keys.len(),
        forall|k: int| 0 <= k < r.len() ==> #[trigger] r@[k] < keys.len(),
        ranked(keys@, l@),
        ranked(keys@, r@),
    ensures
        out@.to_multiset() == l@.to_multiset().add(r@.to_multiset()),
        ranked(keys@, out@),
        forall|k: int| 0 <= k < out.len() ==> #[trigger] out@[k] < keys.len(),
{
    let mut out: Vec<usize> = Vec::new();
    let mut i: usize = 0;
    let mut j: usize = 0;
    while i < l.len() || j < r.len()
        invariant
            i <= l.len(),
            j <= r.len(),
            forall|k: int| 0 <= k < l.len() ==> #[trigger] l@[k] < keys.len(),
            forall|k: int| 0 <= k < r.len() ==> #[trigger] r@[k] < keys.len(),
            ranked(keys@, l@),
            ranked(keys@, r@),
            ranked(keys@, out@),
            forall|k: int| 0 <= k < out.len() ==> #[trigger] out@[k] < keys.len(),
            out@.to_multiset() == l@.take(i as int).to_multiset().add(r@.take(j as int).to_multiset()),
            forall|a: int, k: int|
                0 <= a < out.len() && i <= k < l.len() ==> ranks_before_eq(
                    keys@,
                    #[trigger] out@[a] as int,
                    #[trigger] l@[k] as int,
                ),
            forall|a: int, k: int|
                0 <= a < out.len() && j <= k < r.len() ==> ranks_before_eq(
                    keys@,
                    #[trigger] out@[a] as int,
                    #[trigger] r@[k] as int,
                ),
        decreases l.len() + r.len() - i - j,
    {
        let take_left = if i < l.len() && j < r.len() {
            comes_first(keys, l[i], r[j])
        } else {
            i < l.len()
        };
        if take_left {
            let x = l[i];
            proof {
                assert(l@.take(i + 1) =~= l@.take(i as int).push(x));
            }
            out.push(x);
            i = i + 1;
        } else {
            let x = r[j];
            proof {
                assert(r@.take(j + 1) =~= r@.take(j as int).push(x));
            }
            out.push(x);
            j = j + 1;
        }
    }
    proof {
        assert(l@.take(l.len() as int) =~= l@);
        assert(r@.take(r.len() as int) =~= r@);
    }
    out
}

fn sort_positions(keys: &Vec<usize>, v: Vec<usize>) -> (out: Vec<usize>)
    requires
        forall|k: int| 0 <= k < v.len() ==> #[trigger] v@[k] < keys.len(),
    ensures
        out@.to_multiset() == v@.to_multiset(),
        ranked(keys@, out@),
        forall|k: int| 0 <= k < out.len() ==> #[trigger] out@[k] < keys.len(),
    decreases v.len(),
{
    if v.len() <= 1 {
        return v;
    }
    let mid = v.len() / 2;
    let mut left: Vec<usize> = Vec::new();
    let mut right: Vec<usize> = Vec::new();
    for k in 0..mid
        invariant
            mid <= v.len(),
            left@ == v@.take(k as int),
    {
        left.push(v[k]);
        proof {
            assert(v@.take(k + 1) =~= v@.take(k as int).push(v@[k as int]));
        }
    }
    for k in mid..v.len()
        invariant
            mid <= k <= v.len(),
            right@ == v@.subrange(mid as int, k as int),
    {
        right.push(v[k]);
        proof {
            assert(v@.subrange(mid as int, k + 1) =~= v@.subrange(mid as int, k as int).push(
                v@[k as int],
            ));
        }
    }
    proof {
        assert(v@ =~= left@ + right@);
        vstd::seq_lib::lemma_multiset_commutative(left@, right@);
    }
    let sl = sort_positions(keys, left);
    let sr = sort_positions(keys, right);
    merge(keys, &sl, &sr)
}

/// The positions of `keys` ordered by decreasing key, equal keys by
/// increasing position (a stable sort by the reversed key).
pub fn stable_order_desc(keys: &Vec<usize>) -> (order: Vec<usize>)
    ensures
        is_rank_order(keys@, order@),
{
    let mut all: Vec<usize> = Vec::new();
    for i in 0..keys.len()
        invariant
            all@.len() == i,
            forall|k: int| 0 <= k < i ==> #[trigger] all@[k] == k,
    {
        all.push(i);
    }
    let order = sort_positions(keys, all);
    proof {
        assert(all@.no_duplicates());
        all@.lemma_multiset_has_no_duplicates();
        assert(order@.len() == order@.to_multiset().len());
        assert(all@.len() == all@.to_multiset().len());
        assert(order@.len() == keys.len());
        order@.lemma_multiset_has_no_duplicates_conv();
        assert forall|i: int| 0 <= i < keys.len() implies #[trigger] order@.contains(i as usize) by {
            assert(all@[i] == i);
            assert(all@.contains(i as usize));
            assert(all@.to_multiset().count(i as usize) > 0);
            assert(order@.to_multiset().count(i as usize) > 0);
        }
        assert forall|a: int, b: int| 0 <= a < b < order.len() implies ranks_before(
            keys@,
            #[trigger] order@[a] as int,
            #[trigger] order@[b] as int,
        ) by {
            assert(order@[a] != order@[b]);
        }
    }
    order
}

} // verus!
