//! Binary search in a partitioned list of table ids.

use vstd::prelude::*;

verus! {

/// How many of the first elements of `s` satisfy `p` in a row.
pub open spec fn prefix_len<A>(s: Seq<A>, p: spec_fn(A) -> bool) -> nat
    decreases s.len(),
{
    if s.len() == 0 || !p(s[0]) {
        0
    } else {
        1 + prefix_len(s.drop_first(), p)
    }
}

/// All the elements that satisfy `p` come before those that do not.
pub open spec fn is_partitioned<A>(s: Seq<A>, p: spec_fn(A) -> bool) -> bool {
    forall|i: int, j: int| 0 <= i < j < s.len() && p(#[trigger] s[j]) ==> p(#[trigger] s[i])
}

pub proof fn lemma_prefix_len<A>(s: Seq<A>, p: spec_fn(A) -> bool)
    ensures
        prefix_len(s, p) <= s.len(),
        forall|i: int| 0 <= i < prefix_len(s, p) ==> p(#[trigger] s[i]),
        prefix_len(s, p) < s.len() ==> !p(s[prefix_len(s, p) as int]),
    decreases s.len(),
{
    if s.len() > 0 && p(s[0]) {
        lemma_prefix_len(s.drop_first(), p);
        assert forall|i: int| 0 <= i < prefix_len(s, p) implies p(#[trigger] s[i]) by {
            if i > 0 {
                assert(s[i] == s.drop_first()[i - 1]);
            }
        }
    }
}

pub(crate) proof fn lemma_prefix_len_is<A>(s: Seq<A>, p: spec_fn(A) -> bool, n: nat)
    requires
        n <= s.len(),
        forall|i: int| 0 <= i < n ==> p(#[trigger] s[i]),
        n < s.len() ==> !p(s[n as int]),
    ensures
        prefix_len(s, p) == n,
{
    lemma_prefix_len(s, p);
    let k = prefix_len(s, p);
    if k < n {
        assert(p(s[k as int]));
    } else if n < k {
        assert(p(s[n as int]));
    }
}

/// The number of elements before the first one that fails the predicate, by binary search.
pub(crate) fn partition_point<F: Fn(usize) -> bool>(
    ids: &Vec<usize>,
    pred: F,
    Ghost(p): Ghost<spec_fn(usize) -> bool>,
) -> (point: usize)
    requires
        forall|i: int| 0 <= i < ids@.len() ==> call_requires(pred, (#[trigger] ids@[i],)),
        forall|id: usize, r: bool| #[trigger] call_ensures(pred, (id,), r) ==> r == p(id),
        is_partitioned(ids@, p),
    ensures
        point == prefix_len(ids@, p),
        point <= ids@.len(),
{
    let mut low: usize = 0;
    let mut high: usize = ids.len();
    while low < high
        invariant
            low <= high <= ids@.len(),
            forall|i: int| 0 <= i < ids@.len() ==> call_requires(pred, (#[trigger] ids@[i],)),
            forall|id: usize, r: bool| #[trigger] call_ensures(pred, (id,), r) ==> r == p(id),
            is_partitioned(ids@, p),
            forall|i: int| 0 <= i < low ==> p(#[trigger] ids@[i]),
            high < ids@.len() ==> !p(ids@[high as int]),
        decreases high - low,
    {
        let mid: usize = low + (high - low) / 2;
        let holds = pred(ids[mid]);
        if holds {
            assert forall|i: int| 0 <= i < mid + 1 implies p(#[trigger] ids@[i]) by {
                if i < mid {
                    assert(p(ids@[mid as int]));
                }
            }
            low = mid + 1;
        } else {
            high = mid;
        }
    }
    proof {
        lemma_prefix_len_is(ids@, p, low as nat);
    }
    low
}

/// The number of elements before the first one that fails the predicate; nothing if one after it
/// satisfies the predicate.
pub(crate) fn check_partitioned<F: Fn(usize) -> bool>(
    ids: &Vec<usize>,
    pred: F,
    Ghost(p): Ghost<spec_fn(usize) -> bool>,
) -> (point: Option<usize>)
    requires
        forall|i: int| 0 <= i < ids@.len() ==> call_requires(pred, (#[trigger] ids@[i],)),
        forall|id: usize, r: bool| #[trigger] call_ensures(pred, (id,), r) ==> r == p(id),
    ensures
        point is Some == is_partitioned(ids@, p),
        point is Some ==> point->Some_0 == prefix_len(ids@, p),
{
    let mut point: usize = 0;
    while point < ids.len() && pred(ids[point])
        invariant
            point <= ids@.len(),
            forall|i: int| 0 <= i < ids@.len() ==> call_requires(pred, (#[trigger] ids@[i],)),
            forall|id: usize, r: bool| #[trigger] call_ensures(pred, (id,), r) ==> r == p(id),
            forall|i: int| 0 <= i < point ==> p(#[trigger] ids@[i]),
        ensures
            point <= ids@.len(),
            forall|i: int| 0 <= i < point ==> p(#[trigger] ids@[i]),
            point < ids@.len() ==> !p(ids@[point as int]),
        decreases ids@.len() - point,
    {
        point += 1;
    }
    proof {
        lemma_prefix_len_is(ids@, p, point as nat);
    }
    let mut i: usize = point;
    while i < ids.len()
        invariant
            point <= i <= ids@.len(),
            forall|k: int| 0 <= k < ids@.len() ==> call_requires(pred, (#[trigger] ids@[k],)),
            forall|id: usize, r: bool| #[trigger] call_ensures(pred, (id,), r) ==> r == p(id),
            point < ids@.len() ==> !p(ids@[point as int]),
            forall|k: int| point <= k < i ==> !p(#[trigger] ids@[k]),
        decreases ids@.len() - i,
    {
        let holds = pred(ids[i]);
        if holds {
            assert(p(ids@[i as int]) && !p(ids@[point as int]));
            return None;
        }
        i += 1;
    }
    Some(point)
}

} // verus!
