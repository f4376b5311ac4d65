//! Lists of table ids.

use std::collections::HashSet;
use vstd::prelude::*;

verus! {

/// The list without the ids of `gone`.
pub open spec fn without(ids: Seq<usize>, gone: Seq<usize>) -> Seq<usize> {
    ids.filter(|id: usize| !gone.contains(id))
}

/// The list with the ids from position `start` to position `end` replaced by `middle`.
pub open spec fn spliced(ids: Seq<usize>, start: int, end: int, middle: Seq<usize>) -> Seq<usize> {
    ids.take(start) + middle + ids.skip(end)
}

/// The set of the ids of a list.
fn to_hash_set(ids: &Vec<usize>) -> (set: HashSet<usize>)
    ensures
        forall|id: usize| #[trigger] set@.contains(id) == ids@.contains(id),
{
    broadcast use vstd::std_specs::hash::group_hash_axioms;

    let mut set: HashSet<usize> = HashSet::new();
    let mut i: usize = 0;
    while i < ids.len()
        invariant
            i <= ids@.len(),
            forall|id: usize| #[trigger]
                set@.contains(id) == (exists|k: int| 0 <= k < i && #[trigger] ids@[k] == id),
        decreases ids@.len() - i,
    {
        set.insert(ids[i]);
        i += 1;
        assert(ids@[i - 1] == ids@[i - 1]);
    }
    set
}

/// Whether two lists are equal.
pub(crate) fn equal_ids(a: &Vec<usize>, b: &Vec<usize>) -> (equal: bool)
    ensures
        equal == (a@ == b@),
{
    if a.len() != b.len() {
        return false;
    }
    let mut i: usize = 0;
    while i < a.len()
        invariant
            i <= a@.len() == b@.len(),
            a@.take(i as int) == b@.take(i as int),
        decreases a@.len() - i,
    {
        if a[i] != b[i] {
            return false;
        }
        i += 1;
        assert(a@.take(i as int) =~= a@.take(i - 1).push(a@[i - 1]));
        assert(b@.take(i as int) =~= b@.take(i - 1).push(b@[i - 1]));
    }
    assert(a@.take(i as int) =~= a@);
    assert(b@.take(i as int) =~= b@);
    true
}

/// Whether the list holds an id.
pub(crate) fn contains_id(ids: &Vec<usize>, id: usize) -> (contains: bool)
    ensures
        contains == ids@.contains(id),
{
    let mut i: usize = 0;
    while i < ids.len()
        invariant
            i <= ids@.len(),
            forall|k: int| 0 <= k < i ==> #[trigger] ids@[k] != id,
        decreases ids@.len() - i,
    {
        if ids[i] == id {
            return true;
        }
        i += 1;
    }
    false
}

/// Whether no id occurs twice in the list.
pub(crate) fn are_distinct(ids: &Vec<usize>) -> (distinct: bool)
    ensures
        distinct == ids@.no_duplicates(),
{
    broadcast use vstd::std_specs::hash::group_hash_axioms;

    let mut seen: HashSet<usize> = HashSet::new();
    let mut i: usize = 0;
    while i < ids.len()
        invariant
            i <= ids@.len(),
            forall|id: usize| #[trigger]
                seen@.contains(id) == (exists|k: int| 0 <= k < i && #[trigger] ids@[k] == id),
            forall|a: int, b: int|
                0 <= a < b < i ==> #[trigger] ids@[a] != #[trigger] ids@[b],
        decreases ids@.len() - i,
    {
        let id: usize = ids[i];
        assert(ids@[i as int] == id);
        if seen.contains(&id) {
            let ghost k = choose|k: int| 0 <= k < i && #[trigger] ids@[k] == id;
            assert(ids@[k] == ids@[i as int]);
            return false;
        }
        seen.insert(id);
        i += 1;
    }
    true
}

/// Whether all of `part` are ids of the list.
pub(crate) fn contains_ids(ids: &Vec<usize>, part: &Vec<usize>) -> (contains: bool)
    ensures
        contains == (forall|i: int| 0 <= i < part@.len() ==> ids@.contains(#[trigger] part@[i])),
{
    broadcast use vstd::std_specs::hash::group_hash_axioms;

    let set = to_hash_set(ids);
    let mut i: usize = 0;
    while i < part.len()
        invariant
            forall|id: usize| #[trigger] set@.contains(id) == ids@.contains(id),
            i <= part@.len(),
            forall|k: int| 0 <= k < i ==> ids@.contains(#[trigger] part@[k]),
        decreases part@.len() - i,
    {
        if !set.contains(&part[i]) {
            assert(!ids@.contains(part@[i as int]));
            return false;
        }
        i += 1;
    }
    true
}

/// The list without the ids of `gone`.
pub fn remove_ids(ids: &Vec<usize>, gone: &Vec<usize>) -> (kept: Vec<usize>)
    ensures
        kept@ == without(ids@, gone@),
{
    broadcast use vstd::std_specs::hash::group_hash_axioms;

    let set = to_hash_set(gone);
    let ghost p = |id: usize| !gone@.contains(id);
    let mut kept: Vec<usize> = Vec::new();
    let mut i: usize = 0;
    reveal(Seq::filter);
    while i < ids.len()
        invariant
            p == (|id: usize| !gone@.contains(id)),
            forall|id: usize| #[trigger] set@.contains(id) == gone@.contains(id),
            i <= ids@.len(),
            kept@ == ids@.take(i as int).filter(p),
        decreases ids@.len() - i,
    {
        proof {
            reveal(Seq::filter);
            assert(ids@.take(i + 1).drop_last() =~= ids@.take(i as int));
            assert(ids@.take(i + 1).last() == ids@[i as int]);
        }
        let id = ids[i];
        if !set.contains(&id) {
            kept.push(id);
        }
        i += 1;
    }
    assert(ids@.take(i as int) =~= ids@);
    kept
}

/// Appends the ids of `tail`.
pub fn append_ids(ids: &mut Vec<usize>, tail: &[usize])
    ensures
        final(ids)@ == old(ids)@ + tail@,
{
    let mut i: usize = 0;
    assert(tail@.take(0) =~= Seq::<usize>::empty());
    while i < tail.len()
        invariant
            i <= tail@.len(),
            ids@ == old(ids)@ + tail@.take(i as int),
        decreases tail@.len() - i,
    {
        ids.push(tail[i]);
        i += 1;
        assert(ids@ =~= old(ids)@ + tail@.take(i as int));
    }
    assert(tail@.take(i as int) =~= tail@);
}

/// The list with the ids from position `start` to position `end` replaced by `middle`.
pub fn splice_ids(ids: &Vec<usize>, start: usize, end: usize, middle: &[usize]) -> (result: Vec<
    usize,
>)
    requires
        start <= end <= ids@.len(),
    ensures
        result@ == spliced(ids@, start as int, end as int, middle@),
{
    let mut result: Vec<usize> = vstd::slice::slice_to_vec(
        vstd::slice::slice_subrange(ids.as_slice(), 0, start),
    );
    append_ids(&mut result, middle);
    append_ids(&mut result, vstd::slice::slice_subrange(ids.as_slice(), end, ids.len()));
    assert(result@ =~= spliced(ids@, start as int, end as int, middle@));
    result
}

} // verus!
