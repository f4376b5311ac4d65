//! Merging two iterators.

use vstd::prelude::*;

use super::{is_sorted, EntryView, IterError, StorageIterator};
use crate::key::{
    key_le, key_lt, lemma_key_le_transitive, lemma_key_lt_irreflexive, lemma_key_lt_total,
    lemma_key_lt_transitive, KeySlice, KeyView,
};

verus! {

/// The entries of `a` and `b` in the order of their keys. Of two entries at the front with the
/// same key, the one of `b` is left out.
pub open spec fn merge(a: Seq<EntryView>, b: Seq<EntryView>) -> Seq<EntryView>
    decreases a.len() + b.len(),
{
    if b.len() == 0 {
        a
    } else if a.len() == 0 {
        b
    } else if key_le(a[0].0, b[0].0) {
        let rest = if a[0].0 == b[0].0 {
            b.drop_first()
        } else {
            b
        };
        seq![a[0]] + merge(a.drop_first(), rest)
    } else {
        seq![b[0]] + merge(a, b.drop_first())
    }
}

/// The next entry of the merge is the front of `a`.
pub open spec fn takes_first(a: Seq<EntryView>, b: Seq<EntryView>) -> bool {
    b.len() == 0 || (a.len() > 0 && key_le(a[0].0, b[0].0))
}

/// Merges two iterators of different types into one. If the two iterators have the same key, only
/// produce the key once and prefer the entry from A.
pub struct TwoMergeIterator<A: StorageIterator, B: StorageIterator> {
    a: A,
    b: B,
    next_is_a: bool,
}

impl<A: StorageIterator, B: StorageIterator> TwoMergeIterator<A, B> {
    /// The iterator that is preferred.
    pub closed spec fn first(&self) -> A {
        self.a
    }

    /// The other iterator.
    pub closed spec fn second(&self) -> B {
        self.b
    }

    /// Merges two iterators.
    pub fn create(a: A, b: B) -> (result: Result<Self, IterError>)
        requires
            a.wf(),
            b.wf(),
        ensures
            result matches Ok(iter) && iter.wf() && iter.first() == a && iter.second() == b
                && iter.remaining() == merge(a.remaining(), b.remaining()),
    {
        let next_is_a = Self::choose_first(&a, &b);
        Ok(TwoMergeIterator { a, b, next_is_a })
    }

    /// Whether the next entry is that of `a`.
    pub fn choose_first(a: &A, b: &B) -> (first: bool)
        requires
            a.wf(),
            b.wf(),
        ensures
            first == takes_first(a.remaining(), b.remaining()),
    {
        if !b.is_valid() {
            return true;
        }
        if !a.is_valid() {
            return false;
        }
        proof {
            lemma_key_lt_total(a.remaining()[0].0, b.remaining()[0].0);
            lemma_key_lt_irreflexive(b.remaining()[0].0);
        }
        !b.key().is_less(&a.key())
    }
}

impl<A: StorageIterator, B: StorageIterator> StorageIterator for TwoMergeIterator<A, B> {
    open spec fn remaining(&self) -> Seq<EntryView> {
        merge(self.first().remaining(), self.second().remaining())
    }

    closed spec fn wf(&self) -> bool {
        &&& self.a.wf()
        &&& self.b.wf()
        &&& self.next_is_a == takes_first(self.a.remaining(), self.b.remaining())
    }

    /// Where both have the same key, the other iterator is moved before the preferred one, which
    /// is not moved if that fails. Else only the one whose entry is next is moved. A failure is
    /// that of the iterator that failed.
    open spec fn can_end_in(&self, failure: Option<Seq<char>>) -> bool {
        let (a, b) = (self.first(), self.second());
        if !takes_first(a.remaining(), b.remaining()) {
            b.can_end_in(failure)
        } else if b.remaining().len() > 0 && a.remaining()[0].0 == b.remaining()[0].0 {
            ||| failure is Some && b.can_end_in(failure)
            ||| b.can_end_in(None) && a.can_end_in(failure)
        } else {
            a.can_end_in(failure)
        }
    }

    open spec fn is_infallible(&self) -> bool {
        self.first().is_infallible() && self.second().is_infallible()
    }

    fn key(&self) -> (key: KeySlice<'_>) {
        if self.next_is_a {
            self.a.key()
        } else {
            self.b.key()
        }
    }

    fn value(&self) -> (value: &[u8]) {
        if self.next_is_a {
            self.a.value()
        } else {
            self.b.value()
        }
    }

    fn is_valid(&self) -> (valid: bool) {
        if self.next_is_a {
            self.a.is_valid()
        } else {
            self.b.is_valid()
        }
    }

    fn next(&mut self) -> (result: Result<(), IterError>) {
        let ghost a = self.a.remaining();
        let ghost b = self.b.remaining();
        if self.next_is_a {
            if self.b.is_valid() && self.a.key().is_equal(&self.b.key()) {
                match self.b.next() {
                    Ok(()) => {},
                    Err(e) => {
                        return Err(e);
                    },
                }
            }
            match self.a.next() {
                Ok(()) => {},
                Err(e) => {
                    return Err(e);
                },
            }
        } else {
            // no need to move `a`, because `a` is always chosen first
            match self.b.next() {
                Ok(()) => {},
                Err(e) => {
                    return Err(e);
                },
            }
        }
        self.next_is_a = Self::choose_first(&self.a, &self.b);
        proof {
            assert(self.remaining() =~= merge(a, b).drop_first());
        }
        Ok(())
    }
}

/// One of the entries has the key.
pub open spec fn has_key(entries: Seq<EntryView>, key: KeyView) -> bool {
    exists|i: int| 0 <= i < entries.len() && (#[trigger] entries[i]).0 == key
}

proof fn lemma_front(s: Seq<EntryView>, e: EntryView)
    requires
        s.len() > 0,
        is_sorted(s),
    ensures
        is_sorted(s.drop_first()),
        s.contains(e) == (e == s[0] || s.drop_first().contains(e)),
        has_key(s, e.0) == (e.0 == s[0].0 || has_key(s.drop_first(), e.0)),
        s.drop_first().contains(e) ==> key_lt(s[0].0, e.0),
        has_key(s.drop_first(), e.0) ==> key_lt(s[0].0, e.0),
{
    let rest = s.drop_first();
    if s.contains(e) && e != s[0] {
        let i = choose|i: int| 0 <= i < s.len() && s[i] == e;
        assert(rest[i - 1] == e);
    }
    if rest.contains(e) {
        let i = choose|i: int| 0 <= i < rest.len() && rest[i] == e;
        assert(s[i + 1] == e);
    }
    if has_key(s, e.0) && e.0 != s[0].0 {
        let i = choose|i: int| 0 <= i < s.len() && (#[trigger] s[i]).0 == e.0;
        assert(rest[i - 1].0 == e.0);
    }
    if has_key(rest, e.0) {
        let i = choose|i: int| 0 <= i < rest.len() && (#[trigger] rest[i]).0 == e.0;
        assert(s[i + 1].0 == e.0);
    }
}

proof fn lemma_contains_prepended(first: EntryView, rest: Seq<EntryView>, e: EntryView)
    ensures
        (seq![first] + rest).contains(e) == (e == first || rest.contains(e)),
{
    let all = seq![first] + rest;
    if all.contains(e) && e != first {
        let i = choose|i: int| 0 <= i < all.len() && all[i] == e;
        assert(rest[i - 1] == e);
    }
    if rest.contains(e) {
        let i = choose|i: int| 0 <= i < rest.len() && rest[i] == e;
        assert(all[i + 1] == e);
    }
    assert(all[0] == first);
}

/// The merge of two sorted runs holds the entries of the first, and those of the second whose
/// keys the first does not have.
pub proof fn lemma_merge_prefers_first(a: Seq<EntryView>, b: Seq<EntryView>, e: EntryView)
    requires
        is_sorted(a),
        is_sorted(b),
    ensures
        merge(a, b).contains(e) == (a.contains(e) || (b.contains(e) && !has_key(a, e.0))),
    decreases a.len() + b.len(),
{
    if a.len() > 0 && b.len() > 0 {
        lemma_front(a, e);
        lemma_front(b, e);
        lemma_key_lt_total(a[0].0, b[0].0);
        lemma_key_lt_irreflexive(a[0].0);
        lemma_key_lt_irreflexive(b[0].0);
        if key_le(a[0].0, b[0].0) {
            let rest = if a[0].0 == b[0].0 {
                b.drop_first()
            } else {
                b
            };
            lemma_merge_prefers_first(a.drop_first(), rest, e);
            lemma_contains_prepended(a[0], merge(a.drop_first(), rest), e);
            if b.contains(e) && key_lt(a[0].0, b[0].0) && e != b[0] {
                lemma_key_lt_transitive(a[0].0, b[0].0, e.0);
            }
        } else {
            lemma_merge_prefers_first(a, b.drop_first(), e);
            lemma_contains_prepended(b[0], merge(a, b.drop_first()), e);
            if has_key(a, b[0].0) {
                lemma_front(a, b[0]);
                if key_lt(a[0].0, b[0].0) {
                    lemma_key_lt_transitive(a[0].0, b[0].0, a[0].0);
                }
            }
        }
    } else if b.len() > 0 {
        assert(!has_key(a, e.0));
    }
}

/// The merge of two sorted runs is sorted, so that no key comes twice.
pub proof fn lemma_merge_is_sorted(a: Seq<EntryView>, b: Seq<EntryView>)
    requires
        is_sorted(a),
        is_sorted(b),
    ensures
        is_sorted(merge(a, b)),
    decreases a.len() + b.len(),
{
    if a.len() > 0 && b.len() > 0 {
        let merged = merge(a, b);
        let first = merged[0];
        lemma_key_lt_total(a[0].0, b[0].0);
        lemma_front(a, a[0]);
        lemma_front(b, b[0]);
        let (rest_a, rest_b) = if key_le(a[0].0, b[0].0) {
            (
                a.drop_first(),
                if a[0].0 == b[0].0 {
                    b.drop_first()
                } else {
                    b
                },
            )
        } else {
            (a, b.drop_first())
        };
        let rest = merge(rest_a, rest_b);
        lemma_merge_is_sorted(rest_a, rest_b);
        assert forall|i: int| 0 <= i < rest.len() implies key_lt(first.0, (#[trigger] rest[i]).0) by {
            let e = rest[i];
            lemma_merge_prefers_first(rest_a, rest_b, e);
            lemma_front(a, e);
            lemma_front(b, e);
            assert(rest.contains(e));
            if key_le(a[0].0, b[0].0) {
                if rest_b.contains(e) && b.contains(e) {
                    lemma_key_le_transitive(a[0].0, b[0].0, e.0);
                }
            } else if rest_a.contains(e) {
                lemma_key_le_transitive(b[0].0, a[0].0, e.0);
            }
        }
        assert forall|i: int, j: int| 0 <= i < j < merged.len() implies key_lt(
            (#[trigger] merged[i]).0,
            (#[trigger] merged[j]).0,
        ) by {
            assert(merged[j] == rest[j - 1]);
            if i > 0 {
                assert(merged[i] == rest[i - 1]);
            }
        }
    }
}

/// The merge begins with the front of the first run, unless the second one has a lesser key at its
/// front.
pub proof fn lemma_merge_begins_with_lesser(a: Seq<EntryView>, b: Seq<EntryView>)
    requires
        a.len() > 0 || b.len() > 0,
    ensures
        merge(a, b).len() > 0,
        takes_first(a, b) == (b.len() == 0 || a.len() > 0 && !key_lt(b[0].0, a[0].0)),
        merge(a, b)[0] == (if b.len() == 0 || a.len() > 0 && !key_lt(b[0].0, a[0].0) {
            a[0]
        } else {
            b[0]
        }),
{
    if a.len() > 0 && b.len() > 0 {
        lemma_key_lt_total(a[0].0, b[0].0);
        lemma_key_lt_irreflexive(a[0].0);
    }
}


/// What follows the first entry of a merge: that entry has left the run that it came from and,
/// where it came from the first run, so has an entry with the same key that the second run begins
/// with.
pub proof fn lemma_merge_goes_on(a: Seq<EntryView>, b: Seq<EntryView>)
    requires
        a.len() > 0 || b.len() > 0,
    ensures
        merge(a, b).skip(1) == (if b.len() == 0 || a.len() > 0 && !key_lt(b[0].0, a[0].0) {
            merge(
                a.skip(1),
                if b.len() > 0 && a[0].0 == b[0].0 {
                    b.skip(1)
                } else {
                    b
                },
            )
        } else {
            merge(a, b.skip(1))
        }),
{
    lemma_merge_begins_with_lesser(a, b);
    assert(a.len() > 0 ==> a.skip(1) =~= a.drop_first());
    assert(b.len() > 0 ==> b.skip(1) =~= b.drop_first());
    if a.len() > 0 && b.len() > 0 {
        lemma_key_lt_total(a[0].0, b[0].0);
        lemma_key_lt_irreflexive(a[0].0);
    }
}

/// How moving a merge on can end. Where one run alone has the next entry, as moving that run on
/// does. Where both begin with the same key, it succeeds if both can, and it fails as the second
/// run does, or as the first one does once the second has been moved.
pub proof fn lemma_merge_ends_like_its_runs<A: StorageIterator, B: StorageIterator>(
    iter: TwoMergeIterator<A, B>,
    message: Seq<char>,
)
    ensures
        ({
            let (a, b) = (iter.first(), iter.second());
            let (x, y) = (a.remaining(), b.remaining());
            &&& y.len() == 0 || x.len() > 0 && key_lt(x[0].0, y[0].0) ==> {
                &&& iter.can_end_in(None) == a.can_end_in(None)
                &&& iter.can_end_in(Some(message)) == a.can_end_in(Some(message))
            }
            &&& y.len() > 0 && (x.len() == 0 || key_lt(y[0].0, x[0].0)) ==> {
                &&& iter.can_end_in(None) == b.can_end_in(None)
                &&& iter.can_end_in(Some(message)) == b.can_end_in(Some(message))
            }
            &&& x.len() > 0 && y.len() > 0 && x[0].0 == y[0].0 ==> {
                &&& iter.can_end_in(None) == (a.can_end_in(None) && b.can_end_in(None))
                &&& iter.can_end_in(Some(message)) == (b.can_end_in(Some(message))
                    || b.can_end_in(None) && a.can_end_in(Some(message)))
            }
            &&& a.is_infallible() && b.is_infallible() ==> iter.is_infallible()
        }),
{
    let (x, y) = (iter.first().remaining(), iter.second().remaining());
    if x.len() > 0 && y.len() > 0 {
        lemma_key_lt_total(x[0].0, y[0].0);
        lemma_key_lt_irreflexive(x[0].0);
        if key_lt(x[0].0, y[0].0) && key_lt(y[0].0, x[0].0) {
            lemma_key_lt_transitive(x[0].0, y[0].0, x[0].0);
        }
    }
}

} // verus!
