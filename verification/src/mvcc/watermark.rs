//! The readers that are active at each timestamp, and the lowest timestamp that is still read.

use std::collections::VecDeque;

use vstd::prelude::*;

verus! {

/// The active readers: timestamps, oldest first, each with the number of its readers. A timestamp
/// without readers stays in its place until it comes to the front.
#[derive(Debug)]
pub struct Watermark {
    readers: VecDeque<(u64, usize)>,
    active_ts: usize,
}

impl View for Watermark {
    type V = Seq<(u64, usize)>;

    closed spec fn view(&self) -> Seq<(u64, usize)> {
        self.readers@
    }
}

/// How many of the timestamps have readers.
pub open spec fn active_count(readers: Seq<(u64, usize)>) -> nat
    decreases readers.len(),
{
    if readers.len() == 0 {
        0
    } else {
        active_count(readers.drop_last()) + if readers.last().1 > 0 {
            1nat
        } else {
            0nat
        }
    }
}

/// How many readers a timestamp has.
pub open spec fn reader_count(readers: Seq<(u64, usize)>, ts: u64) -> nat
    decreases readers.len(),
{
    if readers.len() == 0 {
        0
    } else {
        reader_count(readers.drop_last(), ts) + if readers.last().0 == ts {
            readers.last().1 as nat
        } else {
            0nat
        }
    }
}

/// The timestamps follow one another without a gap.
pub open spec fn is_contiguous(readers: Seq<(u64, usize)>) -> bool {
    forall|i: int| 0 <= i < readers.len() ==> (#[trigger] readers[i]).0 == readers[0].0 + i
}

/// The first timestamp has readers, if there is one.
pub open spec fn front_is_active(readers: Seq<(u64, usize)>) -> bool {
    readers.len() > 0 ==> readers[0].1 > 0
}

/// The timestamp is the last one or the one after it, so that a reader can join without a gap.
pub open spec fn extends(readers: Seq<(u64, usize)>, ts: u64) -> bool {
    readers.len() > 0 ==> ts == readers.last().0 || ts == readers.last().0 + 1
}

/// One more reader at a timestamp: at the last one if it is that, at a new one behind it if not.
pub open spec fn with_reader(readers: Seq<(u64, usize)>, ts: u64) -> Seq<(u64, usize)> {
    if readers.len() > 0 && readers.last().0 == ts {
        readers.update(readers.len() - 1, (ts, (readers.last().1 + 1) as usize))
    } else {
        readers.push((ts, 1))
    }
}

/// What is left when the timestamps without readers at the front are dropped.
pub open spec fn without_idle_front(readers: Seq<(u64, usize)>) -> Seq<(u64, usize)>
    decreases readers.len(),
{
    if readers.len() > 0 && readers[0].1 == 0 {
        without_idle_front(readers.skip(1))
    } else {
        readers
    }
}

/// A reader can leave: its timestamp is not before the first one, there is an entry at its distance
/// from the first one, and that entry has a reader.
pub open spec fn can_leave(readers: Seq<(u64, usize)>, ts: u64) -> bool {
    &&& readers.len() > 0
    &&& readers[0].0 <= ts
    &&& ts - readers[0].0 < readers.len()
    &&& readers[ts - readers[0].0].1 > 0
}

/// One reader less at a timestamp, which is looked up by its distance from the first one.
pub open spec fn without_reader(readers: Seq<(u64, usize)>, ts: u64) -> Seq<(u64, usize)> {
    let i = ts - readers[0].0;
    without_idle_front(readers.update(i, (readers[i].0, (readers[i].1 - 1) as usize)))
}

proof fn lemma_active_count_bound(readers: Seq<(u64, usize)>)
    ensures
        active_count(readers) <= readers.len(),
    decreases readers.len(),
{
    if readers.len() > 0 {
        lemma_active_count_bound(readers.drop_last());
    }
}

proof fn lemma_active_count_update(readers: Seq<(u64, usize)>, i: int, entry: (u64, usize))
    requires
        0 <= i < readers.len(),
    ensures
        active_count(readers.update(i, entry)) + (if readers[i].1 > 0 {
            1nat
        } else {
            0nat
        }) == active_count(readers) + (if entry.1 > 0 {
            1nat
        } else {
            0nat
        }),
    decreases readers.len(),
{
    let updated = readers.update(i, entry);
    if i == readers.len() - 1 {
        assert(updated.drop_last() =~= readers.drop_last());
    } else {
        assert(updated.drop_last() =~= readers.drop_last().update(i, entry));
        lemma_active_count_update(readers.drop_last(), i, entry);
    }
}

proof fn lemma_active_count_front(readers: Seq<(u64, usize)>)
    requires
        readers.len() > 0,
    ensures
        active_count(readers) == active_count(readers.skip(1)) + (if readers[0].1 > 0 {
            1nat
        } else {
            0nat
        }),
    decreases readers.len(),
{
    if readers.len() == 1 {
        assert(readers.drop_last() =~= readers.skip(1));
        assert(readers.skip(1) =~= Seq::empty());
    } else {
        lemma_active_count_front(readers.drop_last());
        assert(readers.drop_last().skip(1) =~= readers.skip(1).drop_last());
    }
}

proof fn lemma_active_count_idle_front(readers: Seq<(u64, usize)>)
    ensures
        active_count(without_idle_front(readers)) == active_count(readers),
        front_is_active(without_idle_front(readers)),
    decreases readers.len(),
{
    if readers.len() > 0 && readers[0].1 == 0 {
        lemma_active_count_front(readers);
        lemma_active_count_idle_front(readers.skip(1));
    }
}

proof fn lemma_count_of_contiguous(readers: Seq<(u64, usize)>, ts: u64)
    requires
        is_contiguous(readers),
    ensures
        reader_count(readers, ts) == (if readers.len() > 0 && 0 <= ts - readers[0].0
            < readers.len() {
            readers[ts - readers[0].0].1 as nat
        } else {
            0nat
        }),
    decreases readers.len(),
{
    if readers.len() > 0 {
        let front = readers.drop_last();
        assert forall|i: int| 0 <= i < front.len() implies (#[trigger] front[i]).0 == front[0].0
            + i by {
            assert(front[i] == readers[i]);
        }
        lemma_count_of_contiguous(front, ts);
        assert(readers[readers.len() - 1].0 == readers[0].0 + (readers.len() - 1));
    }
}

proof fn lemma_contiguous_idle_front(readers: Seq<(u64, usize)>, ts: u64)
    requires
        is_contiguous(readers),
    ensures
        is_contiguous(without_idle_front(readers)),
        reader_count(without_idle_front(readers), ts) == reader_count(readers, ts),
    decreases readers.len(),
{
    if readers.len() > 0 && readers[0].1 == 0 {
        let rest = readers.skip(1);
        assert forall|i: int| 0 <= i < rest.len() implies (#[trigger] rest[i]).0 == rest[0].0
            + i by {
            assert(rest[i] == readers[i + 1]);
            assert(rest[0] == readers[1]);
        }
        lemma_contiguous_idle_front(rest, ts);
        lemma_count_of_contiguous(rest, ts);
        lemma_count_of_contiguous(readers, ts);
        if rest.len() > 0 {
            assert(rest[0] == readers[1]);
            assert(readers[1].0 == readers[0].0 + 1);
        }
    }
}

/// A reader that joins is counted at its timestamp and nowhere else, as long as its count fits.
pub proof fn lemma_join_counts(readers: Seq<(u64, usize)>, ts: u64, other: u64)
    requires
        readers.len() > 0 && readers.last().0 == ts ==> readers.last().1 < usize::MAX,
    ensures
        reader_count(with_reader(readers, ts), other) == reader_count(readers, other) + (if other
            == ts {
            1nat
        } else {
            0nat
        }),
{
    let joined = with_reader(readers, ts);
    if readers.len() > 0 && readers.last().0 == ts {
        assert(joined.drop_last() =~= readers.drop_last());
    } else {
        assert(joined.drop_last() =~= readers);
    }
}

/// Joining without a gap keeps the timestamps without a gap.
pub proof fn lemma_join_keeps_contiguous(readers: Seq<(u64, usize)>, ts: u64)
    requires
        is_contiguous(readers),
        front_is_active(readers),
        extends(readers, ts),
        readers.len() > 0 && readers.last().0 == ts ==> readers.last().1 < usize::MAX,
    ensures
        is_contiguous(with_reader(readers, ts)),
        front_is_active(with_reader(readers, ts)),
{
    let joined = with_reader(readers, ts);
    if readers.len() > 0 {
        assert(readers[readers.len() - 1].0 == readers[0].0 + (readers.len() - 1));
    }
    assert forall|i: int| 0 <= i < joined.len() implies (#[trigger] joined[i]).0 == joined[0].0
        + i by {
        if i < readers.len() {
            assert(readers[i].0 == readers[0].0 + i);
        }
    }
}

/// Where the timestamps follow one another without a gap, a reader that leaves is no longer counted
/// at its timestamp, the other counts stay, and there is still no gap.
pub proof fn lemma_leave_counts(readers: Seq<(u64, usize)>, ts: u64, other: u64)
    requires
        is_contiguous(readers),
        can_leave(readers, ts),
    ensures
        reader_count(without_reader(readers, ts), other) == reader_count(readers, other) - (
        if other == ts {
            1nat
        } else {
            0nat
        }),
        is_contiguous(without_reader(readers, ts)),
        front_is_active(without_reader(readers, ts)),
{
    let i = ts - readers[0].0;
    let left = readers.update(i, (readers[i].0, (readers[i].1 - 1) as usize));
    assert forall|j: int| 0 <= j < left.len() implies (#[trigger] left[j]).0 == left[0].0 + j by {
        assert(readers[j].0 == readers[0].0 + j);
    }
    lemma_contiguous_idle_front(left, other);
    lemma_active_count_idle_front(left);
    lemma_count_of_contiguous(left, other);
    lemma_count_of_contiguous(readers, other);
}

/// A timestamp has readers exactly if a reader can leave there, where there is no gap.
pub proof fn lemma_can_leave(readers: Seq<(u64, usize)>, ts: u64)
    requires
        is_contiguous(readers),
    ensures
        can_leave(readers, ts) == (reader_count(readers, ts) > 0),
{
    lemma_count_of_contiguous(readers, ts);
}

/// A reader that joins without a gap and leaves again leaves every count as it was.
pub proof fn lemma_leave_undoes_join(readers: Seq<(u64, usize)>, ts: u64, other: u64)
    requires
        is_contiguous(readers),
        front_is_active(readers),
        extends(readers, ts),
        readers.len() > 0 && readers.last().0 == ts ==> readers.last().1 < usize::MAX,
    ensures
        can_leave(with_reader(readers, ts), ts),
        reader_count(without_reader(with_reader(readers, ts), ts), other) == reader_count(
            readers,
            other,
        ),
{
    lemma_join_keeps_contiguous(readers, ts);
    lemma_join_counts(readers, ts, ts);
    lemma_join_counts(readers, ts, other);
    lemma_can_leave(with_reader(readers, ts), ts);
    lemma_leave_counts(with_reader(readers, ts), ts, other);
}

/// The first timestamp is the lowest one with readers, where there is no gap.
pub proof fn lemma_front_is_lowest(readers: Seq<(u64, usize)>, ts: u64)
    requires
        is_contiguous(readers),
        front_is_active(readers),
    ensures
        reader_count(readers, ts) > 0 ==> readers.len() > 0 && readers[0].0 <= ts,
        readers.len() > 0 ==> reader_count(readers, readers[0].0) > 0,
{
    lemma_count_of_contiguous(readers, ts);
    if readers.len() > 0 {
        lemma_count_of_contiguous(readers, readers[0].0);
    }
}

/// The number of timestamps with readers is the size of the set of these timestamps, where there is
/// no gap.
pub proof fn lemma_active_count_is_distinct(readers: Seq<(u64, usize)>)
    requires
        is_contiguous(readers),
    ensures
        Set::new(|ts: u64| reader_count(readers, ts) > 0).finite(),
        Set::new(|ts: u64| reader_count(readers, ts) > 0).len() == active_count(readers),
    decreases readers.len(),
{
    let all = Set::new(|ts: u64| reader_count(readers, ts) > 0);
    if readers.len() == 0 {
        assert(all =~= Set::empty());
    } else {
        let front = readers.drop_last();
        let last = readers.last();
        assert forall|i: int| 0 <= i < front.len() implies (#[trigger] front[i]).0 == front[0].0
            + i by {
            assert(front[i] == readers[i]);
        }
        lemma_active_count_is_distinct(front);
        let before = Set::new(|ts: u64| reader_count(front, ts) > 0);
        lemma_count_of_contiguous(front, last.0);
        assert(readers[readers.len() - 1].0 == readers[0].0 + (readers.len() - 1));
        assert(!before.contains(last.0));
        if last.1 > 0 {
            assert(all =~= before.insert(last.0));
        } else {
            assert(all =~= before);
        }
    }
}

impl Watermark {
    /// The number of active timestamps is kept up to date, and the first one has readers.
    pub closed spec fn wf(&self) -> bool {
        &&& self.active_ts == active_count(self.readers@)
        &&& front_is_active(self.readers@)
    }

    /// No readers.
    pub fn new() -> (w: Self)
        ensures
            w.wf(),
            w@ == Seq::<(u64, usize)>::empty(),
    {
        Watermark { readers: VecDeque::new(), active_ts: 0 }
    }

    /// A reader joins at a timestamp.
    pub fn add_reader(&mut self, ts: u64)
        requires
            old(self).wf(),
            old(self)@.len() > 0 && old(self)@.last().0 == ts ==> old(self)@.last().1 < usize::MAX,
        ensures
            final(self).wf(),
            final(self)@ == with_reader(old(self)@, ts),
    {
        let ghost before = self.readers@;
        let len: usize = self.readers.len();
        let mut count: usize = 1;
        if len > 0 && self.readers[len - 1].0 == ts {
            count = self.readers[len - 1].1 + 1;
            self.readers.pop_back();
        }
        self.readers.push_back((ts, count));
        proof {
            assert(self.readers.len() == self.readers@.len());
            lemma_active_count_bound(self.readers@);
            assert(self.readers@.drop_last() =~= if count == 1 && !(before.len() > 0
                && before.last().0 == ts) {
                before
            } else {
                before.drop_last()
            });
            assert(self.readers@ =~= with_reader(before, ts));
        }
        if count == 1 {
            self.active_ts = self.active_ts + 1;
        }
    }

    /// A reader leaves a timestamp.
    pub fn remove_reader(&mut self, ts: u64)
        requires
            old(self).wf(),
            can_leave(old(self)@, ts),
        ensures
            final(self).wf(),
            final(self)@ == without_reader(old(self)@, ts),
    {
        let ghost before = self.readers@;
        let index: usize = (ts - self.readers[0].0) as usize;
        assert(self.readers.len() == before.len());
        let (entry_ts, entry_count) = self.readers[index];
        let count: usize = entry_count - 1;
        self.readers.remove(index);
        self.readers.insert(index, (entry_ts, count));
        let ghost left = before.update(index as int, (entry_ts, count));
        proof {
            assert(self.readers@ =~= left);
            lemma_active_count_update(before, index as int, (entry_ts, count));
        }
        if count == 0 {
            self.active_ts = self.active_ts - 1;
        }
        while self.readers.len() > 0 && self.readers[0].1 == 0
            invariant
                without_idle_front(self.readers@) == without_idle_front(left),
                self.active_ts == active_count(self.readers@),
            decreases self.readers@.len(),
        {
            proof {
                lemma_active_count_front(self.readers@);
                assert(self.readers@.skip(1) =~= self.readers@.subrange(
                    1,
                    self.readers@.len() as int,
                ));
            }
            self.readers.pop_front();
        }
    }

    /// How many timestamps have readers.
    pub fn num_retained_snapshots(&self) -> (n: usize)
        requires
            self.wf(),
        ensures
            n == active_count(self@),
    {
        self.active_ts
    }

    /// The first timestamp, which has readers; nothing if there are none.
    pub fn watermark(&self) -> (ts: Option<u64>)
        requires
            self.wf(),
        ensures
            ts == (if self@.len() > 0 {
                Some(self@[0].0)
            } else {
                None
            }),
            front_is_active(self@),
    {
        if self.readers.len() > 0 {
            Some(self.readers[0].0)
        } else {
            None
        }
    }
}

/// The number of timestamps with readers is how many entries have a count above zero.
pub proof fn lemma_active_count_counts(readers: Seq<(u64, usize)>)
    ensures
        active_count(readers) == readers.filter(|entry: (u64, usize)| entry.1 > 0).len(),
    decreases readers.len(),
{
    reveal(Seq::filter);
    if readers.len() > 0 {
        lemma_active_count_counts(readers.drop_last());
    }
}

/// The number of readers of a timestamp is the sum of the counts of its entries.
pub proof fn lemma_reader_count_adds_up(readers: Seq<(u64, usize)>, ts: u64)
    ensures
        reader_count(readers, ts) == readers.fold_left(
            0int,
            |sum: int, entry: (u64, usize)|
                sum + if entry.0 == ts {
                    entry.1 as int
                } else {
                    0
                },
        ),
    decreases readers.len(),
{
    if readers.len() > 0 {
        lemma_reader_count_adds_up(readers.drop_last(), ts);
    }
}

/// A reader that leaves is taken off the entry at the distance of its timestamp from the first
/// one, and of the entries at the front those without readers are dropped, and no others.
pub proof fn lemma_leave_drops_idle_front(readers: Seq<(u64, usize)>, ts: u64)
    requires
        can_leave(readers, ts),
    ensures
        ({
            let at = ts - readers[0].0;
            let left = readers.update(at, (readers[at].0, (readers[at].1 - 1) as usize));
            let after = without_reader(readers, ts);
            exists|k: int|
                0 <= k <= left.len() && after == #[trigger] left.skip(k) && (forall|i: int|
                    0 <= i < k ==> (#[trigger] left[i]).1 == 0) && (k < left.len() ==> left[k].1
                    > 0)
        }),
{
    let at = ts - readers[0].0;
    let left = readers.update(at, (readers[at].0, (readers[at].1 - 1) as usize));
    lemma_idle_front(left);
}

proof fn lemma_idle_front(readers: Seq<(u64, usize)>)
    ensures
        exists|k: int|
            0 <= k <= readers.len() && without_idle_front(readers) == #[trigger] readers.skip(k) && (
            forall|i: int| 0 <= i < k ==> (#[trigger] readers[i]).1 == 0) && (k < readers.len()
                ==> readers[k].1 > 0),
    decreases readers.len(),
{
    if readers.len() > 0 && readers[0].1 == 0 {
        let rest = readers.skip(1);
        lemma_idle_front(rest);
        let k = choose|k: int|
            0 <= k <= rest.len() && without_idle_front(rest) == #[trigger] rest.skip(k) && (forall|
                i: int,
            |
                0 <= i < k ==> (#[trigger] rest[i]).1 == 0) && (k < rest.len() ==> rest[k].1 > 0);
        assert(rest.skip(k) =~= readers.skip(k + 1));
        assert forall|i: int| 0 <= i < k + 1 implies (#[trigger] readers[i]).1 == 0 by {
            if i > 0 {
                assert(rest[i - 1] == readers[i]);
            }
        }
        if k < rest.len() {
            assert(rest[k] == readers[k + 1]);
        }
    } else {
        assert(readers.skip(0) =~= readers);
    }
}

/// A reader that joins at the last timestamp is counted there, and one that joins at any other
/// timestamp gets an entry of its own behind the others, which stay as they are.
pub proof fn lemma_join_extends(readers: Seq<(u64, usize)>, ts: u64)
    requires
        readers.len() > 0 && readers.last().0 == ts ==> readers.last().1 < usize::MAX,
    ensures
        ({
            let after = with_reader(readers, ts);
            let n = readers.len() as int;
            if n > 0 && readers[n - 1].0 == ts {
                &&& after.len() == n
                &&& after.take(n - 1) == readers.take(n - 1)
                &&& after[n - 1].0 == ts
                &&& after[n - 1].1 == readers[n - 1].1 + 1
            } else {
                &&& after.len() == n + 1
                &&& after.take(n) == readers
                &&& after[n] == (ts, 1usize)
            }
        }),
{
    let after = with_reader(readers, ts);
    let n = readers.len() as int;
    if n > 0 && readers[n - 1].0 == ts {
        assert(after.take(n - 1) =~= readers.take(n - 1));
    } else {
        assert(after.take(n) =~= readers);
    }
}

} // verus!
