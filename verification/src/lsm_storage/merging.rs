//! What comes of merging the entries of memtables and tables, the latest first: under each key what
//! the latest of them holds. A compaction writes this to new tables, and a scan returns it.

use vstd::prelude::*;

use super::contents::{lemma_newest_of_concatenation, newest, Contents};
use crate::compact::output::{joined, kept};
use crate::iterators::two_merge_iterator::{
    has_key, lemma_merge_is_sorted, lemma_merge_prefers_first, merge,
};
use crate::iterators::{is_sorted, EntryView};
use crate::key::{key_lt, lemma_key_lt_irreflexive, KeyView};
use crate::table::{above_lower, below_upper, BoundView};

verus! {

/// The entry of a key at a timestamp.
pub open spec fn entry_at(key: Seq<u8>, ts: u64, value: Seq<u8>) -> EntryView {
    (KeyView { key, ts }, value)
}

/// The entries are sorted, of one timestamp and not below the lower bound, and within the bounds
/// they are what the latest of the memtables and tables hold. Above the upper bound they may be
/// any.
pub open spec fn represents(
    contents: Contents,
    ids: Seq<usize>,
    ts: u64,
    bounds: (BoundView, BoundView),
    entries: Seq<EntryView>,
) -> bool {
    &&& is_sorted(entries)
    &&& forall|e: EntryView| #[trigger]
        entries.contains(e) ==> e.0.ts == ts && above_lower(e.0.key, bounds.0)
    &&& forall|key: Seq<u8>, value: Seq<u8>|
        above_lower(key, bounds.0) && below_upper(key, bounds.1) ==> #[trigger] entries.contains(
            entry_at(key, ts, value),
        ) == (newest(contents, ids, key) == Some(value))
}

/// A key is among the entries if and only if it is found.
proof fn lemma_has_key(
    contents: Contents,
    ids: Seq<usize>,
    ts: u64,
    bounds: (BoundView, BoundView),
    entries: Seq<EntryView>,
    key: Seq<u8>,
)
    requires
        represents(contents, ids, ts, bounds, entries),
        above_lower(key, bounds.0),
        below_upper(key, bounds.1),
    ensures
        has_key(entries, KeyView { key, ts }) == (newest(contents, ids, key) is Some),
{
    if has_key(entries, KeyView { key, ts }) {
        let i = choose|i: int|
            0 <= i < entries.len() && (#[trigger] entries[i]).0 == (KeyView { key, ts });
        assert(entries.contains(entry_at(key, ts, entries[i].1)));
    }
    if newest(contents, ids, key) is Some {
        let e = entry_at(key, ts, newest(contents, ids, key)->Some_0);
        assert(entries.contains(e));
        let i = choose|i: int| 0 <= i < entries.len() && entries[i] == e;
        assert(entries[i].0 == (KeyView { key, ts }));
    }
}

/// Merging what stands for some memtables and tables with what stands for earlier ones gives what
/// stands for all of them.
pub proof fn lemma_merge_represents(
    contents: Contents,
    a: Seq<usize>,
    b: Seq<usize>,
    ts: u64,
    bounds: (BoundView, BoundView),
    first: Seq<EntryView>,
    second: Seq<EntryView>,
)
    requires
        represents(contents, a, ts, bounds, first),
        represents(contents, b, ts, bounds, second),
    ensures
        represents(contents, a + b, ts, bounds, merge(first, second)),
{
    let merged = merge(first, second);
    lemma_merge_is_sorted(first, second);
    assert forall|e: EntryView| #[trigger] merged.contains(e) implies e.0.ts == ts && above_lower(
        e.0.key,
        bounds.0,
    ) by {
        lemma_merge_prefers_first(first, second, e);
        assert(first.contains(e) || second.contains(e));
    }
    assert forall|key: Seq<u8>, value: Seq<u8>|
        above_lower(key, bounds.0) && below_upper(key, bounds.1) implies #[trigger] merged.contains(
        entry_at(key, ts, value),
    ) == (newest(contents, a + b, key) == Some(value)) by {
        let e = entry_at(key, ts, value);
        lemma_merge_prefers_first(first, second, e);
        lemma_has_key(contents, a, ts, bounds, first, key);
        lemma_newest_of_concatenation(contents, a, b, key);
        assert(first.contains(e) == (newest(contents, a, key) == Some(value)));
        assert(second.contains(e) == (newest(contents, b, key) == Some(value)));
    }
}

/// The entries of all the runs, where of those with one key the one of the earliest run counts.
pub open spec fn merge_all(runs: Seq<Seq<EntryView>>) -> Seq<EntryView>
    decreases runs.len(),
{
    if runs.len() == 0 {
        Seq::empty()
    } else {
        merge(merge_all(runs.drop_last()), runs.last())
    }
}

/// Merging what stands for each of some lists of memtables and tables, the latest first, gives what
/// stands for all of them.
pub proof fn lemma_merge_all_represents(
    contents: Contents,
    lists: Seq<Seq<usize>>,
    ts: u64,
    bounds: (BoundView, BoundView),
    runs: Seq<Seq<EntryView>>,
)
    requires
        runs.len() == lists.len(),
        forall|i: int|
            0 <= i < runs.len() ==> represents(
                contents,
                lists[i],
                ts,
                bounds,
                #[trigger] runs[i],
            ),
    ensures
        represents(contents, joined(lists), ts, bounds, merge_all(runs)),
    decreases runs.len(),
{
    if runs.len() > 0 {
        let (front, front_lists) = (runs.drop_last(), lists.drop_last());
        assert forall|i: int| 0 <= i < front.len() implies represents(
            contents,
            front_lists[i],
            ts,
            bounds,
            #[trigger] front[i],
        ) by {
            assert(front[i] == runs[i]);
        }
        lemma_merge_all_represents(contents, front_lists, ts, bounds, front);
        assert(represents(contents, lists[runs.len() - 1], ts, bounds, runs[runs.len() - 1]));
        lemma_merge_represents(
            contents,
            joined(front_lists),
            lists.last(),
            ts,
            bounds,
            merge_all(front),
            runs.last(),
        );
    }
}

/// Entries that go on where others end are merged with them by putting them behind.
proof fn lemma_merge_of_neighbours(a: Seq<EntryView>, b: Seq<EntryView>)
    requires
        is_sorted(a + b),
    ensures
        merge(a, b) == a + b,
    decreases a.len(),
{
    if b.len() == 0 {
        assert(a + b =~= a);
    } else if a.len() == 0 {
        assert(a + b =~= b);
    } else {
        let all = a + b;
        let rest = a.drop_first() + b;
        assert(rest =~= all.drop_first());
        assert forall|i: int, j: int| 0 <= i < j < rest.len() implies key_lt(
            (#[trigger] rest[i]).0,
            (#[trigger] rest[j]).0,
        ) by {
            assert(rest[i] == all[i + 1] && rest[j] == all[j + 1]);
        }
        assert(all[0] == a[0] && all[a.len() as int] == b[0]);
        lemma_key_lt_irreflexive(a[0].0);
        lemma_merge_of_neighbours(a.drop_first(), b);
        assert(merge(a, b) =~= seq![a[0]] + rest);
        assert(seq![a[0]] + rest =~= all);
    }
}

/// A part of sorted entries is sorted.
proof fn lemma_front_is_sorted(a: Seq<EntryView>, b: Seq<EntryView>)
    requires
        is_sorted(a + b),
    ensures
        is_sorted(a),
{
    assert forall|i: int, j: int| 0 <= i < j < a.len() implies key_lt(
        (#[trigger] a[i]).0,
        (#[trigger] a[j]).0,
    ) by {
        assert(a[i] == (a + b)[i] && a[j] == (a + b)[j]);
    }
}

/// The entries of some tables, one table after the other, stand for these tables if they are
/// sorted.
pub proof fn lemma_joined_represents(
    contents: Contents,
    ids: Seq<usize>,
    ts: u64,
    bounds: (BoundView, BoundView),
    parts: Seq<Seq<EntryView>>,
)
    requires
        parts.len() == ids.len(),
        forall|i: int|
            0 <= i < parts.len() ==> represents(
                contents,
                seq![ids[i]],
                ts,
                bounds,
                #[trigger] parts[i],
            ),
        is_sorted(joined(parts)),
    ensures
        represents(contents, ids, ts, bounds, joined(parts)),
    decreases parts.len(),
{
    if parts.len() == 0 {
        assert(ids =~= Seq::empty());
    } else {
        let (front, front_ids) = (parts.drop_last(), ids.drop_last());
        assert forall|i: int| 0 <= i < front.len() implies represents(
            contents,
            seq![front_ids[i]],
            ts,
            bounds,
            #[trigger] front[i],
        ) by {
            assert(front[i] == parts[i]);
            assert(front_ids[i] == ids[i]);
        }
        lemma_front_is_sorted(joined(front), parts.last());
        lemma_joined_represents(contents, front_ids, ts, bounds, front);
        lemma_merge_of_neighbours(joined(front), parts.last());
        assert(represents(contents, seq![ids[parts.len() - 1]], ts, bounds, parts[parts.len() - 1]));
        lemma_merge_represents(
            contents,
            front_ids,
            seq![ids.last()],
            ts,
            bounds,
            joined(front),
            parts.last(),
        );
        assert(ids =~= front_ids + seq![ids.last()]);
    }
}

/// What a compaction keeps of sorted entries is sorted, and are all of them but the deletions at
/// the bottom level.
pub proof fn lemma_kept_entries(is_bottom_level: bool, entries: Seq<EntryView>)
    requires
        is_sorted(entries),
    ensures
        is_sorted(kept(is_bottom_level, entries)),
        forall|e: EntryView| #[trigger]
            kept(is_bottom_level, entries).contains(e) == (entries.contains(e) && !(is_bottom_level
                && e.1.len() == 0)),
    decreases entries.len(),
{
    if entries.len() > 0 {
        let front = entries.drop_last();
        let last = entries.last();
        assert(entries =~= front + seq![last]);
        lemma_front_is_sorted(front, seq![last]);
        lemma_kept_entries(is_bottom_level, front);
        let (before, after) = (kept(is_bottom_level, front), kept(is_bottom_level, entries));
        assert forall|e: EntryView| #[trigger] entries.contains(e) == (front.contains(e) || e
            == last) by {
            if entries.contains(e) && e != last {
                let i = choose|i: int| 0 <= i < entries.len() && entries[i] == e;
                assert(front[i] == e);
            }
            if front.contains(e) {
                let i = choose|i: int| 0 <= i < front.len() && front[i] == e;
                assert(entries[i] == e);
            }
            assert(entries[entries.len() - 1] == last);
        }
        if !(is_bottom_level && last.1.len() == 0) {
            assert(after == before.push(last));
            assert forall|e: EntryView| #[trigger] after.contains(e) == (before.contains(e) || e
                == last) by {
                if after.contains(e) && e != last {
                    let i = choose|i: int| 0 <= i < after.len() && after[i] == e;
                    assert(before[i] == e);
                }
                if before.contains(e) {
                    let i = choose|i: int| 0 <= i < before.len() && before[i] == e;
                    assert(after[i] == e);
                }
                assert(after[after.len() - 1] == last);
            }
            assert forall|i: int, j: int| 0 <= i < j < after.len() implies key_lt(
                (#[trigger] after[i]).0,
                (#[trigger] after[j]).0,
            ) by {
                if j < before.len() {
                    assert(after[i] == before[i] && after[j] == before[j]);
                } else {
                    assert(after[i] == before[i]);
                    assert(before.contains(before[i]));
                    assert(front.contains(before[i]));
                    let k = choose|k: int| 0 <= k < front.len() && front[k] == before[i];
                    assert(entries[k] == before[i] && entries[entries.len() - 1] == last);
                }
            }
        }
    }
}

} // verus!
