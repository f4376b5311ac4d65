//! What a scan returns: each key of its range that has a value, once and in order, with the value
//! that a read returns.

use vstd::prelude::*;

use super::compacting::{
    is_listed_run, lemma_joined_singletons, lemma_runs_represent, run_entries, Entries,
};
use super::contents::{
    lemma_holder_reaches_into, lemma_newest_of_concatenation, lemma_newest_of_filter,
    lemma_read_returns_newest, lemma_run_finds_newest, newest, Contents,
};
use super::merging::{
    entry_at, lemma_kept_entries, lemma_merge_all_represents, lemma_merge_represents, merge_all,
    represents,
};
use super::read::{
    after_excluded, front_value, lemma_below_is_downward, reaches_into, ScanPlanView,
};
use super::{ids_of, StateView};
use crate::compact::output::{joined, kept};
use crate::compact::singleton_runs;
use crate::compact::tiered::tier_ids;
use crate::iterators::two_merge_iterator::merge;
use crate::iterators::{is_sorted, EntryView};
use crate::key::{
    bytes_le, bytes_lt, key_lt, lemma_bytes_lt_irreflexive, lemma_bytes_lt_transitive,
};
use crate::search::{lemma_prefix_len, prefix_len};
use crate::table::{above_lower, below_upper, BoundView, TableView};

verus! {

/// The ids of the tables of each level.
pub open spec fn level_runs(levels: Seq<Seq<TableView>>) -> Seq<Seq<usize>> {
    levels.map_values(|tables: Seq<TableView>| ids_of(tables))
}

impl ScanPlanView {
    /// The numbers of the memtables and tables, the latest first.
    pub open spec fn ids(self) -> Seq<usize> {
        self.memtables + ids_of(self.l0) + joined(level_runs(self.levels))
    }

    /// The entries of the memtables and L0 tables, each a run of its own, and of the levels, merged
    /// with each other and then in this order.
    pub open spec fn merged(self, entries_of: Entries) -> Seq<EntryView> {
        merge(
            merge(
                merge_all(self.memtables.map_values(entries_of)),
                merge_all(ids_of(self.l0).map_values(entries_of)),
            ),
            merge_all(
                level_runs(self.levels).map_values(|run: Seq<usize>| run_entries(entries_of, run)),
            ),
        )
    }

    /// Each memtable and table lists what it holds within the bounds, and so does each level.
    pub open spec fn is_listed(
        self,
        contents: Contents,
        ts: u64,
        bounds: (BoundView, BoundView),
        entries_of: Entries,
    ) -> bool {
        &&& forall|i: int|
            0 <= i < self.memtables.len() ==> represents(
                contents,
                seq![#[trigger] self.memtables[i]],
                ts,
                bounds,
                entries_of(self.memtables[i]),
            )
        &&& forall|i: int|
            0 <= i < self.l0.len() ==> represents(
                contents,
                seq![(#[trigger] self.l0[i]).id],
                ts,
                bounds,
                entries_of(self.l0[i].id),
            )
        &&& forall|i: int|
            0 <= i < self.levels.len() ==> is_listed_run(
                contents,
                ts,
                bounds,
                entries_of,
                ids_of(#[trigger] self.levels[i]),
            )
    }
}

/// The tables that a scan reads hold of each level what the level holds.
proof fn lemma_levels_find_newest(
    v: StateView,
    contents: Contents,
    lower: BoundView,
    upper: BoundView,
    key: Seq<u8>,
    n: int,
)
    requires
        v.is_readable(contents),
        above_lower(key, lower),
        below_upper(key, upper),
        0 <= n <= v.levels.len(),
    ensures
        newest(contents, joined(level_runs(v.scan_plan(lower, upper).levels).take(n)), key)
            == newest(contents, tier_ids(v.levels.take(n)), key),
    decreases n,
{
    let runs = level_runs(v.scan_plan(lower, upper).levels);
    if n > 0 {
        lemma_levels_find_newest(v, contents, lower, upper, key, n - 1);
        lemma_run_finds_newest(v, contents, lower, upper, key, n);
        assert(runs.take(n).drop_last() =~= runs.take(n - 1));
        assert(v.levels.take(n).drop_last() =~= v.levels.take(n - 1));
        let range = v.range_of(v.level_ids(n), lower, upper);
        assert(runs.take(n).last() == ids_of(v.tables_of(range)));
        lemma_newest_of_concatenation(contents, joined(runs.take(n - 1)), runs[n - 1], key);
        lemma_newest_of_concatenation(
            contents,
            tier_ids(v.levels.take(n - 1)),
            v.level_ids(n),
            key,
        );
    }
}

/// Under a key of its range, what a scan reads holds what all memtables and tables hold, though it
/// reads only those tables that reach into the range.
pub proof fn lemma_scan_plan_finds_newest(
    v: StateView,
    contents: Contents,
    lower: BoundView,
    upper: BoundView,
    key: Seq<u8>,
)
    requires
        v.is_readable(contents),
        above_lower(key, lower),
        below_upper(key, upper),
    ensures
        newest(contents, v.scan_plan(lower, upper).ids(), key) == newest(
            contents,
            v.recency(),
            key,
        ),
{
    let plan = v.scan_plan(lower, upper);
    let runs = level_runs(plan.levels);
    let n = v.levels.len() as int;
    let l0 = v.l0_in_range(lower, upper);
    let p = reaches_into(v.sstables, lower, upper);
    assert forall|i: int|
        0 <= i < v.l0_sstables.len() && contents(#[trigger] v.l0_sstables[i]).contains_key(
            key,
        ) implies p(v.l0_sstables[i]) by {
        assert(v.sstables.contains_key(v.l0_sstables[i]));
        lemma_holder_reaches_into(v, contents, lower, upper, key, v.l0_sstables[i]);
    }
    lemma_newest_of_filter(contents, v.l0_sstables, p, key);
    assert(ids_of(plan.l0) =~= l0) by {
        assert forall|i: int| 0 <= i < l0.len() implies ids_of(plan.l0)[i] == #[trigger] l0[i] by {
            assert(l0.contains(l0[i]));
            v.l0_sstables.lemma_filter_contains_rev(p, l0[i]);
            let k = choose|k: int|
                0 <= k < v.l0_sstables.len() && v.l0_sstables[k] == l0[i];
            assert(v.sstables[v.l0_sstables[k]].id == l0[i]);
        }
    }
    lemma_levels_find_newest(v, contents, lower, upper, key, n);
    assert(runs.take(n) =~= runs);
    assert(v.levels.take(n) =~= v.levels);
    let memtables = plan.memtables;
    lemma_newest_of_concatenation(contents, memtables + l0, joined(runs), key);
    lemma_newest_of_concatenation(contents, memtables, l0, key);
    lemma_newest_of_concatenation(contents, memtables, v.table_ids(), key);
    lemma_newest_of_concatenation(contents, v.l0_sstables, tier_ids(v.levels), key);
}

/// What each of some memtables and tables lists, merged with the earlier ones first.
proof fn lemma_singles_represent(
    contents: Contents,
    ts: u64,
    bounds: (BoundView, BoundView),
    entries_of: Entries,
    ids: Seq<usize>,
)
    requires
        forall|i: int|
            0 <= i < ids.len() ==> represents(
                contents,
                seq![#[trigger] ids[i]],
                ts,
                bounds,
                entries_of(ids[i]),
            ),
    ensures
        represents(contents, ids, ts, bounds, merge_all(ids.map_values(entries_of))),
{
    let (lists, runs) = (singleton_runs(ids), ids.map_values(entries_of));
    assert forall|i: int| 0 <= i < runs.len() implies represents(
        contents,
        lists[i],
        ts,
        bounds,
        #[trigger] runs[i],
    ) by {
        assert(lists[i] == seq![ids[i]]);
        assert(runs[i] == entries_of(ids[i]));
    }
    lemma_joined_singletons(ids);
    lemma_merge_all_represents(contents, lists, ts, bounds, runs);
}

/// The merged entries that a scan reads are, within its bounds, what the latest of the memtables
/// and tables hold.
proof fn lemma_merged_plan_is_newest(
    contents: Contents,
    ts: u64,
    bounds: (BoundView, BoundView),
    entries_of: Entries,
    plan: ScanPlanView,
)
    requires
        plan.is_listed(contents, ts, bounds, entries_of),
    ensures
        represents(contents, plan.ids(), ts, bounds, plan.merged(entries_of)),
{
    let (memtables, l0, runs) = (plan.memtables, ids_of(plan.l0), level_runs(plan.levels));
    assert forall|i: int| 0 <= i < l0.len() implies represents(
        contents,
        seq![#[trigger] l0[i]],
        ts,
        bounds,
        entries_of(l0[i]),
    ) by {
        assert(l0[i] == plan.l0[i].id);
    }
    assert forall|i: int| 0 <= i < runs.len() implies is_listed_run(
        contents,
        ts,
        bounds,
        entries_of,
        #[trigger] runs[i],
    ) by {
        assert(runs[i] == ids_of(plan.levels[i]));
    }
    lemma_singles_represent(contents, ts, bounds, entries_of, memtables);
    lemma_singles_represent(contents, ts, bounds, entries_of, l0);
    lemma_runs_represent(contents, ts, bounds, entries_of, runs);
    let (a, b) = (
        merge_all(memtables.map_values(entries_of)),
        merge_all(l0.map_values(entries_of)),
    );
    lemma_merge_represents(contents, memtables, l0, ts, bounds, a, b);
    lemma_merge_represents(
        contents,
        memtables + l0,
        joined(runs),
        ts,
        bounds,
        merge(a, b),
        merge_all(runs.map_values(|run: Seq<usize>| run_entries(entries_of, run))),
    );
}

/// Entries from an excluded lower bound on, without the entry of the bound itself, are those of the
/// range.
pub proof fn lemma_skipping_excluded_leaves_range(
    contents: Contents,
    ids: Seq<usize>,
    ts: u64,
    bound: Seq<u8>,
    upper: BoundView,
    entries: Seq<EntryView>,
)
    requires
        represents(contents, ids, ts, (BoundView::Included(bound), upper), entries),
    ensures
        represents(
            contents,
            ids,
            ts,
            (BoundView::Excluded(bound), upper),
            after_excluded(entries, BoundView::Excluded(bound)),
        ),
{
    let left = after_excluded(entries, BoundView::Excluded(bound));
    let skipped: int = if front_value(entries, bound) is Some {
        1
    } else {
        0
    };
    lemma_bytes_lt_irreflexive(bound);
    assert forall|i: int| 0 <= i < left.len() implies #[trigger] left[i] == entries[i + skipped] by {}
    assert forall|i: int, j: int| 0 <= i < j < left.len() implies key_lt(
        (#[trigger] left[i]).0,
        (#[trigger] left[j]).0,
    ) by {
        assert(left[i] == entries[i + skipped] && left[j] == entries[j + skipped]);
    }
    assert forall|e: EntryView| #[trigger] left.contains(e) implies e.0.ts == ts && bytes_lt(
        bound,
        e.0.key,
    ) && entries.contains(e) by {
        let i = choose|i: int| 0 <= i < left.len() && left[i] == e;
        assert(left[i] == entries[i + skipped]);
        assert(entries.contains(entries[i + skipped]));
        assert(entries.contains(entries[0]));
        if i + skipped > 0 {
            assert(key_lt(entries[0].0, entries[i + skipped].0));
            if bytes_lt(bound, entries[0].0.key) {
                lemma_bytes_lt_transitive(bound, entries[0].0.key, e.0.key);
            }
        }
    }
    assert forall|key: Seq<u8>, value: Seq<u8>|
        bytes_lt(bound, key) && below_upper(key, upper) implies #[trigger] left.contains(
        entry_at(key, ts, value),
    ) == (newest(contents, ids, key) == Some(value)) by {
        let e = entry_at(key, ts, value);
        if entries.contains(e) {
            let i = choose|i: int| 0 <= i < entries.len() && entries[i] == e;
            if i >= skipped {
                assert(left[i - skipped] == e);
            }
        }
    }
}

/// The entry is not above the upper bound.
pub open spec fn ends_within(upper: BoundView) -> spec_fn(EntryView) -> bool {
    |e: EntryView| below_upper(e.0.key, upper)
}

/// What a scan returns of merged entries: those up to the upper bound that are not deletions.
pub open spec fn scanned(entries: Seq<EntryView>, upper: BoundView) -> Seq<EntryView> {
    kept(true, entries.take(prefix_len(entries, ends_within(upper)) as int))
}

/// The entries up to the upper bound are those that are not above it.
proof fn lemma_entries_within(entries: Seq<EntryView>, upper: BoundView)
    requires
        is_sorted(entries),
    ensures
        ({
            let within = entries.take(prefix_len(entries, ends_within(upper)) as int);
            &&& is_sorted(within)
            &&& forall|e: EntryView| #[trigger]
                within.contains(e) == (entries.contains(e) && below_upper(e.0.key, upper))
        }),
{
    let p = ends_within(upper);
    let n = prefix_len(entries, p) as int;
    let within = entries.take(n);
    lemma_prefix_len(entries, p);
    assert forall|i: int, j: int| 0 <= i < j < within.len() implies key_lt(
        (#[trigger] within[i]).0,
        (#[trigger] within[j]).0,
    ) by {
        assert(within[i] == entries[i] && within[j] == entries[j]);
    }
    assert forall|e: EntryView| #[trigger] within.contains(e) == (entries.contains(e)
        && below_upper(e.0.key, upper)) by {
        if within.contains(e) {
            let i = choose|i: int| 0 <= i < within.len() && within[i] == e;
            assert(entries[i] == e);
            assert(p(entries[i]));
        }
        if entries.contains(e) && below_upper(e.0.key, upper) {
            let i = choose|i: int| 0 <= i < entries.len() && entries[i] == e;
            if i >= n {
                if n < i {
                    assert(key_lt(entries[n].0, entries[i].0));
                }
                assert(bytes_le(entries[n].0.key, e.0.key));
                lemma_below_is_downward(entries[n].0.key, e.0.key, upper);
                assert(!p(entries[n]));
            }
            assert(within[i] == e);
        }
    }
}

/// A scan returns the keys of its range in order, each once, and exactly those that have a value,
/// with the value that a read returns: given what the memtables and tables that it reads list,
/// merged with the later ones first, up to the upper bound and without deletions.
pub proof fn lemma_scan_returns_what_reads_return(
    v: StateView,
    contents: Contents,
    ts: u64,
    lower: BoundView,
    upper: BoundView,
    entries_of: Entries,
)
    requires
        v.is_readable(contents),
        v.scan_plan(lower, upper).is_listed(contents, ts, (lower, upper), entries_of),
    ensures
        ({
            let returned = scanned(v.scan_plan(lower, upper).merged(entries_of), upper);
            &&& forall|i: int, j: int|
                0 <= i < j < returned.len() ==> bytes_lt(
                    (#[trigger] returned[i]).0.key,
                    (#[trigger] returned[j]).0.key,
                )
            &&& forall|i: int| 0 <= i < returned.len() ==> (#[trigger] returned[i]).0.ts == ts
            &&& forall|key: Seq<u8>, value: Seq<u8>| #[trigger]
                returned.contains(entry_at(key, ts, value)) == (above_lower(key, lower)
                    && below_upper(key, upper) && v.value_of(contents, key) == Some(value))
        }),
{
    let plan = v.scan_plan(lower, upper);
    let entries = plan.merged(entries_of);
    let within = entries.take(prefix_len(entries, ends_within(upper)) as int);
    let returned = scanned(entries, upper);
    lemma_merged_plan_is_newest(contents, ts, (lower, upper), entries_of, plan);
    lemma_entries_within(entries, upper);
    lemma_kept_entries(true, within);
    assert forall|i: int| 0 <= i < returned.len() implies (#[trigger] returned[i]).0.ts == ts by {
        assert(returned.contains(returned[i]));
        assert(entries.contains(returned[i]));
    }
    assert forall|i: int, j: int| 0 <= i < j < returned.len() implies bytes_lt(
        (#[trigger] returned[i]).0.key,
        (#[trigger] returned[j]).0.key,
    ) by {
        assert(key_lt(returned[i].0, returned[j].0));
    }
    assert forall|key: Seq<u8>, value: Seq<u8>| #[trigger]
        returned.contains(entry_at(key, ts, value)) == (above_lower(key, lower) && below_upper(
            key,
            upper,
        ) && v.value_of(contents, key) == Some(value)) by {
        let e = entry_at(key, ts, value);
        assert(within.contains(e) == (entries.contains(e) && below_upper(key, upper)));
        if above_lower(key, lower) && below_upper(key, upper) {
            lemma_scan_plan_finds_newest(v, contents, lower, upper, key);
            lemma_read_returns_newest(v, contents, key);
        }
    }
}

/// An iterator that was moved to the lower bound of a range is moved on by one entry exactly if the
/// bound is excluded and it stands at its key.
pub proof fn lemma_skips_only_the_bound(entries: Seq<EntryView>, lower: BoundView)
    ensures
        match lower {
            BoundView::Excluded(key) if entries.len() > 0 && entries[0].0.key == key =>
                after_excluded(entries, lower) == entries.skip(1),
            _ => after_excluded(entries, lower) == entries,
        },
        forall|key: Seq<u8>| #[trigger]
            front_value(entries, key) == (if entries.len() > 0 && entries[0].0.key == key {
                Some(entries[0].1)
            } else {
                None
            }),
{
    if entries.len() > 0 {
        assert(entries.drop_first() =~= entries.skip(1));
    }
}


} // verus!
