//! Leveled compaction: the target sizes of the levels grow towards the bottom, and the level
//! that exceeds its target by the largest factor is compacted into the next one.

use vstd::prelude::*;

use crate::double::{
    double_le, double_of, lemma_double_le_transitive, rounded, Double,
};
use crate::ids::{append_ids, remove_ids, splice_ids, spliced, without};
use crate::key::{
    key_le, key_lt, lemma_key_le_transitive, lemma_key_lt_irreflexive, lemma_key_lt_total, KeyBytes,
    KeyView,
};
use crate::lsm_storage::{LsmStorageState, StateView};
use crate::search::{lemma_prefix_len, partition_point, prefix_len};
use crate::table::TableView;

verus! {

/// One step of leveled compaction.
#[derive(Debug)]
pub struct LeveledCompactionTask {
    // if upper_level is `None`, then it is L0 compaction
    pub upper_level: Option<usize>,
    pub upper_level_sst_ids: Vec<usize>,
    pub lower_level: usize,
    pub lower_level_sst_ids: Vec<usize>,
    pub is_lower_level_bottom_level: bool,
}

/// What a task that merges tables of one level into the next stands for.
#[verifier::ext_equal]
pub struct LevelTaskView {
    pub upper_level: Option<usize>,
    pub upper_level_sst_ids: Seq<usize>,
    pub lower_level: usize,
    pub lower_level_sst_ids: Seq<usize>,
    pub is_lower_level_bottom_level: bool,
}

impl View for LeveledCompactionTask {
    type V = LevelTaskView;

    open spec fn view(&self) -> LevelTaskView {
        LevelTaskView {
            upper_level: self.upper_level,
            upper_level_sst_ids: self.upper_level_sst_ids@,
            lower_level: self.lower_level,
            lower_level_sst_ids: self.lower_level_sst_ids@,
            is_lower_level_bottom_level: self.is_lower_level_bottom_level,
        }
    }
}

/// What an optional task stands for.
pub open spec fn task_view(task: Option<LeveledCompactionTask>) -> Option<LevelTaskView> {
    match task {
        Some(task) => Some(task@),
        None => None,
    }
}

/// How leveled compaction is set up.
#[derive(Clone, Copy, Debug)]
pub struct LeveledCompactionOptions {
    pub level_size_multiplier: usize,
    pub level0_file_num_compaction_trigger: usize,
    pub max_levels: usize,
    pub base_level_size_mb: usize,
}

/// Decides on leveled compaction.
pub struct LeveledCompactionController {
    options: LeveledCompactionOptions,
}

/// The total size of the tables `ids`.
pub open spec fn total_size(tables: Map<usize, TableView>, ids: Seq<usize>) -> nat
    decreases ids.len(),
{
    if ids.len() == 0 {
        0
    } else {
        total_size(tables, ids.drop_last()) + tables[ids.last()].size as nat
    }
}

/// The total size of the tables of level `level`, counted from 1.
pub open spec fn level_size(v: StateView, level: int) -> nat {
    total_size(v.sstables, v.level_ids(level))
}

/// The table ends before `key`.
pub open spec fn ends_before(tables: Map<usize, TableView>, key: KeyView) -> spec_fn(
    usize,
) -> bool {
    |id: usize| key_lt(tables[id].last_key, key)
}

/// The table starts at `key` or before it.
pub open spec fn starts_up_to(tables: Map<usize, TableView>, key: KeyView) -> spec_fn(
    usize,
) -> bool {
    |id: usize| key_le(tables[id].first_key, key)
}

/// Where in `level` the tables begin that do not end before `first`.
pub open spec fn overlap_start(v: StateView, level: int, first: KeyView) -> int {
    prefix_len(v.level_ids(level), ends_before(v.sstables, first)) as int
}

/// Where in `level` the tables end that start at `last` or before it.
pub open spec fn overlap_end(v: StateView, level: int, last: KeyView) -> int {
    prefix_len(v.level_ids(level), starts_up_to(v.sstables, last)) as int
}

/// The tables of `level` that overlap the keys from `first` to `last`.
pub open spec fn overlapping(
    v: StateView,
    level: int,
    first: KeyView,
    last: KeyView,
) -> Seq<usize> {
    v.level_ids(level).subrange(overlap_start(v, level, first), overlap_end(v, level, last))
}

/// The least first key of the tables `ids`.
pub open spec fn least_first_key(tables: Map<usize, TableView>, ids: Seq<usize>) -> KeyView
    decreases ids.len(),
{
    let last = tables[ids.last()].first_key;
    if ids.len() <= 1 || key_lt(last, least_first_key(tables, ids.drop_last())) {
        last
    } else {
        least_first_key(tables, ids.drop_last())
    }
}

/// The greatest last key of the tables `ids`.
pub open spec fn greatest_last_key(tables: Map<usize, TableView>, ids: Seq<usize>) -> KeyView
    decreases ids.len(),
{
    let last = tables[ids.last()].last_key;
    if ids.len() <= 1 || key_lt(greatest_last_key(tables, ids.drop_last()), last) {
        last
    } else {
        greatest_last_key(tables, ids.drop_last())
    }
}

/// The key range of a set of tables covers each of them, and starts and ends with one of them.
pub proof fn lemma_key_range_covers(tables: Map<usize, TableView>, ids: Seq<usize>)
    requires
        ids.len() > 0,
    ensures
        forall|i: int|
            0 <= i < ids.len() ==> key_le(
                least_first_key(tables, ids),
                tables[#[trigger] ids[i]].first_key,
            ),
        forall|i: int|
            0 <= i < ids.len() ==> key_le(
                tables[#[trigger] ids[i]].last_key,
                greatest_last_key(tables, ids),
            ),
        exists|i: int|
            0 <= i < ids.len() && least_first_key(tables, ids) == tables[#[trigger] ids[i]].first_key,
        exists|i: int|
            0 <= i < ids.len() && greatest_last_key(tables, ids)
                == tables[#[trigger] ids[i]].last_key,
    decreases ids.len(),
{
    let n = ids.len() as int;
    let table = tables[ids[n - 1]];
    if n > 1 {
        let front = ids.drop_last();
        lemma_key_range_covers(tables, front);
        let least = least_first_key(tables, front);
        let greatest = greatest_last_key(tables, front);
        lemma_key_lt_total(table.first_key, least);
        lemma_key_lt_total(greatest, table.last_key);
        assert forall|i: int| 0 <= i < n implies key_le(
            least_first_key(tables, ids),
            tables[#[trigger] ids[i]].first_key,
        ) by {
            if i < n - 1 {
                assert(front[i] == ids[i]);
                lemma_key_le_transitive(
                    least_first_key(tables, ids),
                    least,
                    tables[ids[i]].first_key,
                );
            }
        }
        assert forall|i: int| 0 <= i < n implies key_le(
            tables[#[trigger] ids[i]].last_key,
            greatest_last_key(tables, ids),
        ) by {
            if i < n - 1 {
                assert(front[i] == ids[i]);
                lemma_key_le_transitive(
                    tables[ids[i]].last_key,
                    greatest,
                    greatest_last_key(tables, ids),
                );
            }
        }
        let i = choose|i: int|
            0 <= i < front.len() && least == tables[#[trigger] front[i]].first_key;
        let j = choose|j: int|
            0 <= j < front.len() && greatest == tables[#[trigger] front[j]].last_key;
        assert(front[i] == ids[i] && front[j] == ids[j]);
        assert(ids[n - 1] == ids.last());
    }
}

impl LeveledCompactionOptions {
    pub open spec fn base_size(self) -> nat {
        (self.base_level_size_mb * 1024 * 1024) as nat
    }
}

/// The size that level `level` should have: the bottom level its own size, if that is at least
/// the base size, and each level above it a fixed fraction of the next.
pub open spec fn target_size(v: StateView, o: LeveledCompactionOptions, level: int) -> nat
    decreases v.levels.len() - level,
{
    let n = v.levels.len() as int;
    if level >= n {
        if level_size(v, n) >= o.base_size() {
            level_size(v, n)
        } else {
            o.base_size()
        }
    } else {
        target_size(v, o, level + 1) / o.level_size_multiplier as nat
    }
}

/// The lowest level up to `level` whose target does not exceed the base size, or level 1.
pub open spec fn base_level_from(v: StateView, o: LeveledCompactionOptions, level: int) -> int
    decreases level,
{
    if level <= 1 || target_size(v, o, level) <= o.base_size() {
        level
    } else {
        base_level_from(v, o, level - 1)
    }
}

/// The level that L0 is compacted into.
pub open spec fn base_level(v: StateView, o: LeveledCompactionOptions) -> int {
    base_level_from(v, o, v.levels.len() as int)
}

/// The level holds more than its target.
pub open spec fn exceeds_target(v: StateView, o: LeveledCompactionOptions, level: int) -> bool {
    base_level(v, o) <= level < v.levels.len() && level_size(v, level) > target_size(v, o, level)
}

/// Size over target is less for `(size_a, target_a)` than for `(size_b, target_b)`, in double
/// precision; over a target of nothing it is infinite.
pub open spec fn priority_lt(size_a: nat, target_a: nat, size_b: nat, target_b: nat) -> bool {
    if target_a == 0 {
        false
    } else if target_b == 0 {
        true
    } else {
        !double_le(
            rounded(double_of(size_b), double_of(target_b)),
            rounded(double_of(size_a), double_of(target_a)),
        )
    }
}

/// Level `a` is compacted before level `b`: it exceeds its target by the larger factor or, where
/// the factors are the same, lies lower.
pub open spec fn compacted_before(
    v: StateView,
    o: LeveledCompactionOptions,
    a: int,
    b: int,
) -> bool {
    let (size_a, target_a) = (level_size(v, a), target_size(v, o, a));
    let (size_b, target_b) = (level_size(v, b), target_size(v, o, b));
    priority_lt(size_b, target_b, size_a, target_a) || (!priority_lt(
        size_a,
        target_a,
        size_b,
        target_b,
    ) && a > b)
}

/// The level to compact: the first in the order of `compacted_before` of those that exceed their
/// target.
pub open spec fn is_chosen_level(v: StateView, o: LeveledCompactionOptions, level: int) -> bool {
    &&& exceeds_target(v, o, level)
    &&& forall|l: int|
        exceeds_target(v, o, l) && l != level ==> #[trigger] compacted_before(v, o, level, l)
}

/// The table with the least id of `ids`.
pub open spec fn is_oldest(ids: Seq<usize>, id: usize) -> bool {
    ids.contains(id) && forall|i: int| 0 <= i < ids.len() ==> id <= #[trigger] ids[i]
}

impl LeveledCompactionController {
    pub closed spec fn options(&self) -> LeveledCompactionOptions {
        self.options
    }

    /// The strategy with the given options.
    pub fn new(options: LeveledCompactionOptions) -> (controller: Self)
        ensures
            controller.options() == options,
    {
        LeveledCompactionController { options }
    }

    /// The positions in a level between which the tables overlap the keys from `first_key` to
    /// `last_key`.
    pub(crate) fn find_overlapping_range(
        &self,
        snapshot: &LsmStorageState,
        first_key: &KeyBytes,
        last_key: &KeyBytes,
        in_level: usize,
    ) -> (range: (usize, usize))
        requires
            1 <= in_level <= snapshot@.levels.len(),
            snapshot@.is_sorted_run(snapshot@.level_ids(in_level as int)),
        ensures
            range.0 == overlap_start(snapshot@, in_level as int, first_key@),
            range.1 == overlap_end(snapshot@, in_level as int, last_key@),
            range.0 <= snapshot@.level_ids(in_level as int).len(),
            range.1 <= snapshot@.level_ids(in_level as int).len(),
            key_le(first_key@, last_key@) ==> range.0 <= range.1,
    {
        let level_ids = snapshot.level(in_level);
        let ghost tables = snapshot@.sstables;
        let ghost ids = level_ids@;
        let ghost ends = ends_before(tables, first_key@);
        let ghost starts = starts_up_to(tables, last_key@);
        assert(ids == snapshot@.level_ids(in_level as int));
        proof {
            assert forall|i: int, j: int|
                0 <= i < j < ids.len() && ends(#[trigger] ids[j]) implies ends(#[trigger] ids[i]) by {
                lemma_key_le_transitive(
                    tables[ids[i]].last_key,
                    tables[ids[j]].last_key,
                    first_key@,
                );
            }
            assert forall|i: int, j: int|
                0 <= i < j < ids.len() && starts(#[trigger] ids[j]) implies starts(
                #[trigger] ids[i],
            ) by {
                lemma_key_le_transitive(
                    tables[ids[i]].first_key,
                    tables[ids[j]].first_key,
                    last_key@,
                );
            }
        }
        let before_first = |id: usize| -> (before: bool)
            requires
                snapshot@.sstables.contains_key(id),
            ensures
                before == key_lt(snapshot@.sstables[id].last_key, first_key@),
            {
                snapshot.table(id).last_key().as_key_slice().is_less(&first_key.as_key_slice())
            };
        let start = partition_point(level_ids, before_first, Ghost(ends));
        let up_to_last = |id: usize| -> (up_to: bool)
            requires
                snapshot@.sstables.contains_key(id),
            ensures
                up_to == key_le(snapshot@.sstables[id].first_key, last_key@),
            {
                proof {
                    lemma_key_lt_total(snapshot@.sstables[id].first_key, last_key@);
                    lemma_key_lt_irreflexive(last_key@);
                }
                !last_key.as_key_slice().is_less(&snapshot.table(id).first_key().as_key_slice())
            };
        let end = partition_point(level_ids, up_to_last, Ghost(starts));
        proof {
            if key_le(first_key@, last_key@) && end < start {
                lemma_prefix_len(ids, ends);
                lemma_prefix_len(ids, starts);
                let id = ids[end as int];
                assert(ends(id));
                lemma_key_le_transitive(tables[id].first_key, tables[id].last_key, first_key@);
                lemma_key_le_transitive(tables[id].first_key, first_key@, last_key@);
            }
        }
        (start, end)
    }

    /// The tables of a level that overlap the keys from `first_key` to `last_key`.
    pub(crate) fn find_overlapping_ssts(
        &self,
        snapshot: &LsmStorageState,
        first_key: &KeyBytes,
        last_key: &KeyBytes,
        in_level: usize,
    ) -> (ids: Vec<usize>)
        requires
            1 <= in_level <= snapshot@.levels.len(),
            snapshot@.is_sorted_run(snapshot@.level_ids(in_level as int)),
            key_le(first_key@, last_key@),
        ensures
            ids@ == overlapping(snapshot@, in_level as int, first_key@, last_key@),
    {
        let (start, end) = self.find_overlapping_range(snapshot, first_key, last_key, in_level);
        let level_ids = snapshot.level(in_level);
        vstd::slice::slice_to_vec(vstd::slice::slice_subrange(level_ids.as_slice(), start, end))
    }

    /// Whether level `a` is of lower priority than level `b`.
    fn is_lower_priority(size_a: usize, target_a: usize, size_b: usize, target_b: usize) -> (lower:
        bool)
        requires
            size_a > target_a,
            size_b > target_b,
        ensures
            lower == priority_lt(size_a as nat, target_a as nat, size_b as nat, target_b as nat),
    {
        if target_a == 0 {
            false
        } else if target_b == 0 {
            true
        } else {
            let a = Double::quotient(Double::whole(size_a as u64), Double::whole(target_a as u64));
            let b = Double::quotient(Double::whole(size_b as u64), Double::whole(target_b as u64));
            !b.is_le(&a)
        }
    }

    /// The least first key and the greatest last key of some tables.
    fn key_range<'a>(snapshot: &'a LsmStorageState, ids: &Vec<usize>) -> (range: (
        &'a KeyBytes,
        &'a KeyBytes,
    ))
        requires
            ids@.len() > 0,
            snapshot@.holds(ids@),
        ensures
            range.0@ == least_first_key(snapshot@.sstables, ids@),
            range.1@ == greatest_last_key(snapshot@.sstables, ids@),
            key_le(range.0@, range.1@),
    {
        let ghost tables = snapshot@.sstables;
        let mut first_key = snapshot.table(ids[0]).first_key();
        let mut last_key = snapshot.table(ids[0]).last_key();
        let mut i: usize = 1;
        assert(ids@.take(1).last() == ids@[0]);
        while i < ids.len()
            invariant
                tables == snapshot@.sstables,
                1 <= i <= ids@.len(),
                snapshot@.holds(ids@),
                first_key@ == least_first_key(tables, ids@.take(i as int)),
                last_key@ == greatest_last_key(tables, ids@.take(i as int)),
            decreases ids@.len() - i,
        {
            let table = snapshot.table(ids[i]);
            proof {
                assert(ids@.take(i + 1).drop_last() =~= ids@.take(i as int));
                assert(ids@.take(i + 1).last() == ids@[i as int]);
            }
            if table.first_key().as_key_slice().is_less(&first_key.as_key_slice()) {
                first_key = table.first_key();
            }
            if last_key.as_key_slice().is_less(&table.last_key().as_key_slice()) {
                last_key = table.last_key();
            }
            i += 1;
        }
        proof {
            assert(ids@.take(i as int) =~= ids@);
            lemma_key_range_covers(tables, ids@);
            let table = tables[ids@[0]];
            lemma_key_le_transitive(first_key@, table.first_key, table.last_key);
            lemma_key_le_transitive(first_key@, table.last_key, last_key@);
        }
        (first_key, last_key)
    }

    /// The total size of the tables of a level.
    fn level_size(snapshot: &LsmStorageState, level: usize) -> (size: usize)
        requires
            1 <= level <= snapshot@.levels.len(),
            snapshot@.is_sorted_run(snapshot@.level_ids(level as int)),
            level_size(snapshot@, level as int) <= usize::MAX,
        ensures
            size == level_size(snapshot@, level as int),
    {
        let ids = snapshot.level(level);
        let ghost tables = snapshot@.sstables;
        assert(ids@ == snapshot@.level_ids(level as int));
        let mut size: usize = 0;
        let mut i: usize = 0;
        while i < ids.len()
            invariant
                tables == snapshot@.sstables,
                ids@ == snapshot@.level_ids(level as int),
                snapshot@.is_sorted_run(ids@),
                total_size(tables, ids@) <= usize::MAX,
                i <= ids@.len(),
                size == total_size(tables, ids@.take(i as int)),
            decreases ids@.len() - i,
        {
            let table = snapshot.table(ids[i]);
            proof {
                lemma_total_size_grows(tables, ids@, i + 1);
                assert(ids@.take(i + 1).drop_last() =~= ids@.take(i as int));
                assert(ids@.take(i + 1).last() == ids@[i as int]);
            }
            size = size + table.table_size() as usize;
            i += 1;
        }
        assert(ids@.take(i as int) =~= ids@);
        size
    }

    /// Which tables to compact next, if any.
    ///
    /// Once there are enough L0 tables, all of them go to the base level. Otherwise the level
    /// that exceeds its target by the largest factor gives its oldest table to the next level.
    pub fn generate_compaction_task(&self, snapshot: &LsmStorageState) -> (task: Option<
        LeveledCompactionTask,
    >)
        requires
            self.can_generate(snapshot@),
        ensures
            self.generates(snapshot@, task_view(task)),
    {
        let ghost v = snapshot@;
        let ghost o = self.options;
        let n: usize = snapshot.levels.len();

        let mut sizes: Vec<usize> = Vec::with_capacity(self.options.max_levels);
        let mut i: usize = 0;
        while i < n
            invariant
                v == snapshot@,
                v.levels_sorted(),
                n == v.levels.len(),
                i <= n,
                sizes@.len() == i,
                forall|level: int|
                    1 <= level <= n ==> #[trigger] level_size(v, level) <= usize::MAX,
                forall|k: int| 0 <= k < i ==> #[trigger] sizes@[k] == level_size(v, k + 1),
            decreases n - i,
        {
            assert(v.is_sorted_run(v.level_ids(i + 1)));
            sizes.push(Self::level_size(snapshot, i + 1));
            i += 1;
        }

        let base_level_size_bytes: usize = self.options.base_level_size_mb * 1024 * 1024;
        let mut next_target_size: usize = if sizes[n - 1] >= base_level_size_bytes {
            sizes[n - 1]
        } else {
            base_level_size_bytes
        };
        let mut targets: Vec<usize> = vec![0; n];
        let mut base: usize = 1;
        let mut left: usize = n;
        let mut found = false;
        while left > 0 && !found
            invariant
                v == snapshot@,
                o == self.options,
                n == v.levels.len(),
                1 <= n,
                left <= n,
                1 <= base <= n,
                targets@.len() == n,
                o.level_size_multiplier > 0,
                base_level_size_bytes == o.base_size(),
                forall|k: int|
                    left < k <= n ==> #[trigger] targets@[k - 1] == target_size(v, o, k),
                left > 0 && !found ==> next_target_size == target_size(v, o, left as int),
                left > 0 && !found ==> base_level(v, o) == base_level_from(v, o, left as int),
                !found ==> base == 1,
                left == 0 && !found ==> base_level(v, o) == 1,
                found ==> base == left + 1 && base_level(v, o) == base,
            decreases left,
        {
            targets[left - 1] = next_target_size;
            next_target_size = next_target_size / self.options.level_size_multiplier;
            if targets[left - 1] <= base_level_size_bytes {
                base = left;
                found = true;
            }
            left = left - 1;
        }

        if snapshot.l0_sstables.len() >= self.options.level0_file_num_compaction_trigger {
            let upper_level_sst_ids = snapshot.l0_sstables.clone();
            let (first_key, last_key) = Self::key_range(snapshot, &upper_level_sst_ids);
            assert(v.is_sorted_run(v.level_ids(base as int)));
            let lower_level_sst_ids = self.find_overlapping_ssts(
                snapshot,
                first_key,
                last_key,
                base,
            );
            return Some(
                LeveledCompactionTask {
                    upper_level: None,
                    upper_level_sst_ids,
                    lower_level: base,
                    lower_level_sst_ids,
                    is_lower_level_bottom_level: base == n - 1,
                },
            );
        }
        let mut chosen: Option<usize> = None;
        let mut level: usize = base;
        while level < n
            invariant
                v == snapshot@,
                o == self.options,
                n == v.levels.len(),
                1 <= base <= level,
                base == base_level(v, o),
                level <= n || level == base,
                sizes@.len() == n,
                targets@.len() == n,
                forall|k: int| 0 <= k < n ==> #[trigger] sizes@[k] == level_size(v, k + 1),
                forall|k: int|
                    base <= k <= n ==> #[trigger] targets@[k - 1] == target_size(v, o, k),
                match chosen {
                    Some(best) => {
                        &&& best < level
                        &&& exceeds_target(v, o, best as int)
                        &&& forall|l: int|
                            l < level && exceeds_target(v, o, l) && l != best
                                ==> #[trigger] compacted_before(v, o, best as int, l)
                    },
                    None => forall|l: int| l < level ==> !#[trigger] exceeds_target(v, o, l),
                },
            decreases n - level,
        {
            assert(sizes@[level - 1] == level_size(v, level as int));
            assert(targets@[level - 1] == target_size(v, o, level as int));
            if sizes[level - 1] > targets[level - 1] {
                match chosen {
                    None => {
                        chosen = Some(level);
                    },
                    Some(best) => {
                        assert(sizes@[best - 1] == level_size(v, best as int));
                        assert(targets@[best - 1] == target_size(v, o, best as int));
                        if !Self::is_lower_priority(
                            sizes[level - 1],
                            targets[level - 1],
                            sizes[best - 1],
                            targets[best - 1],
                        ) {
                            proof {
                                assert forall|l: int|
                                    l < level + 1 && exceeds_target(v, o, l) && l
                                        != level implies #[trigger] compacted_before(
                                    v,
                                    o,
                                    level as int,
                                    l,
                                ) by {
                                    if l != best {
                                        assert(compacted_before(v, o, best as int, l));
                                        lemma_priority_lt_transitive(
                                            level_size(v, level as int),
                                            target_size(v, o, level as int),
                                            level_size(v, best as int),
                                            target_size(v, o, best as int),
                                            level_size(v, l),
                                            target_size(v, o, l),
                                        );
                                    }
                                }
                            }
                            chosen = Some(level);
                        }
                    },
                }
            }
            level += 1;
        }

        if let Some(upper_level) = chosen {
            let ids = snapshot.level(upper_level);
            assert(v.is_sorted_run(v.level_ids(upper_level as int)));
            assert(ids@ == v.level_ids(upper_level as int));
            let mut oldest_sst_id: usize = snapshot.table(ids[0]).sst_id();
            let mut i: usize = 1;
            while i < ids.len()
                invariant
                    v == snapshot@,
                    v.is_sorted_run(ids@),
                    1 <= i <= ids@.len(),
                    ids@.contains(oldest_sst_id),
                    forall|k: int| 0 <= k < i ==> oldest_sst_id <= #[trigger] ids@[k],
                decreases ids@.len() - i,
            {
                let id = snapshot.table(ids[i]).sst_id();
                if id < oldest_sst_id {
                    oldest_sst_id = id;
                }
                i += 1;
            }
            let mut upper_level_sst_ids: Vec<usize> = Vec::new();
            upper_level_sst_ids.push(oldest_sst_id);
            assert(upper_level_sst_ids@ =~= seq![oldest_sst_id]);
            let table = snapshot.table(oldest_sst_id);
            assert(v.is_sorted_run(v.level_ids(upper_level + 1)));
            let lower_level_sst_ids = self.find_overlapping_ssts(
                snapshot,
                table.first_key(),
                table.last_key(),
                upper_level + 1,
            );
            let task = LeveledCompactionTask {
                upper_level: Some(upper_level),
                upper_level_sst_ids,
                lower_level: upper_level + 1,
                lower_level_sst_ids,
                is_lower_level_bottom_level: upper_level + 1 == n,
            };
            proof {
                assert(is_chosen_level(v, o, upper_level as int));
                assert(is_oldest(v.level_ids(upper_level as int), oldest_sst_id));
                assert(table@ == v.sstables[oldest_sst_id]);
                assert(task@ == LevelTaskView {
                    upper_level: Some(upper_level),
                    upper_level_sst_ids: seq![oldest_sst_id],
                    lower_level: (upper_level + 1) as usize,
                    lower_level_sst_ids: overlapping(
                        v,
                        upper_level + 1,
                        v.sstables[oldest_sst_id].first_key,
                        v.sstables[oldest_sst_id].last_key,
                    ),
                    is_lower_level_bottom_level: upper_level + 1 == v.levels.len(),
                });
                assert(self.is_level_task(v, upper_level as int, task@));
            }
            return Some(task);
        }
        None
    }
}

/// The greater of two keys.
pub open spec fn key_max(a: KeyView, b: KeyView) -> KeyView {
    if key_lt(a, b) {
        b
    } else {
        a
    }
}

/// The lesser of two keys.
pub open spec fn key_min(a: KeyView, b: KeyView) -> KeyView {
    if key_lt(b, a) {
        b
    } else {
        a
    }
}

/// The keys between which the upper tables of a task lie.
pub open spec fn upper_range(v: StateView, task: LevelTaskView) -> (KeyView, KeyView) {
    match task.upper_level {
        Some(_) => {
            let table = v.sstables[task.upper_level_sst_ids[0]];
            (table.first_key, table.last_key)
        },
        None => (
            least_first_key(v.sstables, task.upper_level_sst_ids),
            greatest_last_key(v.sstables, task.upper_level_sst_ids),
        ),
    }
}

/// The state once the upper tables of the task are gone: from L0 the earliest ones, from another
/// level what overlaps the table of the task.
pub open spec fn without_upper(v: StateView, task: LevelTaskView) -> StateView {
    match task.upper_level {
        Some(level) => {
            let (first, last) = upper_range(v, task);
            v.with_level_ids(
                level as int,
                spliced(
                    v.level_ids(level as int),
                    overlap_start(v, level as int, first),
                    overlap_end(v, level as int, last),
                    Seq::empty(),
                ),
            )
        },
        None => StateView {
            l0_sstables: v.l0_sstables.take(
                v.l0_sstables.len() - task.upper_level_sst_ids.len(),
            ),
            ..v
        },
    }
}

/// The keys between which the output of the task replaces tables of the lower level: those of the
/// upper tables, cut to those of the lower tables where there are any.
pub open spec fn replaced_range(v: StateView, task: LevelTaskView) -> (KeyView, KeyView) {
    let (first, last) = upper_range(v, task);
    let lower = task.lower_level_sst_ids;
    if lower.len() == 0 {
        (first, last)
    } else {
        (
            key_max(first, v.sstables[lower.first()].first_key),
            key_min(last, v.sstables[lower.last()].last_key),
        )
    }
}

/// The keys between which all tables of the task lie, where its lower tables are sorted.
pub open spec fn task_span(v: StateView, task: LevelTaskView) -> (KeyView, KeyView) {
    let (first, last) = upper_range(v, task);
    let lower = task.lower_level_sst_ids;
    if lower.len() == 0 {
        (first, last)
    } else {
        (
            key_min(first, v.sstables[lower.first()].first_key),
            key_max(last, v.sstables[lower.last()].last_key),
        )
    }
}

/// The state after a compaction of live tables.
pub open spec fn compacted(v: StateView, task: LevelTaskView, output: Seq<usize>) -> StateView {
    let upper_gone = without_upper(v, task);
    let level = task.lower_level as int;
    let (first, last) = replaced_range(v, task);
    upper_gone.with_level_ids(
        level,
        spliced(
            upper_gone.level_ids(level),
            overlap_start(upper_gone, level, first),
            overlap_end(upper_gone, level, last),
            output,
        ),
    )
}

/// The state after a compaction that is replayed before the tables are opened: by id alone, the
/// output at the end of the lower level.
pub open spec fn replayed(v: StateView, task: LevelTaskView, output: Seq<usize>) -> StateView {
    let upper_gone = match task.upper_level {
        Some(level) => v.with_level_ids(
            level as int,
            without(v.level_ids(level as int), task.upper_level_sst_ids),
        ),
        None => StateView {
            l0_sstables: v.l0_sstables.take(
                v.l0_sstables.len() - task.upper_level_sst_ids.len(),
            ),
            ..v
        },
    };
    let level = task.lower_level as int;
    upper_gone.with_level_ids(
        level,
        without(upper_gone.level_ids(level), task.lower_level_sst_ids) + output,
    )
}

/// The levels of the task are there and, where it takes tables from L0, there are as many.
pub open spec fn task_fits(v: StateView, task: LevelTaskView) -> bool {
    &&& 1 <= task.lower_level <= v.levels.len()
    &&& match task.upper_level {
        Some(level) => 1 <= level <= v.levels.len(),
        None => task.upper_level_sst_ids.len() <= v.l0_sstables.len(),
    }
}

/// The tables of the task are there, and its levels are sorted.
pub open spec fn tables_are_there(v: StateView, task: LevelTaskView) -> bool {
    let upper = task.upper_level_sst_ids;
    let lower = task.lower_level_sst_ids;
    &&& v.holds(upper)
    &&& match task.upper_level {
        Some(level) => {
            &&& upper.len() == 1
            &&& v.is_sorted_run(v.level_ids(level as int))
        },
        None => upper.len() > 0,
    }
    &&& lower.len() > 0 ==> {
        &&& v.sstables.contains_key(lower.first())
        &&& v.sstables.contains_key(lower.last())
    }
    &&& v.is_sorted_run(v.level_ids(task.lower_level as int))
}

/// The tables of the task are there, and its keys name a range of the lower level.
pub open spec fn task_is_live(v: StateView, task: LevelTaskView) -> bool {
    let (first, last) = replaced_range(v, task);
    &&& tables_are_there(v, task)
    &&& overlap_start(without_upper(v, task), task.lower_level as int, first) <= overlap_end(
        without_upper(v, task),
        task.lower_level as int,
        last,
    )
}

impl LeveledCompactionController {
    /// The state once the upper tables of the task are gone, and the positions in the lower level
    /// between which the output of the task goes.
    fn remove_upper(&self, state: &LsmStorageState, task: &LeveledCompactionTask) -> (result: (
        LsmStorageState,
        usize,
        usize,
    ))
        requires
            task_fits(state@, task@),
            tables_are_there(state@, task@),
        ensures
            result.0@ == without_upper(state@, task@),
            result.1 == overlap_start(
                result.0@,
                task@.lower_level as int,
                replaced_range(state@, task@).0,
            ),
            result.2 == overlap_end(
                result.0@,
                task@.lower_level as int,
                replaced_range(state@, task@).1,
            ),
            result.1 <= result.0@.level_ids(task@.lower_level as int).len(),
            result.2 <= result.0@.level_ids(task@.lower_level as int).len(),
    {
        let ghost v = state@;
        let mut snapshot = state.clone();
        let low_level = task.lower_level;
        let (upper_first_key, upper_last_key) = match task.upper_level {
            Some(upper_level) => {
                let table = state.table(task.upper_level_sst_ids[0]);
                let (beg, end) = self.find_overlapping_range(
                    &snapshot,
                    table.first_key(),
                    table.last_key(),
                    upper_level,
                );
                let nothing: Vec<usize> = Vec::new();
                let kept = splice_ids(
                    snapshot.level(upper_level),
                    beg,
                    end,
                    nothing.as_slice(),
                );
                proof {
                    lemma_spliced_run_is_sorted(
                        v,
                        v.level_ids(upper_level as int),
                        beg as int,
                        end as int,
                    );
                }
                snapshot.set_level_ids(upper_level, kept);
                (table.first_key(), table.last_key())
            },
            None => {
                let l0_truncate_len = snapshot.l0_sstables.len() - task.upper_level_sst_ids.len();
                snapshot.truncate_l0(l0_truncate_len);
                Self::key_range(state, &task.upper_level_sst_ids)
            },
        };
        assert(snapshot@ == without_upper(v, task@));
        let (first_key, last_key) = if task.lower_level_sst_ids.is_empty() {
            (upper_first_key, upper_last_key)
        } else {
            let count = task.lower_level_sst_ids.len();
            let lower_first_key = state.table(task.lower_level_sst_ids[0]).first_key();
            let lower_last_key = state.table(task.lower_level_sst_ids[count - 1]).last_key();
            (
                if upper_first_key.as_key_slice().is_less(&lower_first_key.as_key_slice()) {
                    lower_first_key
                } else {
                    upper_first_key
                },
                if lower_last_key.as_key_slice().is_less(&upper_last_key.as_key_slice()) {
                    lower_last_key
                } else {
                    upper_last_key
                },
            )
        };
        assert(snapshot@.is_sorted_run(snapshot@.level_ids(low_level as int)));
        let (beg, end) = self.find_overlapping_range(&snapshot, first_key, last_key, low_level);
        (snapshot, beg, end)
    }

    /// The state after a compaction, and the tables that are no longer used.
    ///
    /// While the state is being recovered the tables are not open yet, so that positions in a
    /// level go by ids alone.
    pub fn apply_compaction_result(
        &self,
        snapshot: &LsmStorageState,
        task: &LeveledCompactionTask,
        output: &[usize],
        in_recovery: bool,
    ) -> (result: (LsmStorageState, Vec<usize>))
        requires
            task_fits(snapshot@, task@),
            in_recovery || task_is_live(snapshot@, task@),
        ensures
            result.0@ == if in_recovery {
                replayed(snapshot@, task@, output@)
            } else {
                compacted(snapshot@, task@, output@)
            },
            result.1@ == task@.upper_level_sst_ids + task@.lower_level_sst_ids,
    {
        let mut unused_sst_ids: Vec<usize> = task.upper_level_sst_ids.clone();
        append_ids(&mut unused_sst_ids, task.lower_level_sst_ids.as_slice());
        let low_level = task.lower_level;

        if in_recovery {
            let mut snapshot = snapshot.clone();
            match task.upper_level {
                Some(upper_level) => {
                    let kept = remove_ids(
                        snapshot.level(upper_level),
                        &task.upper_level_sst_ids,
                    );
                    snapshot.set_level_ids(upper_level, kept);
                },
                None => {
                    let l0_truncate_len = snapshot.l0_sstables.len()
                        - task.upper_level_sst_ids.len();
                    snapshot.truncate_l0(l0_truncate_len);
                },
            }
            let mut lower = remove_ids(
                snapshot.level(low_level),
                &task.lower_level_sst_ids,
            );
            append_ids(&mut lower, output);
            snapshot.set_level_ids(low_level, lower);
            return (snapshot, unused_sst_ids);
        }
        let (mut snapshot, beg, end) = self.remove_upper(snapshot, task);
        let lower = splice_ids(snapshot.level(low_level), beg, end, output);
        snapshot.set_level_ids(low_level, lower);
        (snapshot, unused_sst_ids)
    }
}

/// Cutting tables out of a sorted level leaves it sorted.
proof fn lemma_spliced_run_is_sorted(v: StateView, ids: Seq<usize>, start: int, end: int)
    requires
        v.is_sorted_run(ids),
        0 <= start <= end <= ids.len(),
    ensures
        v.is_sorted_run(spliced(ids, start, end, Seq::empty())),
{
    let cut = spliced(ids, start, end, Seq::empty());
    let moved = |i: int|
        if i < start {
            i
        } else {
            i - start + end
        };
    assert forall|i: int| 0 <= i < cut.len() implies cut[i] == ids[#[trigger] moved(i)] by {}
    assert forall|i: int| 0 <= i < cut.len() implies v.sstables.contains_key(#[trigger] cut[i])
        && key_le(v.sstables[cut[i]].first_key, v.sstables[cut[i]].last_key) by {
        assert(cut[i] == ids[moved(i)]);
    }
    assert forall|i: int, j: int| 0 <= i < j < cut.len() implies key_le(
        v.sstables[#[trigger] cut[i]].first_key,
        v.sstables[#[trigger] cut[j]].first_key,
    ) && key_le(v.sstables[cut[i]].last_key, v.sstables[cut[j]].last_key) by {
        assert(cut[i] == ids[moved(i)]);
        assert(cut[j] == ids[moved(j)]);
        assert(moved(i) < moved(j));
    }
}

impl LeveledCompactionController {
    /// The state has the levels of the options and their tables, with sizes that can be counted.
    pub open spec fn can_generate(&self, v: StateView) -> bool {
        &&& v.levels_sorted()
        &&& 1 <= v.levels.len() == self.options().max_levels
        &&& self.options().level_size_multiplier > 0
        &&& self.options().base_size() <= usize::MAX
        &&& forall|level: int|
            1 <= level <= v.levels.len() ==> #[trigger] level_size(v, level) <= usize::MAX
        &&& self.l0_is_due(v) ==> v.l0_sstables.len() > 0 && v.holds(v.l0_sstables)
    }

    /// `task` is what to compact next.
    pub open spec fn generates(&self, v: StateView, task: Option<LevelTaskView>) -> bool {
        match task {
            Some(task) => if self.l0_is_due(v) {
                self.is_l0_task(v, task)
            } else {
                exists|level: int|
                    #[trigger] is_chosen_level(v, self.options(), level) && self.is_level_task(
                        v,
                        level,
                        task,
                    )
            },
            None => !self.l0_is_due(v) && forall|level: int| !#[trigger] exceeds_target(
                v,
                self.options(),
                level,
            ),
        }
    }

    /// There are enough L0 tables to compact them.
    pub open spec fn l0_is_due(&self, v: StateView) -> bool {
        v.l0_sstables.len() >= self.options().level0_file_num_compaction_trigger
    }

    /// The task merges all of L0 into what it overlaps of the base level.
    ///
    /// It is marked as reaching the bottom when the base level is the last level but one, not when
    /// it is the last.
    pub open spec fn is_l0_task(&self, v: StateView, task: LevelTaskView) -> bool {
        let base = base_level(v, self.options());
        task == LevelTaskView {
            upper_level: None,
            upper_level_sst_ids: v.l0_sstables,
            lower_level: base as usize,
            lower_level_sst_ids: overlapping(
                v,
                base,
                least_first_key(v.sstables, v.l0_sstables),
                greatest_last_key(v.sstables, v.l0_sstables),
            ),
            is_lower_level_bottom_level: base == v.levels.len() - 1,
        }
    }

    /// The task merges the oldest table of `level` into what it overlaps of the next level.
    pub open spec fn is_level_task(&self, v: StateView, level: int, task: LevelTaskView) -> bool {
        exists|id: usize|
            {
                &&& #[trigger] is_oldest(v.level_ids(level), id)
                &&& task == LevelTaskView {
                    upper_level: Some(level as usize),
                    upper_level_sst_ids: seq![id],
                    lower_level: (level + 1) as usize,
                    lower_level_sst_ids: overlapping(
                        v,
                        level + 1,
                        v.sstables[id].first_key,
                        v.sstables[id].last_key,
                    ),
                    is_lower_level_bottom_level: level + 1 == v.levels.len(),
                }
            }
    }
}

impl LeveledCompactionController {
    /// Whether the sizes of the tables of a level add up to a number that fits.
    fn level_size_fits(snapshot: &LsmStorageState, level: usize) -> (fits: bool)
        requires
            1 <= level <= snapshot@.levels.len(),
            snapshot@.is_sorted_run(snapshot@.level_ids(level as int)),
        ensures
            fits == (level_size(snapshot@, level as int) <= usize::MAX),
    {
        let ids = snapshot.level(level);
        let ghost tables = snapshot@.sstables;
        let mut size: u64 = 0;
        let mut i: usize = 0;
        while i < ids.len()
            invariant
                tables == snapshot@.sstables,
                ids@ == snapshot@.level_ids(level as int),
                snapshot@.is_sorted_run(ids@),
                i <= ids@.len(),
                size == total_size(tables, ids@.take(i as int)),
            decreases ids@.len() - i,
        {
            let table = snapshot.table(ids[i]);
            proof {
                lemma_total_size_grows(tables, ids@, i + 1);
                assert(ids@.take(i + 1).drop_last() =~= ids@.take(i as int));
                assert(ids@.take(i + 1).last() == ids@[i as int]);
            }
            if table.table_size() > u64::MAX - size {
                return false;
            }
            size = size + table.table_size();
            i += 1;
        }
        assert(ids@.take(i as int) =~= ids@);
        size <= usize::MAX as u64
    }

    /// Whether the state has the levels of the options and their tables, with sizes that can be
    /// counted.
    pub fn can_generate_task(&self, snapshot: &LsmStorageState) -> (can: bool)
        ensures
            can == self.can_generate(snapshot@),
    {
        let n: usize = snapshot.levels.len();
        assert(n == snapshot@.levels.len());
        if n == 0 || n != self.options.max_levels || self.options.level_size_multiplier == 0 {
            return false;
        }
        if self.options.base_level_size_mb > usize::MAX / 0x10_0000 {
            return false;
        }
        let l0_is_due = snapshot.l0_sstables.len()
            >= self.options.level0_file_num_compaction_trigger;
        if l0_is_due && (snapshot.l0_sstables.len() == 0 || !snapshot.has_tables(
            &snapshot.l0_sstables,
        )) {
            return false;
        }
        let mut i: usize = 0;
        while i < n
            invariant
                i <= n,
                n == snapshot@.levels.len(),
                forall|l: int|
                    1 <= l <= i ==> snapshot@.is_sorted_run(#[trigger] snapshot@.level_ids(l)),
                forall|l: int| 1 <= l <= i ==> #[trigger] level_size(snapshot@, l) <= usize::MAX,
            decreases n - i,
        {
            if !snapshot.has_sorted_run(snapshot.level(i + 1)) {
                assert(!snapshot@.is_sorted_run(snapshot@.level_ids(i + 1)));
                return false;
            }
            if !Self::level_size_fits(snapshot, i + 1) {
                assert(!(level_size(snapshot@, i + 1) <= usize::MAX));
                return false;
            }
            i += 1;
        }
        true
    }

    /// Whether the task fits the state and, unless the state is being recovered, its tables are
    /// there and its keys name a range of the lower level.
    pub fn can_apply_result(
        &self,
        snapshot: &LsmStorageState,
        task: &LeveledCompactionTask,
        in_recovery: bool,
    ) -> (can: bool)
        ensures
            can == (task_fits(snapshot@, task@) && (in_recovery || task_is_live(
                snapshot@,
                task@,
            ))),
    {
        let n: usize = snapshot.levels.len();
        assert(n == snapshot@.levels.len());
        let upper = &task.upper_level_sst_ids;
        let lower = &task.lower_level_sst_ids;
        if task.lower_level < 1 || task.lower_level > n {
            return false;
        }
        match task.upper_level {
            Some(level) => {
                if level < 1 || level > n {
                    return false;
                }
                if !in_recovery && (upper.len() != 1 || !snapshot.has_sorted_run(
                    snapshot.level(level),
                )) {
                    return false;
                }
            },
            None => {
                if upper.len() > snapshot.l0_sstables.len() {
                    return false;
                }
                if !in_recovery && upper.len() == 0 {
                    return false;
                }
            },
        }
        if in_recovery {
            return true;
        }
        if !snapshot.has_tables(upper) || !snapshot.has_sorted_run(
            snapshot.level(task.lower_level),
        ) {
            return false;
        }
        if lower.len() > 0 && (!snapshot.has_table(lower[0]) || !snapshot.has_table(
            lower[lower.len() - 1],
        )) {
            return false;
        }
        let (_, start, end) = self.remove_upper(snapshot, task);
        start <= end
    }
}

proof fn lemma_total_size_grows(tables: Map<usize, TableView>, ids: Seq<usize>, k: int)
    requires
        0 <= k <= ids.len(),
    ensures
        total_size(tables, ids.take(k)) <= total_size(tables, ids),
    decreases ids.len(),
{
    if k < ids.len() {
        lemma_total_size_grows(tables, ids.drop_last(), k);
        assert(ids.drop_last().take(k) =~= ids.take(k));
    } else {
        assert(ids.take(k) =~= ids);
    }
}

/// If `a` is not below `b` then whatever ranks under `b` ranks under `a`.
proof fn lemma_priority_lt_transitive(
    size_a: nat,
    target_a: nat,
    size_b: nat,
    target_b: nat,
    size_c: nat,
    target_c: nat,
)
    requires
        !priority_lt(size_a, target_a, size_b, target_b),
    ensures
        priority_lt(size_c, target_c, size_b, target_b) ==> priority_lt(
            size_c,
            target_c,
            size_a,
            target_a,
        ),
        !priority_lt(size_b, target_b, size_c, target_c) ==> !priority_lt(
            size_a,
            target_a,
            size_c,
            target_c,
        ),
{
    if target_a != 0 && target_b != 0 && target_c != 0 {
        let a = rounded(double_of(size_a), double_of(target_a));
        let b = rounded(double_of(size_b), double_of(target_b));
        let c = rounded(double_of(size_c), double_of(target_c));
        if double_le(a, c) {
            lemma_double_le_transitive(b, a, c);
        }
        if double_le(c, b) {
            lemma_double_le_transitive(c, b, a);
        }
    }
}

} // verus!
