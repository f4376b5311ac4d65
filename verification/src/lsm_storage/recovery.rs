//! Bringing the storage state back from the records of the manifest.

use vstd::pervasive::unreached;
use vstd::prelude::*;

use super::{ids_of, is_at_most, levels_view, with_tables, LsmStorageState, StateView};
use crate::compact::leveled::starts_up_to;
use crate::compact::tiered::tier_ids;
use crate::compact::{state_after, CompactionController};
use crate::key::{key_le, lemma_key_le_transitive, lemma_key_lt_total, KeyView};
use crate::manifest::{ManifestRecord, RecordView};
use crate::search::{lemma_prefix_len, lemma_prefix_len_is, prefix_len};
use crate::table::TableView;

verus! {

impl StateView {
    /// The state with a table that has been flushed: the latest L0 table, or the first tier.
    pub open spec fn with_flushed(self, to_l0: bool, id: usize) -> StateView {
        if to_l0 {
            StateView { l0_sstables: seq![id] + self.l0_sstables, ..self }
        } else {
            StateView { levels: seq![(id, seq![id])] + self.levels, ..self }
        }
    }

    /// The ids of the tables: those of L0, then those of each level.
    pub open spec fn table_ids(self) -> Seq<usize> {
        self.l0_sstables + tier_ids(self.levels)
    }
}

impl CompactionController {
    /// The record can be replayed. Records of new memtables are not, and a compaction has to be one
    /// of this strategy's and fit the state.
    pub open spec fn can_replay_record(&self, v: StateView, record: RecordView) -> bool {
        match record {
            RecordView::Flush(_) => true,
            RecordView::NewMemtable(_) => false,
            RecordView::Compaction(task, output) => self.can_apply(v, task, output, true),
        }
    }

    /// The state after a record.
    pub open spec fn after_record(&self, v: StateView, record: RecordView) -> StateView {
        match record {
            RecordView::Flush(id) => v.with_flushed(!(self is Tiered), id),
            RecordView::NewMemtable(_) => v,
            RecordView::Compaction(task, output) => state_after(v, task, output, true),
        }
    }

    /// The state after some records, in their order.
    pub open spec fn after_records(&self, v: StateView, records: Seq<RecordView>) -> StateView
        decreases records.len(),
    {
        if records.len() == 0 {
            v
        } else {
            self.after_record(self.after_records(v, records.drop_last()), records.last())
        }
    }

    /// Each record can be replayed in the state after those before it.
    pub open spec fn can_replay(&self, v: StateView, records: Seq<RecordView>) -> bool {
        forall|i: int|
            0 <= i < records.len() ==> self.can_replay_record(
                self.after_records(v, records.take(i)),
                #[trigger] records[i],
            )
    }
}

/// What each record of a list is.
pub open spec fn records_view(records: Seq<ManifestRecord>) -> Seq<RecordView> {
    records.map_values(|record: ManifestRecord| record@)
}

impl LsmStorageState {
    /// Files a table that has been flushed as the latest L0 table, or as the first tier.
    pub(crate) fn add_flushed(&mut self, to_l0: bool, id: usize)
        ensures
            final(self)@ == old(self)@.with_flushed(to_l0, id),
    {
        if to_l0 {
            self.l0_sstables.insert(0, id);
            assert(self.l0_sstables@ =~= seq![id] + old(self).l0_sstables@);
        } else {
            let mut ids: Vec<usize> = Vec::new();
            ids.push(id);
            assert(ids@ =~= seq![id]);
            self.levels.insert(0, (id, ids));
            assert(levels_view(self.levels@) =~= seq![(id, seq![id])] + levels_view(
                old(self).levels@,
            ));
        }
    }

    /// The ids of the tables: those of L0, then those of each level.
    pub fn table_ids(&self) -> (ids: Vec<usize>)
        ensures
            ids@ == self@.table_ids(),
    {
        let mut ids: Vec<usize> = self.l0_sstables.clone();
        let mut rest = crate::compact::tiered::collect_tier_ids(&self.levels);
        ids.append(&mut rest);
        ids
    }
}

impl CompactionController {
    /// Whether a record can be replayed.
    pub fn can_apply_record(&self, state: &LsmStorageState, record: &ManifestRecord) -> (can: bool)
        ensures
            can == self.can_replay_record(state@, record@),
    {
        match record {
            ManifestRecord::Flush(_) => true,
            ManifestRecord::NewMemtable(_) => false,
            ManifestRecord::Compaction(task, output) => {
                self.can_apply_result(state, task, output.as_slice(), true)
            },
        }
    }

    /// Replays a record.
    pub fn apply_record(&self, state: LsmStorageState, record: &ManifestRecord) -> (after:
        LsmStorageState)
        requires
            self.can_replay_record(state@, record@),
        ensures
            after@ == self.after_record(state@, record@),
    {
        match record {
            ManifestRecord::Flush(id) => {
                let mut after = state;
                after.add_flushed(self.flush_to_l0(), *id);
                after
            },
            ManifestRecord::NewMemtable(_) => unreached(),
            ManifestRecord::Compaction(task, output) => {
                let (after, _) = self.apply_compaction_result(
                    &state,
                    task,
                    output.as_slice(),
                    true,
                );
                after
            },
        }
    }

    /// Whether each record can be replayed in the state after those before it.
    #[verifier::spinoff_prover]
    #[verifier::rlimit(40)]
    pub fn can_replay_records(
        &self,
        state: &LsmStorageState,
        records: &Vec<ManifestRecord>,
    ) -> (can: bool)
        ensures
            can == self.can_replay(state@, records_view(records@)),
    {
        let ghost views = records_view(records@);
        let mut after = state.clone();
        let mut i: usize = 0;
        assert(views.take(0) =~= Seq::empty());
        while i < records.len()
            invariant
                views == records_view(records@),
                i <= records@.len(),
                after@ == self.after_records(state@, views.take(i as int)),
                forall|k: int|
                    0 <= k < i ==> self.can_replay_record(
                        self.after_records(state@, views.take(k)),
                        #[trigger] views[k],
                    ),
            decreases records@.len() - i,
        {
            assert(views[i as int] == records@[i as int]@);
            if !self.can_apply_record(&after, &records[i]) {
                return false;
            }
            after = self.apply_record(after, &records[i]);
            i += 1;
            assert(views.take(i as int).drop_last() =~= views.take(i - 1));
        }
        true
    }

    /// The state after the records.
    pub fn replay_records(&self, state: LsmStorageState, records: &Vec<ManifestRecord>) -> (after:
        LsmStorageState)
        requires
            self.can_replay(state@, records_view(records@)),
        ensures
            after@ == self.after_records(state@, records_view(records@)),
    {
        let ghost views = records_view(records@);
        let ghost start = state@;
        let mut after = state;
        let mut i: usize = 0;
        assert(views.take(0) =~= Seq::empty());
        while i < records.len()
            invariant
                views == records_view(records@),
                self.can_replay(start, views),
                i <= records@.len(),
                after@ == self.after_records(start, views.take(i as int)),
            decreases records@.len() - i,
        {
            assert(views[i as int] == records@[i as int]@);
            after = self.apply_record(after, &records[i]);
            i += 1;
            assert(views.take(i as int).drop_last() =~= views.take(i - 1));
        }
        assert(views.take(i as int) =~= views);
        after
    }
}

/// The least number above all of the ids.
pub open spec fn next_id(ids: Seq<usize>) -> int
    decreases ids.len(),
{
    if ids.len() == 0 {
        0
    } else if ids.last() + 1 > next_id(ids.drop_last()) {
        ids.last() + 1
    } else {
        next_id(ids.drop_last())
    }
}

/// The next id lies above every id, and it is the least number that does.
pub proof fn lemma_next_id(ids: Seq<usize>)
    ensures
        forall|i: int| 0 <= i < ids.len() ==> #[trigger] ids[i] < next_id(ids),
        next_id(ids) == 0 || exists|i: int|
            0 <= i < ids.len() && (#[trigger] ids[i]) + 1 == next_id(ids),
        0 <= next_id(ids) <= usize::MAX + 1,
    decreases ids.len(),
{
    if ids.len() > 0 {
        let front = ids.drop_last();
        lemma_next_id(front);
        assert forall|i: int| 0 <= i < ids.len() implies #[trigger] ids[i] < next_id(ids) by {
            if i < front.len() {
                assert(front[i] == ids[i]);
            }
        }
        if ids.last() + 1 > next_id(front) {
            assert(ids[ids.len() - 1] + 1 == next_id(ids));
        } else if next_id(front) != 0 {
            let i = choose|i: int|
                0 <= i < front.len() && (#[trigger] front[i]) + 1 == next_id(front);
            assert(ids[i] + 1 == next_id(ids));
        }
    }
}

/// The least number above all of the ids.
pub fn find_next_id(ids: &Vec<usize>) -> (next: usize)
    requires
        next_id(ids@) <= usize::MAX,
    ensures
        next == next_id(ids@),
{
    let mut next: usize = 0;
    let mut i: usize = 0;
    while i < ids.len()
        invariant
            i <= ids@.len(),
            next_id(ids@) <= usize::MAX,
            next == next_id(ids@.take(i as int)),
        decreases ids@.len() - i,
    {
        proof {
            lemma_next_id(ids@);
            assert(ids@[i as int] < next_id(ids@));
            assert(ids@.take(i + 1).drop_last() =~= ids@.take(i as int));
        }
        if ids[i] + 1 > next {
            next = ids[i] + 1;
        }
        i += 1;
    }
    assert(ids@.take(i as int) =~= ids@);
    next
}

/// The ids in the order of the first keys of their tables. Tables with the same first key stay in
/// the order in which they were.
pub open spec fn sorted_by_first_key(tables: Map<usize, TableView>, ids: Seq<usize>) -> Seq<usize>
    decreases ids.len(),
{
    if ids.len() == 0 {
        ids
    } else {
        let front = sorted_by_first_key(tables, ids.drop_last());
        front.insert(
            prefix_len(front, starts_up_to(tables, tables[ids.last()].first_key)) as int,
            ids.last(),
        )
    }
}

/// The first key of the table is this one.
pub open spec fn starts_at(tables: Map<usize, TableView>, key: KeyView) -> spec_fn(usize) -> bool {
    |id: usize| tables[id].first_key == key
}

/// The first keys of the tables go up.
pub open spec fn first_keys_ascend(tables: Map<usize, TableView>, ids: Seq<usize>) -> bool {
    forall|i: int, j: int|
        0 <= i < j < ids.len() ==> key_le(
            tables[#[trigger] ids[i]].first_key,
            tables[#[trigger] ids[j]].first_key,
        )
}

proof fn lemma_insert_keeps_ascending(
    tables: Map<usize, TableView>,
    sorted: Seq<usize>,
    id: usize,
    pos: int,
)
    requires
        first_keys_ascend(tables, sorted),
        pos == prefix_len(sorted, starts_up_to(tables, tables[id].first_key)),
    ensures
        0 <= pos <= sorted.len(),
        first_keys_ascend(tables, sorted.insert(pos, id)),
        forall|i: int|
            0 <= i < pos ==> key_le(tables[#[trigger] sorted[i]].first_key, tables[id].first_key),
        forall|i: int|
            pos <= i < sorted.len() ==> !key_le(
                tables[#[trigger] sorted[i]].first_key,
                tables[id].first_key,
            ),
{
    let key = tables[id].first_key;
    let p = starts_up_to(tables, key);
    lemma_prefix_len(sorted, p);
    assert forall|i: int| 0 <= i < pos implies key_le(
        tables[#[trigger] sorted[i]].first_key,
        key,
    ) by {
        assert(p(sorted[i]));
    }
    assert forall|i: int| pos <= i < sorted.len() implies !key_le(
        tables[#[trigger] sorted[i]].first_key,
        key,
    ) && key_le(key, tables[sorted[i]].first_key) by {
        assert(!p(sorted[pos]));
        let at = tables[sorted[pos]].first_key;
        let own = tables[sorted[i]].first_key;
        if i > pos {
            assert(key_le(at, own));
            if key_le(own, key) {
                lemma_key_le_transitive(at, own, key);
            }
        }
        lemma_key_lt_total(key, own);
    }
    let inserted = sorted.insert(pos, id);
    assert forall|i: int, j: int| 0 <= i < j < inserted.len() implies key_le(
        tables[#[trigger] inserted[i]].first_key,
        tables[#[trigger] inserted[j]].first_key,
    ) by {
        let a = if i < pos {
            i
        } else {
            i - 1
        };
        let b = if j < pos {
            j
        } else {
            j - 1
        };
        if i != pos {
            assert(inserted[i] == sorted[a]);
        }
        if j != pos {
            assert(inserted[j] == sorted[b]);
        }
    }
}

/// Sorting by first key puts the first keys in ascending order.
pub proof fn lemma_sorted_ascends(tables: Map<usize, TableView>, ids: Seq<usize>)
    ensures
        first_keys_ascend(tables, sorted_by_first_key(tables, ids)),
    decreases ids.len(),
{
    if ids.len() > 0 {
        lemma_sorted_ascends(tables, ids.drop_last());
        let front = sorted_by_first_key(tables, ids.drop_last());
        let pos = prefix_len(front, starts_up_to(tables, tables[ids.last()].first_key)) as int;
        lemma_insert_keeps_ascending(tables, front, ids.last(), pos);
    }
}

/// Sorting by first key keeps the tables.
pub proof fn lemma_sorted_keeps_tables(tables: Map<usize, TableView>, ids: Seq<usize>)
    ensures
        sorted_by_first_key(tables, ids).to_multiset() == ids.to_multiset(),
        sorted_by_first_key(tables, ids).len() == ids.len(),
    decreases ids.len(),
{
    broadcast use vstd::seq_lib::group_to_multiset_ensures;

    if ids.len() > 0 {
        let last = ids.last();
        lemma_sorted_keeps_tables(tables, ids.drop_last());
        let front = sorted_by_first_key(tables, ids.drop_last());
        let pos = prefix_len(front, starts_up_to(tables, tables[last].first_key)) as int;
        lemma_prefix_len(front, starts_up_to(tables, tables[last].first_key));
        assert(ids =~= ids.drop_last().push(last));
        vstd::seq_lib::to_multiset_insert(front, pos, last);
    }
}

pub(crate) proof fn lemma_filter_none(ids: Seq<usize>, p: spec_fn(usize) -> bool)
    requires
        forall|i: int| 0 <= i < ids.len() ==> !p(#[trigger] ids[i]),
    ensures
        ids.filter(p) == Seq::<usize>::empty(),
    decreases ids.len(),
{
    reveal(Seq::filter);
    if ids.len() > 0 {
        let front = ids.drop_last();
        assert(!p(ids[ids.len() - 1]));
        assert forall|i: int| 0 <= i < front.len() implies !p(#[trigger] front[i]) by {
            assert(front[i] == ids[i]);
        }
        lemma_filter_none(front, p);
    }
}

/// Sorting by first key leaves tables with the same first key in the order in which they were.
pub proof fn lemma_sorted_is_stable(tables: Map<usize, TableView>, ids: Seq<usize>, key: KeyView)
    ensures
        sorted_by_first_key(tables, ids).filter(starts_at(tables, key)) == ids.filter(
            starts_at(tables, key),
        ),
    decreases ids.len(),
{
    reveal(Seq::filter);
    if ids.len() > 0 {
        let last = ids.last();
        let at = starts_at(tables, key);
        lemma_sorted_is_stable(tables, ids.drop_last(), key);
        lemma_sorted_ascends(tables, ids.drop_last());
        let front = sorted_by_first_key(tables, ids.drop_last());
        let pos = prefix_len(front, starts_up_to(tables, tables[last].first_key)) as int;
        lemma_insert_keeps_ascending(tables, front, last, pos);
        let (head, tail) = (front.take(pos), front.skip(pos));
        assert(front =~= head + tail);
        assert(front.insert(pos, last) =~= head.push(last) + tail);
        Seq::filter_distributes_over_add(head, tail, at);
        Seq::filter_distributes_over_add(head.push(last), tail, at);
        assert(head.push(last).drop_last() =~= head);
        if at(last) {
            assert forall|i: int| 0 <= i < tail.len() implies !at(#[trigger] tail[i]) by {
                assert(tail[i] == front[pos + i]);
            }
            lemma_filter_none(tail, at);
            assert(front.insert(pos, last).filter(at) =~= front.filter(at).push(last));
        } else {
            assert(front.insert(pos, last).filter(at) =~= front.filter(at));
        }
    }
}

/// The levels, each with its tables in the order of their first keys.
pub open spec fn sorted_levels(
    tables: Map<usize, TableView>,
    levels: Seq<(usize, Seq<usize>)>,
) -> Seq<(usize, Seq<usize>)> {
    levels.map_values(
        |level: (usize, Seq<usize>)| (level.0, sorted_by_first_key(tables, level.1)),
    )
}

impl StateView {
    /// The state once the tables that it names are open, with a memtable numbered above them. For
    /// leveled compaction the tables of each level are put in order.
    pub open spec fn opened(self, tables: Seq<TableView>, leveled: bool) -> StateView {
        let map = with_tables(self.sstables, tables);
        StateView {
            memtable: next_id(self.table_ids()) as usize,
            sstables: map,
            levels: if leveled {
                sorted_levels(map, self.levels)
            } else {
                self.levels
            },
            ..self
        }
    }
}

/// Each table id of a level is one of the table ids.
pub(crate) proof fn lemma_level_ids_are_table_ids(v: StateView)
    ensures
        forall|level: int, i: int|
            1 <= level <= v.levels.len() && 0 <= i < v.level_ids(level).len()
                ==> v.table_ids().contains(#[trigger] v.level_ids(level)[i]),
{
    assert forall|level: int, i: int|
        1 <= level <= v.levels.len() && 0 <= i < v.level_ids(
            level,
        ).len() implies v.table_ids().contains(#[trigger] v.level_ids(level)[i]) by {
        let id = v.level_ids(level)[i];
        lemma_tier_ids_contains(v.levels, level - 1, i);
        let k = choose|k: int| 0 <= k < tier_ids(v.levels).len() && tier_ids(v.levels)[k] == id;
        assert(v.table_ids()[v.l0_sstables.len() + k] == id);
    }
}

proof fn lemma_tier_ids_contains(tiers: Seq<(usize, Seq<usize>)>, tier: int, i: int)
    requires
        0 <= tier < tiers.len(),
        0 <= i < tiers[tier].1.len(),
    ensures
        tier_ids(tiers).contains(tiers[tier].1[i]),
    decreases tiers.len(),
{
    let id = tiers[tier].1[i];
    let front = tier_ids(tiers.drop_last());
    if tier == tiers.len() - 1 {
        assert(tier_ids(tiers)[front.len() + i] == id);
    } else {
        lemma_tier_ids_contains(tiers.drop_last(), tier, i);
        let k = choose|k: int| 0 <= k < front.len() && front[k] == id;
        assert(tier_ids(tiers)[k] == id);
    }
}

/// Each table that was put in is there.
pub(crate) proof fn lemma_with_tables_has(map: Map<usize, TableView>, tables: Seq<TableView>)
    ensures
        forall|id: usize| ids_of(tables).contains(id) ==> #[trigger] with_tables(
            map,
            tables,
        ).contains_key(id),
    decreases tables.len(),
{
    if tables.len() > 0 {
        let front = tables.drop_last();
        lemma_with_tables_has(map, front);
        assert forall|id: usize| ids_of(tables).contains(id) implies #[trigger] with_tables(
            map,
            tables,
        ).contains_key(id) by {
            let k = choose|k: int| 0 <= k < tables.len() && ids_of(tables)[k] == id;
            if k < front.len() {
                assert(ids_of(front)[k] == id);
                assert(with_tables(map, front).contains_key(id));
            }
        }
    }
}

impl LsmStorageState {
    /// The ids in the order of the first keys of their tables.
    fn sort_by_first_key(&self, ids: &Vec<usize>) -> (sorted: Vec<usize>)
        requires
            forall|i: int| 0 <= i < ids@.len() ==> self@.sstables.contains_key(#[trigger] ids@[i]),
        ensures
            sorted@ == sorted_by_first_key(self@.sstables, ids@),
    {
        let ghost tables = self@.sstables;
        let mut sorted: Vec<usize> = Vec::new();
        let mut i: usize = 0;
        while i < ids.len()
            invariant
                tables == self@.sstables,
                i <= ids@.len(),
                forall|k: int|
                    0 <= k < ids@.len() ==> self@.sstables.contains_key(#[trigger] ids@[k]),
                sorted@ == sorted_by_first_key(tables, ids@.take(i as int)),
                forall|k: int|
                    0 <= k < sorted@.len() ==> self@.sstables.contains_key(#[trigger] sorted@[k]),
            decreases ids@.len() - i,
        {
            let id: usize = ids[i];
            let key = self.table(id).first_key();
            let ghost p = starts_up_to(tables, key@);
            let mut pos: usize = 0;
            while pos < sorted.len() && is_at_most(self.table(sorted[pos]).first_key(), key)
                invariant
                    tables == self@.sstables,
                    p == starts_up_to(tables, key@),
                    pos <= sorted@.len(),
                    forall|k: int|
                        0 <= k < sorted@.len() ==> self@.sstables.contains_key(
                            #[trigger] sorted@[k],
                        ),
                    forall|k: int| 0 <= k < pos ==> p(#[trigger] sorted@[k]),
                ensures
                    pos <= sorted@.len(),
                    forall|k: int| 0 <= k < pos ==> p(#[trigger] sorted@[k]),
                    pos < sorted@.len() ==> !p(sorted@[pos as int]),
                decreases sorted@.len() - pos,
            {
                pos += 1;
            }
            let ghost before = sorted@;
            proof {
                lemma_prefix_len_is(before, p, pos as nat);
                assert(ids@.take(i + 1).drop_last() =~= ids@.take(i as int));
                assert(ids@.take(i + 1).last() == id);
            }
            sorted.insert(pos, id);
            i += 1;
            proof {
                assert forall|k: int| 0 <= k < sorted@.len() implies self@.sstables.contains_key(
                    #[trigger] sorted@[k],
                ) by {
                    if k < pos {
                        assert(sorted@[k] == before[k]);
                    } else if k > pos {
                        assert(sorted@[k] == before[k - 1]);
                    }
                }
            }
        }
        assert(ids@.take(i as int) =~= ids@);
        sorted
    }

    /// Puts the tables of each level in the order of their first keys.
    pub(crate) fn sort_levels(&mut self)
        requires
            forall|level: int, i: int|
                1 <= level <= old(self)@.levels.len() && 0 <= i < old(self)@.level_ids(level).len()
                    ==> old(self)@.sstables.contains_key(
                    #[trigger] old(self)@.level_ids(level)[i],
                ),
        ensures
            final(self)@ == (StateView {
                levels: sorted_levels(old(self)@.sstables, old(self)@.levels),
                ..old(self)@
            }),
    {
        let n: usize = self.levels.len();
        let ghost v = self@;
        assert(n == v.levels.len());
        let mut i: usize = 0;
        while i < n
            invariant
                i <= n == v.levels.len(),
                v == old(self)@,
                forall|level: int, k: int|
                    1 <= level <= v.levels.len() && 0 <= k < v.level_ids(level).len()
                        ==> v.sstables.contains_key(#[trigger] v.level_ids(level)[k]),
                self@ == (StateView {
                    levels: sorted_levels(v.sstables, v.levels).take(i as int) + v.levels.skip(
                        i as int,
                    ),
                    ..v
                }),
            decreases n - i,
        {
            assert(self@.levels[i as int] == v.levels[i as int]);
            assert(self@.level_ids(i + 1) == v.level_ids(i + 1));
            assert forall|k: int|
                0 <= k < v.level_ids(i + 1).len() implies self@.sstables.contains_key(
                #[trigger] self@.level_ids(i + 1)[k],
            ) by {
                assert(v.sstables.contains_key(v.level_ids(i + 1)[k]));
            }
            let sorted = self.sort_by_first_key(self.level(i + 1));
            self.set_level_ids(i + 1, sorted);
            i += 1;
            assert(self@.levels =~= sorted_levels(v.sstables, v.levels).take(i as int)
                + v.levels.skip(i as int));
        }
        assert(self@.levels =~= sorted_levels(v.sstables, v.levels));
    }
}

} // verus!
