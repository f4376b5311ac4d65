//! The storage state: which memtables and tables there are, and in which order they are read.

pub mod compacting;
pub mod contents;
pub mod inner;
pub mod invariants;
pub mod leveled_contents;
pub mod lookups;
pub mod merging;
pub mod operations;
pub mod read;
pub mod recovery;
pub mod replacement;
pub mod replay;
pub mod scanning;

use std::collections::HashMap;
use std::sync::Arc;

use bytes::Bytes;
use vstd::prelude::*;

use crate::codec::{bytes_clone, bytes_view};
use crate::compact::CompactionOptions;
use crate::ids::{are_distinct, contains_id};
use crate::key::{
    key_le, key_lt, lemma_key_le_transitive, lemma_key_lt_irreflexive, lemma_key_lt_total,
    lemma_key_lt_transitive, KeyBytes,
};
use crate::mem_table::MemTable;
use crate::table::{SsTable, TableView};

verus! {

/// Represents the state of the storage engine.
pub struct LsmStorageState {
    /// The current memtable.
    pub memtable: Arc<MemTable>,
    /// Immutable memtables, from latest to earliest.
    pub imm_memtables: Vec<Arc<MemTable>>,
    /// L0 SSTs, from latest to earliest.
    pub l0_sstables: Vec<usize>,
    /// SsTables sorted by key range; L1 - L_max for leveled compaction, or tiers for tiered
    /// compaction.
    pub levels: Vec<(usize, Vec<usize>)>,
    /// SST objects.
    pub sstables: HashMap<usize, Arc<SsTable>>,
}

/// What an `LsmStorageState` stands for.
#[verifier::ext_equal]
pub struct StateView {
    pub memtable: usize,
    pub imm_memtables: Seq<usize>,
    pub l0_sstables: Seq<usize>,
    pub levels: Seq<(usize, Seq<usize>)>,
    pub sstables: Map<usize, TableView>,
}

impl StateView {
    /// The table ids of a level, counted from 1.
    pub open spec fn level_ids(self, level: int) -> Seq<usize> {
        self.levels[level - 1].1
    }

    /// The state with other table ids in a level, counted from 1.
    pub open spec fn with_level_ids(self, level: int, ids: Seq<usize>) -> StateView {
        StateView {
            levels: self.levels.update(level - 1, (self.levels[level - 1].0, ids)),
            ..self
        }
    }

    /// The tables of the list are there, each filed under its own id and with a range of keys.
    pub open spec fn holds(self, ids: Seq<usize>) -> bool {
        forall|i: int|
            0 <= i < ids.len() ==> {
                &&& self.sstables.contains_key(#[trigger] ids[i])
                &&& self.sstables[ids[i]].id == ids[i]
                &&& key_le(self.sstables[ids[i]].first_key, self.sstables[ids[i]].last_key)
            }
    }

    /// The tables of the list are there, and sorted by key range.
    pub open spec fn is_sorted_run(self, ids: Seq<usize>) -> bool {
        &&& self.holds(ids)
        &&& forall|i: int, j: int|
            0 <= i < j < ids.len() ==> key_le(
                self.sstables[#[trigger] ids[i]].first_key,
                self.sstables[#[trigger] ids[j]].first_key,
            ) && key_le(self.sstables[ids[i]].last_key, self.sstables[ids[j]].last_key)
    }

    /// The tables with the given ids.
    pub open spec fn tables_of(self, ids: Seq<usize>) -> Seq<TableView> {
        ids.map_values(|id: usize| self.sstables[id])
    }

    /// Every level is sorted by key range.
    pub open spec fn levels_sorted(self) -> bool {
        forall|level: int|
            1 <= level <= self.levels.len() ==> self.is_sorted_run(#[trigger] self.level_ids(level))
    }
}

/// What each table of a list is.
pub open spec fn tables_view(tables: Seq<Arc<SsTable>>) -> Seq<TableView> {
    tables.map_values(|table: Arc<SsTable>| table@)
}

/// The ids of some tables.
pub open spec fn ids_of(tables: Seq<TableView>) -> Seq<usize> {
    tables.map_values(|table: TableView| table.id)
}

/// The tables by id, with some more of them.
pub open spec fn with_tables(map: Map<usize, TableView>, tables: Seq<TableView>) -> Map<
    usize,
    TableView,
>
    decreases tables.len(),
{
    if tables.len() == 0 {
        map
    } else {
        with_tables(map, tables.drop_last()).insert(tables.last().id, tables.last())
    }
}

/// The number and the table ids of each level.
pub open spec fn levels_view(levels: Seq<(usize, Vec<usize>)>) -> Seq<(usize, Seq<usize>)> {
    levels.map_values(|level: (usize, Vec<usize>)| (level.0, level.1@))
}

impl View for LsmStorageState {
    type V = StateView;

    open spec fn view(&self) -> StateView {
        StateView {
            memtable: self.memtable@,
            imm_memtables: self.imm_memtables@.map_values(|m: Arc<MemTable>| m@),
            l0_sstables: self.l0_sstables@,
            levels: levels_view(self.levels@),
            sstables: self.sstables@.map_values(|t: Arc<SsTable>| t@),
        }
    }
}

/// A copy of a list of levels.
pub(crate) fn clone_levels(levels: &Vec<(usize, Vec<usize>)>) -> (copy: Vec<(usize, Vec<usize>)>)
    ensures
        levels_view(copy@) == levels_view(levels@),
        copy@.len() == levels@.len(),
{
    let mut copy: Vec<(usize, Vec<usize>)> = Vec::new();
    let mut i: usize = 0;
    while i < levels.len()
        invariant
            i <= levels@.len(),
            copy@.len() == i,
            forall|j: int|
                0 <= j < i ==> (#[trigger] copy@[j]).0 == levels@[j].0 && copy@[j].1@
                    == levels@[j].1@,
        decreases levels@.len() - i,
    {
        copy.push((levels[i].0, levels[i].1.clone()));
        i += 1;
    }
    assert(levels_view(copy@) =~= levels_view(levels@));
    copy
}

impl Clone for LsmStorageState {
    fn clone(&self) -> (copy: Self)
        ensures
            copy@ == self@,
    {
        let mut imm_memtables: Vec<Arc<MemTable>> = Vec::new();
        let mut i: usize = 0;
        while i < self.imm_memtables.len()
            invariant
                i <= self.imm_memtables@.len(),
                imm_memtables@ == self.imm_memtables@.take(i as int),
            decreases self.imm_memtables@.len() - i,
        {
            imm_memtables.push(self.imm_memtables[i].clone());
            i += 1;
            assert(imm_memtables@ =~= self.imm_memtables@.take(i as int));
        }
        assert(imm_memtables@ =~= self.imm_memtables@);
        LsmStorageState {
            memtable: self.memtable.clone(),
            imm_memtables,
            l0_sstables: self.l0_sstables.clone(),
            levels: clone_levels(&self.levels),
            sstables: self.sstables.clone(),
        }
    }
}

/// Whether key `a` is `b` or comes before it.
fn is_at_most(a: &KeyBytes, b: &KeyBytes) -> (at_most: bool)
    ensures
        at_most == key_le(a@, b@),
{
    proof {
        lemma_key_lt_total(a@, b@);
        lemma_key_lt_irreflexive(a@);
        if key_lt(a@, b@) && key_lt(b@, a@) {
            lemma_key_lt_transitive(a@, b@, a@);
        }
    }
    !b.as_key_slice().is_less(&a.as_key_slice())
}

/// One write of a batch.
#[derive(Debug)]
pub enum WriteBatchRecord<T> {
    Put(T, T),
    Del(T),
}

/// How a storage engine is set up.
#[derive(Debug, Clone, Copy)]
pub struct LsmStorageOptions {
    // Block size in bytes
    pub block_size: usize,
    // SST size in bytes, also the approximate memtable capacity limit
    pub target_sst_size: usize,
    // Maximum number of memtables in memory, flush to L0 when exceeding this limit
    pub num_memtable_limit: usize,
    pub compaction_options: CompactionOptions,
    pub enable_wal: bool,
    pub serializable: bool,
}

impl LsmStorageOptions {
    /// No compaction, tables of 2 MB and up to 50 memtables.
    pub fn default_for_week1_test() -> (options: Self)
        ensures
            options == (LsmStorageOptions {
                block_size: 4096,
                target_sst_size: 0x20_0000,
                num_memtable_limit: 50,
                compaction_options: CompactionOptions::NoCompaction,
                enable_wal: false,
                serializable: false,
            }),
    {
        LsmStorageOptions {
            block_size: 4096,
            target_sst_size: 2 * 1024 * 1024,
            num_memtable_limit: 50,
            compaction_options: CompactionOptions::NoCompaction,
            enable_wal: false,
            serializable: false,
        }
    }

    /// No compaction, tables of 2 MB and up to 2 memtables.
    pub fn default_for_week1_day6_test() -> (options: Self)
        ensures
            options == (LsmStorageOptions {
                block_size: 4096,
                target_sst_size: 0x20_0000,
                num_memtable_limit: 2,
                compaction_options: CompactionOptions::NoCompaction,
                enable_wal: false,
                serializable: false,
            }),
    {
        LsmStorageOptions {
            block_size: 4096,
            target_sst_size: 2 * 1024 * 1024,
            num_memtable_limit: 2,
            compaction_options: CompactionOptions::NoCompaction,
            enable_wal: false,
            serializable: false,
        }
    }

    /// The given compaction, tables of 1 MB and up to 2 memtables.
    pub fn default_for_week2_test(compaction_options: CompactionOptions) -> (options: Self)
        ensures
            options == (LsmStorageOptions {
                block_size: 4096,
                target_sst_size: 0x10_0000,
                num_memtable_limit: 2,
                compaction_options,
                enable_wal: false,
                serializable: false,
            }),
    {
        LsmStorageOptions {
            block_size: 4096,
            target_sst_size: 1024 * 1024,  // 1MB
            num_memtable_limit: 2,
            compaction_options,
            enable_wal: false,
            serializable: false,
        }
    }
}

/// Which entries a compaction may drop.
#[derive(Debug)]
pub enum CompactionFilter {
    Prefix(Bytes),
}

/// What a `CompactionFilter` stands for.
#[verifier::ext_equal]
pub enum FilterView {
    Prefix(Seq<u8>),
}

impl View for CompactionFilter {
    type V = FilterView;

    open spec fn view(&self) -> FilterView {
        match self {
            CompactionFilter::Prefix(prefix) => FilterView::Prefix(bytes_view(*prefix)),
        }
    }
}

impl Clone for CompactionFilter {
    fn clone(&self) -> (copy: Self)
        ensures
            copy@ == self@,
    {
        match self {
            CompactionFilter::Prefix(prefix) => CompactionFilter::Prefix(bytes_clone(prefix)),
        }
    }
}

/// The levels of an empty engine: as many as the strategy has, no tiers for tiered compaction, and
/// one level without compaction.
pub open spec fn initial_levels(options: CompactionOptions) -> Seq<(usize, Seq<usize>)> {
    match options {
        CompactionOptions::Leveled(o) => empty_levels(o.max_levels as nat),
        CompactionOptions::Simple(o) => empty_levels(o.max_levels as nat),
        CompactionOptions::Tiered(_) => Seq::empty(),
        CompactionOptions::NoCompaction => empty_levels(1),
    }
}

/// Levels numbered from 1, without tables.
pub open spec fn empty_levels(count: nat) -> Seq<(usize, Seq<usize>)> {
    Seq::new(count, |i: int| ((i + 1) as usize, Seq::<usize>::empty()))
}

/// The state of an empty engine.
pub open spec fn initial_state(options: CompactionOptions) -> StateView {
    StateView {
        memtable: 0,
        imm_memtables: Seq::empty(),
        l0_sstables: Seq::empty(),
        levels: initial_levels(options),
        sstables: Map::empty(),
    }
}

/// Levels numbered from 1, without tables.
fn make_empty_levels(count: usize) -> (levels: Vec<(usize, Vec<usize>)>)
    ensures
        levels_view(levels@) == empty_levels(count as nat),
{
    let mut levels: Vec<(usize, Vec<usize>)> = Vec::new();
    let mut i: usize = 0;
    while i < count
        invariant
            i <= count,
            levels@.len() == i,
            forall|k: int|
                0 <= k < i ==> (#[trigger] levels@[k]).0 == k + 1 && levels@[k].1@ == Seq::<
                    usize,
                >::empty(),
        decreases count - i,
    {
        levels.push((i + 1, Vec::new()));
        i += 1;
    }
    assert(levels_view(levels@) =~= empty_levels(count as nat));
    levels
}

/// The ids of some tables.
pub(crate) fn collect_ids(tables: &Vec<Arc<SsTable>>) -> (ids: Vec<usize>)
    ensures
        ids@ == ids_of(tables_view(tables@)),
{
    let mut ids: Vec<usize> = Vec::new();
    let mut i: usize = 0;
    while i < tables.len()
        invariant
            i <= tables@.len(),
            ids@.len() == i,
            forall|k: int| 0 <= k < i ==> #[trigger] ids@[k] == tables@[k]@.id,
        decreases tables@.len() - i,
    {
        ids.push(tables[i].sst_id());
        i += 1;
    }
    assert(ids@ =~= ids_of(tables_view(tables@)));
    ids
}

impl LsmStorageState {
    /// The state of an empty engine.
    pub fn create(options: &LsmStorageOptions) -> (state: Self)
        ensures
            state@ == initial_state(options.compaction_options),
    {
        broadcast use vstd::std_specs::hash::group_hash_axioms;

        let levels = match &options.compaction_options {
            CompactionOptions::Leveled(o) => make_empty_levels(o.max_levels),
            CompactionOptions::Simple(o) => make_empty_levels(o.max_levels),
            CompactionOptions::Tiered(_) => {
                let none: Vec<(usize, Vec<usize>)> = Vec::new();
                assert(levels_view(none@) =~= Seq::empty());
                none
            },
            CompactionOptions::NoCompaction => make_empty_levels(1),
        };
        let state = LsmStorageState {
            memtable: Arc::new(MemTable::create(0)),
            imm_memtables: Vec::new(),
            l0_sstables: Vec::new(),
            levels,
            sstables: HashMap::new(),
        };
        assert(state@.imm_memtables =~= Seq::empty());
        assert(state@.sstables =~= Map::empty());
        state
    }

    /// Takes tables out.
    pub fn remove_sst_batch(&mut self, ids: &Vec<usize>)
        requires
            ids@.no_duplicates(),
            forall|i: int|
                0 <= i < ids@.len() ==> old(self)@.sstables.contains_key(#[trigger] ids@[i]),
        ensures
            final(self)@ == (StateView {
                sstables: old(self)@.sstables.remove_keys(ids@.to_set()),
                ..old(self)@
            }),
    {
        broadcast use vstd::std_specs::hash::group_hash_axioms;

        let mut i: usize = 0;
        while i < ids.len()
            invariant
                i <= ids@.len(),
                self.memtable == old(self).memtable,
                self.imm_memtables == old(self).imm_memtables,
                self.l0_sstables == old(self).l0_sstables,
                self.levels == old(self).levels,
                forall|id: usize| #[trigger]
                    self.sstables@.contains_key(id) == (old(self).sstables@.contains_key(id)
                        && !ids@.take(i as int).contains(id)),
                forall|id: usize| #[trigger]
                    self.sstables@.contains_key(id) ==> self.sstables@[id]
                        == old(self).sstables@[id],
            decreases ids@.len() - i,
        {
            let ghost before = ids@.take(i as int);
            self.sstables.remove(&ids[i]);
            i += 1;
            proof {
                let after = ids@.take(i as int);
                assert(after =~= before.push(ids@[i - 1]));
                assert forall|id: usize| #[trigger] after.contains(id) == (before.contains(id) || id
                    == ids@[i - 1]) by {
                    if before.contains(id) {
                        let k = choose|k: int| 0 <= k < before.len() && before[k] == id;
                        assert(after[k] == id);
                    }
                    if id == ids@[i - 1] {
                        assert(after[i - 1] == id);
                    }
                    if after.contains(id) {
                        let k = choose|k: int| 0 <= k < after.len() && after[k] == id;
                        if k < i - 1 {
                            assert(before[k] == id);
                        }
                    }
                }
            }
        }
        assert(ids@.take(i as int) =~= ids@);
        assert(self@.sstables =~= old(self)@.sstables.remove_keys(ids@.to_set()));
    }

    /// Puts new tables in.
    pub fn add_sst_batch(&mut self, tables: Vec<Arc<SsTable>>)
        requires
            ids_of(tables_view(tables@)).no_duplicates(),
            forall|i: int|
                0 <= i < tables@.len() ==> !old(self)@.sstables.contains_key(
                    (#[trigger] tables@[i])@.id,
                ),
        ensures
            final(self)@ == (StateView {
                sstables: with_tables(old(self)@.sstables, tables_view(tables@)),
                ..old(self)@
            }),
    {
        self.open_tables(tables);
    }

    /// Puts tables in, each in the place of one with the same id if there is one.
    pub(crate) fn open_tables(&mut self, tables: Vec<Arc<SsTable>>)
        ensures
            final(self)@ == (StateView {
                sstables: with_tables(old(self)@.sstables, tables_view(tables@)),
                ..old(self)@
            }),
    {
        broadcast use vstd::std_specs::hash::group_hash_axioms;

        let ghost views = tables_view(tables@);
        let mut i: usize = 0;
        assert(views.take(0) =~= Seq::empty());
        while i < tables.len()
            invariant
                i <= tables@.len(),
                views == tables_view(tables@),
                self.memtable == old(self).memtable,
                self.imm_memtables == old(self).imm_memtables,
                self.l0_sstables == old(self).l0_sstables,
                self.levels == old(self).levels,
                self@.sstables == with_tables(old(self)@.sstables, views.take(i as int)),
            decreases tables@.len() - i,
        {
            let ghost map = self.sstables@;
            self.sstables.insert(tables[i].sst_id(), tables[i].clone());
            i += 1;
            proof {
                let after = views.take(i as int);
                assert(after.drop_last() =~= views.take(i - 1));
                assert(after.last() == tables@[i - 1]@);
                assert(self@.sstables =~= map.map_values(|t: Arc<SsTable>| t@).insert(
                    after.last().id,
                    after.last(),
                ));
            }
        }
        assert(views.take(i as int) =~= views);
    }

    /// The tables with the given ids.
    pub fn collect_sst_from_ids(&self, ids: &[usize]) -> (tables: Vec<Arc<SsTable>>)
        requires
            forall|i: int| 0 <= i < ids@.len() ==> self@.sstables.contains_key(#[trigger] ids@[i]),
        ensures
            tables_view(tables@) == self@.tables_of(ids@),
    {
        broadcast use vstd::std_specs::hash::group_hash_axioms;

        let mut tables: Vec<Arc<SsTable>> = Vec::new();
        let mut i: usize = 0;
        while i < ids.len()
            invariant
                i <= ids@.len(),
                forall|k: int|
                    0 <= k < ids@.len() ==> self@.sstables.contains_key(#[trigger] ids@[k]),
                tables@.len() == i,
                forall|k: int|
                    0 <= k < i ==> (#[trigger] tables@[k])@ == self@.sstables[ids@[k]],
            decreases ids@.len() - i,
        {
            let id: usize = ids[i];
            assert(self@.sstables.contains_key(ids@[i as int]));
            tables.push(self.sstables.get(&id).unwrap().clone());
            i += 1;
        }
        assert(tables_view(tables@) =~= self@.tables_of(ids@));
        tables
    }

    /// Takes tables out and puts new ones in.
    pub(crate) fn replace_tables(&mut self, gone: &Vec<usize>, tables: Vec<Arc<SsTable>>)
        requires
            old(self)@.can_replace(gone@, tables_view(tables@)),
        ensures
            final(self)@ == old(self)@.replaced(gone@, tables_view(tables@)),
    {
        self.remove_sst_batch(gone);
        proof {
            let views = tables_view(tables@);
            assert forall|i: int| 0 <= i < tables@.len() implies !self@.sstables.contains_key(
                (#[trigger] tables@[i])@.id,
            ) by {
                assert(views[i] == tables@[i]@);
            }
        }
        self.add_sst_batch(tables);
    }

    /// Whether the tables `gone` are there and can be replaced by new ones.
    pub fn can_replace(&self, gone: &Vec<usize>, tables: &Vec<Arc<SsTable>>) -> (can: bool)
        ensures
            can == self@.can_replace(gone@, tables_view(tables@)),
    {
        let ghost views = tables_view(tables@);
        if !are_distinct(gone) {
            return false;
        }
        let mut i: usize = 0;
        while i < gone.len()
            invariant
                i <= gone@.len(),
                forall|k: int| 0 <= k < i ==> self@.sstables.contains_key(#[trigger] gone@[k]),
            decreases gone@.len() - i,
        {
            if !self.has_table(gone[i]) {
                assert(!self@.sstables.contains_key(gone@[i as int]));
                return false;
            }
            i += 1;
        }
        let ids = collect_ids(tables);
        if !are_distinct(&ids) {
            return false;
        }
        let mut i: usize = 0;
        while i < ids.len()
            invariant
                i <= ids@.len(),
                views == tables_view(tables@),
                ids@ == ids_of(views),
                forall|k: int|
                    0 <= k < i ==> !self@.sstables.contains_key((#[trigger] views[k]).id)
                        || gone@.contains(views[k].id),
            decreases ids@.len() - i,
        {
            assert(ids@[i as int] == views[i as int].id);
            if self.has_table(ids[i]) && !contains_id(gone, ids[i]) {
                assert(self@.sstables.contains_key(views[i as int].id));
                return false;
            }
            i += 1;
        }
        true
    }

    /// Whether there is a table with the given id.
    pub fn has_table(&self, id: usize) -> (has: bool)
        ensures
            has == self@.sstables.contains_key(id),
    {
        broadcast use vstd::std_specs::hash::group_hash_axioms;

        self.sstables.contains_key(&id)
    }

    /// Whether the tables of the list are there, each filed under its own id and with a range of
    /// keys.
    pub fn has_tables(&self, ids: &Vec<usize>) -> (has: bool)
        ensures
            has == self@.holds(ids@),
    {
        let mut i: usize = 0;
        while i < ids.len()
            invariant
                i <= ids@.len(),
                self@.holds(ids@.take(i as int)),
            decreases ids@.len() - i,
        {
            let ghost next = ids@.take(i + 1);
            proof {
                assert forall|k: int| 0 <= k < i implies next[k] == #[trigger] ids@.take(
                    i as int,
                )[k] by {}
                assert(ids@[i as int] == next[i as int]);
            }
            if !self.has_table(ids[i]) {
                return false;
            }
            let table = self.table(ids[i]);
            if table.sst_id() != ids[i] || !is_at_most(table.first_key(), table.last_key()) {
                return false;
            }
            proof {
                assert forall|k: int| 0 <= k < next.len() implies {
                    &&& self@.sstables.contains_key(#[trigger] next[k])
                    &&& self@.sstables[next[k]].id == next[k]
                    &&& key_le(self@.sstables[next[k]].first_key, self@.sstables[next[k]].last_key)
                } by {
                    if k < i {
                        assert(next[k] == ids@.take(i as int)[k]);
                    }
                }
            }
            i += 1;
        }
        assert(ids@.take(i as int) =~= ids@);
        true
    }

    /// Whether the tables of the list are there, and sorted by key range.
    pub fn has_sorted_run(&self, ids: &Vec<usize>) -> (sorted: bool)
        ensures
            sorted == self@.is_sorted_run(ids@),
    {
        if !self.has_tables(ids) {
            return false;
        }
        let ghost tables = self@.sstables;
        let mut i: usize = 1;
        while i < ids.len()
            invariant
                1 <= i,
                tables == self@.sstables,
                self@.holds(ids@),
                forall|a: int, b: int|
                    0 <= a < b < i && b < ids@.len() ==> key_le(
                        tables[#[trigger] ids@[a]].first_key,
                        tables[#[trigger] ids@[b]].first_key,
                    ) && key_le(tables[ids@[a]].last_key, tables[ids@[b]].last_key),
            decreases ids@.len() - i,
        {
            let before = self.table(ids[i - 1]);
            let table = self.table(ids[i]);
            if !is_at_most(before.first_key(), table.first_key()) || !is_at_most(
                before.last_key(),
                table.last_key(),
            ) {
                return false;
            }
            proof {
                assert forall|a: int, b: int| 0 <= a < b < i + 1 && b < ids@.len() implies key_le(
                    tables[#[trigger] ids@[a]].first_key,
                    tables[#[trigger] ids@[b]].first_key,
                ) && key_le(tables[ids@[a]].last_key, tables[ids@[b]].last_key) by {
                    if b == i && a < i - 1 {
                        let near = tables[ids@[i - 1]];
                        let far = tables[ids@[i as int]];
                        let own = tables[ids@[a]];
                        lemma_key_le_transitive(own.first_key, near.first_key, far.first_key);
                        lemma_key_le_transitive(own.last_key, near.last_key, far.last_key);
                    }
                }
            }
            i += 1;
        }
        true
    }

    /// The table with the given id.
    pub fn table(&self, id: usize) -> (table: &SsTable)
        requires
            self@.sstables.contains_key(id),
        ensures
            table@ == self@.sstables[id],
    {
        broadcast use vstd::std_specs::hash::group_hash_axioms;

        self.sstables.get(&id).unwrap()
    }

    /// The table ids of a level, counted from 1.
    pub fn level(&self, level: usize) -> (ids: &Vec<usize>)
        requires
            1 <= level <= self@.levels.len(),
        ensures
            ids@ == self@.level_ids(level as int),
    {
        &self.levels[level - 1].1
    }

    /// Replaces the table ids of a level, counted from 1.
    pub fn set_level_ids(&mut self, level: usize, ids: Vec<usize>)
        requires
            1 <= level <= old(self)@.levels.len(),
        ensures
            final(self)@ == old(self)@.with_level_ids(level as int, ids@),
    {
        let number = self.levels[level - 1].0;
        self.levels[level - 1] = (number, ids);
        assert(levels_view(self.levels@) =~= levels_view(old(self).levels@).update(
            level - 1,
            (number, ids@),
        ));
    }

    /// Keeps the `len` latest L0 tables.
    pub fn truncate_l0(&mut self, len: usize)
        requires
            len <= old(self)@.l0_sstables.len(),
        ensures
            final(self)@ == (StateView {
                l0_sstables: old(self)@.l0_sstables.take(len as int),
                ..old(self)@
            }),
    {
        self.l0_sstables.truncate(len);
    }
}

} // verus!
